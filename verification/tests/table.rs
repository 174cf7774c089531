use minic::table::Table;
use minic::types::Type;

#[test]
fn table_insert_replaces_in_place() {
    let mut t: Table<Type> = Table::new();
    t.insert("a".to_string(), Type::Int);
    t.insert("b".to_string(), Type::Char);
    t.insert("a".to_string(), Type::Ptr(Box::new(Type::Int)));
    assert_eq!(t.len(), 2);
    assert_eq!(t.get("a"), Some(&Type::Ptr(Box::new(Type::Int))));
    assert_eq!(t.entries()[0].0, "a");
    assert_eq!(t.entries()[1].0, "b");
    assert!(!t.contains_key("c"));
    let copy = t.clone();
    assert_eq!(copy.entries(), t.entries());
    t.clear();
    assert_eq!(t.len(), 0);
    assert_eq!(copy.len(), 2);
}
