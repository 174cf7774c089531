use minic::parser::{Lowered, Op, Tree, Typed};
use minic::sema::lower;
use minic::types::Type;

#[test]
fn lower_rewrites_indexing_as_pointer_arithmetic() {
    let ptr = Type::Ptr(Box::new(Type::Int));
    let typed: Tree<Typed> = Tree::Indexed(
        Box::new(Tree::Var("a".to_string(), ptr.clone())),
        Box::new(Tree::Integer(2, Type::Int)),
        ptr.clone(),
    );
    match lower(typed) {
        Tree::Deref(sum, ty) => {
            assert_eq!(ty, ptr);
            match *sum {
                Tree::BinOp(Op::Add, l, r, ty) => {
                    assert_eq!(ty, ptr);
                    assert!(matches!(*l, Tree::Var(ref n, _) if n == "a"));
                    assert!(matches!(*r, Tree::Integer(2, Type::Int)));
                }
                _ => panic!("expected a sum"),
            }
        }
        _ => panic!("expected a dereference"),
    }
}

#[test]
fn lower_keeps_other_trees() {
    let typed: Tree<Typed> = Tree::Program(vec![Tree::FuncDef(
        Type::Int,
        "main".to_string(),
        vec![(Type::Char, "c".to_string())],
        Box::new(Tree::Block(vec![
            Tree::VarDeclare(Type::Int, "x".to_string()),
            Tree::If(
                Box::new(Tree::Integer(1, Type::Int)),
                Box::new(Tree::Return(Box::new(Tree::String("LC0".to_string(), Type::Ptr(Box::new(Type::Char)))), Type::Ptr(Box::new(Type::Char)))),
                None,
            ),
            Tree::For(None, Some(Box::new(Tree::Integer(0, Type::Int))), None, Box::new(Tree::Block(vec![]))),
        ])),
    )]);
    let lowered: Tree<Lowered> = lower(typed);
    match lowered {
        Tree::Program(items) => match &items[0] {
            Tree::FuncDef(ty, name, params, body) => {
                assert_eq!(ty, &Type::Int);
                assert_eq!(name, "main");
                assert_eq!(params, &vec![(Type::Char, "c".to_string())]);
                match &**body {
                    Tree::Block(stmts) => {
                        assert_eq!(stmts.len(), 3);
                        assert!(matches!(&stmts[0], Tree::VarDeclare(Type::Int, n) if n == "x"));
                        assert!(matches!(&stmts[1], Tree::If(_, _, None)));
                        assert!(matches!(&stmts[2], Tree::For(None, Some(_), None, _)));
                    }
                    _ => panic!("expected block"),
                }
            }
            _ => panic!("expected function"),
        },
        _ => panic!("expected program"),
    }
}
