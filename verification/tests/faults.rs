use minic::codegen::{Codegen, CodegenError};
use minic::parser::{parse, Lowered, Op, Parsed, Tree};
use minic::sema::lower;
use minic::table::Table;
use minic::types::{Type, TypeChecker, TypeError};

fn check_error(tree: &Tree<Parsed>) -> TypeError {
    let mut checker = TypeChecker::new();
    match checker.check_result(tree) {
        Err(e) => e,
        Ok(_) => panic!("expected a type error"),
    }
}

fn tree_error(tree: &Tree<Parsed>) -> TypeError {
    let mut checker = TypeChecker::new();
    match checker.check_tree_result(tree) {
        Err(e) => e,
        Ok(_) => panic!("expected a type error"),
    }
}

#[test]
fn checker_refuses_trees_outside_the_grammar() {
    let e = check_error(&Tree::Integer(1, ()));
    assert!(matches!(e, TypeError::NotProgram));
    assert_eq!(e.message(), "top-level tree must be Program");

    let e = tree_error(&Tree::Return(Box::new(Tree::Integer(1, ())), ()));
    assert!(matches!(e, TypeError::ReturnOutside));
    assert_eq!(e.message(), "return outside of function");

    let e = tree_error(&Tree::VarDeclare(Type::Int, "x".to_string()));
    assert!(matches!(e, TypeError::NoScope));
    assert_eq!(e.message(), "no scope for declaration");

    let e = tree_error(&Tree::Program(vec![]));
    assert!(matches!(e, TypeError::Unexpected));

    let e = tree_error(&Tree::BinOp(
        Op::Add,
        Box::new(Tree::Block(vec![])),
        Box::new(Tree::Integer(1, ())),
        (),
    ));
    assert!(matches!(e, TypeError::NotTyped));
    assert_eq!(e.message(), "Not typed");
}

#[test]
fn checker_refuses_sizes_out_of_range() {
    let tree = parse("int main(){ int a[18446744073709551615]; return sizeof a; }").unwrap();
    let e = check_error(&tree);
    assert!(matches!(e, TypeError::SizeTooLarge));
}

#[test]
fn checker_refuses_duplicate_global() {
    let tree = parse("int g; char g; int main(){ return 0; }").unwrap();
    let e = check_error(&tree);
    assert!(matches!(&e, TypeError::DuplicateGlobal(n) if n == "g"));
    assert_eq!(e.message(), "duplicate of global var: g");
}

fn int_type() -> Type {
    Type::Int
}

fn main_returning(body: Vec<Tree<Lowered>>) -> Tree<Lowered> {
    Tree::Program(vec![Tree::FuncDef(int_type(), "main".to_string(), vec![], Box::new(Tree::Block(body)))])
}

fn generate_error(tree: &Tree<Lowered>) -> CodegenError {
    let mut codegen = Codegen::new(Table::new(), Table::new());
    match codegen.generate_result(tree) {
        Err(e) => e,
        Ok(()) => panic!("expected a code generation error"),
    }
}

#[test]
fn codegen_refuses_malformed_trees() {
    let e = generate_error(&Tree::Integer(1, int_type()));
    assert!(matches!(e, CodegenError::NotProgram));
    assert_eq!(e.message(), "top-level tree must be Program");

    let f = || Tree::FuncDef(int_type(), "main".to_string(), vec![], Box::new(Tree::Block(vec![])));
    let e = generate_error(&Tree::Program(vec![f(), f()]));
    assert!(matches!(&e, CodegenError::DoubleFunction(n) if n == "main"));
    assert_eq!(e.message(), "Double Declation of function: main");

    let e = generate_error(&Tree::Program(vec![f(), Tree::VarDeclare(int_type(), "g".to_string())]));
    assert!(matches!(e, CodegenError::NotFunction));

    let e = generate_error(&main_returning(vec![Tree::Return(Box::new(Tree::Var("y".to_string(), int_type())), int_type())]));
    assert!(matches!(&e, CodegenError::NotDeclared(n) if n == "y"));
    assert_eq!(e.message(), "Not declared variable: y");

    let args: Vec<Tree<Lowered>> = (0..9).map(|k| Tree::Integer(k, int_type())).collect();
    let e = generate_error(&main_returning(vec![Tree::Call("main".to_string(), args, int_type())]));
    assert!(matches!(&e, CodegenError::TooManyArgs(n) if n == "main"));
    assert_eq!(e.message(), "Too much args: main");

    let e = generate_error(&main_returning(vec![Tree::Call("main".to_string(), vec![Tree::Integer(1, int_type())], int_type())]));
    assert!(matches!(e, CodegenError::ArgCount));
    assert_eq!(e.message(), "Invalid number of args");

    let e = generate_error(&main_returning(vec![Tree::Call("g".to_string(), vec![], int_type())]));
    assert!(matches!(&e, CodegenError::FunctionNotDeclared(n) if n == "g"));
    assert_eq!(e.message(), "g is not declared");

    let e = generate_error(&main_returning(vec![Tree::Return(Box::new(Tree::Block(vec![])), int_type())]));
    assert!(matches!(e, CodegenError::NotExpression));

    let e = generate_error(&main_returning(vec![Tree::Assign(
        Box::new(Tree::Integer(1, int_type())),
        Box::new(Tree::Integer(2, int_type())),
        int_type(),
    )]));
    assert!(matches!(e, CodegenError::NotLvalue));
    assert_eq!(e.message(), "not an lvalue");

    let e = generate_error(&main_returning(vec![Tree::BinOp(
        Op::Add,
        Box::new(Tree::Call("main".to_string(), vec![], int_type())),
        Box::new(Tree::Block(vec![])),
        int_type(),
    )]));
    assert!(matches!(e, CodegenError::NotExpression));

    let array = Type::Array(Box::new(int_type()), 3);
    let e = generate_error(&main_returning(vec![
        Tree::VarDeclare(array.clone(), "a".to_string()),
        Tree::Return(Box::new(Tree::Var("a".to_string(), array)), int_type()),
    ]));
    assert!(matches!(e, CodegenError::BadAccessSize));
}

#[test]
fn codegen_refuses_frames_out_of_range() {
    let tree = parse("int main(){ int a[4611686018427387904]; return 0; }").unwrap();
    let mut checker = TypeChecker::new();
    let typed = checker.check_result(&tree).unwrap_or_else(|e| panic!("{}", e.message()));
    let lowered = lower(typed);
    let mut codegen = Codegen::new(checker.globals().clone(), checker.strings().clone());
    let e = codegen.generate_result(&lowered).unwrap_err();
    assert!(matches!(e, CodegenError::Overflow));
    assert_eq!(e.message(), "arithmetic overflow");
}
