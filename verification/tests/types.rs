use minic::parser::{parse, Op, Tree, Typed, TypedTree as _};
use minic::types::{Type, TypeChecker, TypeError};

type TypedTree = Tree<Typed>;

fn typecheck(source: &str) -> TypedTree {
    let tree = parse(source).unwrap();
    let mut checker = TypeChecker::new();
    checker
        .check_result(&tree)
        .unwrap_or_else(|error| panic!("{}", error.message()))
}

fn typecheck_error(source: &str) -> TypeError {
    let tree = parse(source).unwrap();
    let mut checker = TypeChecker::new();
    match checker.check_result(&tree) {
        Err(error) => error,
        Ok(_) => panic!("expected a type error"),
    }
}

fn typed_program(source: &str) -> Vec<TypedTree> {
    match typecheck(source) {
        TypedTree::Program(trees) => trees,
        _ => panic!("top-level tree must be Program"),
    }
}

fn find_func<'a>(trees: &'a [TypedTree], name: &str) -> &'a TypedTree {
    trees
        .iter()
        .find(|tree| matches!(tree, TypedTree::FuncDef(_, n, _, _) if n == name))
        .unwrap_or_else(|| panic!("function {} not found", name))
}

#[test]
fn typecheck_basic_arith() {
    let trees = typed_program("int main(){ return 1+2*3; }");
    let func = find_func(&trees, "main");

    match func {
        TypedTree::FuncDef(_, _, _, body) => match &**body {
            TypedTree::Block(stmts) => match &stmts[0] {
                TypedTree::Return(expr, ret_ty) => {
                    assert_eq!(ret_ty, &Type::Int);
                    match &**expr {
                        TypedTree::BinOp(Op::Add, _, _, ty) => {
                            assert_eq!(ty, &Type::Int);
                        }
                        _ => panic!("expected add expression"),
                    }
                }
                _ => panic!("expected return"),
            },
            _ => panic!("expected block"),
        },
        _ => panic!("expected func"),
    }
}

#[test]
fn typecheck_addr_deref() {
    let trees = typed_program("int main(){ int x; return *&x; }");
    let func = find_func(&trees, "main");

    match func {
        TypedTree::FuncDef(_, _, _, body) => match &**body {
            TypedTree::Block(stmts) => match &stmts[1] {
                TypedTree::Return(expr, ret_ty) => {
                    assert_eq!(ret_ty, &Type::Int);
                    match &**expr {
                        TypedTree::Deref(inner, ty) => {
                            assert_eq!(ty, &Type::Int);
                            match &**inner {
                                TypedTree::Addr(target, addr_ty) => {
                                    assert_eq!(addr_ty, &Type::Ptr(Box::new(Type::Int)));
                                    assert!(matches!(**target, TypedTree::Var(_, _)));
                                }
                                _ => panic!("expected addr"),
                            }
                        }
                        _ => panic!("expected deref"),
                    }
                }
                _ => panic!("expected return"),
            },
            _ => panic!("expected block"),
        },
        _ => panic!("expected func"),
    }
}

#[test]
fn typecheck_ptr_arith() {
    let trees = typed_program("int main(){ int *p; return p+1; }");
    let func = find_func(&trees, "main");

    match func {
        TypedTree::FuncDef(_, _, _, body) => match &**body {
            TypedTree::Block(stmts) => match &stmts[1] {
                TypedTree::Return(expr, ret_ty) => {
                    assert_eq!(ret_ty, &Type::Ptr(Box::new(Type::Int)));
                    match &**expr {
                        TypedTree::BinOp(Op::Add, _, _, ty) => {
                            assert_eq!(ty, &Type::Ptr(Box::new(Type::Int)));
                        }
                        _ => panic!("expected add expression"),
                    }
                }
                _ => panic!("expected return"),
            },
            _ => panic!("expected block"),
        },
        _ => panic!("expected func"),
    }
}

#[test]
fn typecheck_call_args() {
    let trees =
        typed_program("int foo(int *p){ return *p; } int main(){ int x; return foo(&x); }");
    let func = find_func(&trees, "main");

    match func {
        TypedTree::FuncDef(_, _, _, body) => match &**body {
            TypedTree::Block(stmts) => match &stmts[1] {
                TypedTree::Return(expr, ret_ty) => {
                    assert_eq!(ret_ty, &Type::Int);
                    match &**expr {
                        TypedTree::Call(name, args, call_ty) => {
                            assert_eq!(name, "foo");
                            assert_eq!(args.len(), 1);
                            assert_eq!(call_ty, &Type::Int);
                        }
                        _ => panic!("expected call"),
                    }
                }
                _ => panic!("expected return"),
            },
            _ => panic!("expected block"),
        },
        _ => panic!("expected func"),
    }
}

#[test]
#[should_panic(expected = "assign type mismatch")]
fn typecheck_assign_mismatch_panics() {
    let _ = typecheck("int main(){ int *p; int x; p=x; }");
}

#[test]
fn typecheck_sizeof_expr() {
    let trees = typed_program("int main(){ int *p; return sizeof p; }");
    let func = find_func(&trees, "main");

    match func {
        TypedTree::FuncDef(_, _, _, body) => match &**body {
            TypedTree::Block(stmts) => match &stmts[1] {
                TypedTree::Return(expr, ret_ty) => {
                    assert_eq!(ret_ty, &Type::Int);
                    assert!(matches!(**expr, TypedTree::Integer(8, Type::Int)));
                }
                _ => panic!("expected return"),
            },
            _ => panic!("expected block"),
        },
        _ => panic!("expected func"),
    }
}

#[test]
fn typecheck_array_var_decays_to_ptr() {
    let trees = typed_program("int main(){ int a[4]; return a; }");
    let func = find_func(&trees, "main");

    match func {
        TypedTree::FuncDef(_, _, _, body) => match &**body {
            TypedTree::Block(stmts) => match &stmts[1] {
                TypedTree::Return(expr, ret_ty) => {
                    assert_eq!(ret_ty, &Type::Ptr(Box::new(Type::Int)));
                    match &**expr {
                        TypedTree::Addr(inner, addr_ty) => {
                            assert_eq!(addr_ty, &Type::Ptr(Box::new(Type::Int)));
                            assert!(
                                matches!(**inner, TypedTree::Var(ref name, Type::Int) if name == "a")
                            );
                        }
                        _ => panic!("expected addr from array-to-pointer decay"),
                    }
                }
                _ => panic!("expected return"),
            },
            _ => panic!("expected block"),
        },
        _ => panic!("expected func"),
    }
}

#[test]
fn typecheck_array_index_yields_element_lvalue() {
    let trees = typed_program("int main(){ int *a; int v; a[2] = v; return a[2]; }");
    let func = find_func(&trees, "main");

    match func {
        TypedTree::FuncDef(_, _, _, body) => match &**body {
            TypedTree::Block(stmts) => {
                match &stmts[2] {
                    TypedTree::Assign(lhs, rhs, ty) => {
                        assert_eq!(ty, &Type::Int);
                        assert!(
                            matches!(**rhs, TypedTree::Var(ref name, Type::Int) if name == "v")
                        );
                        match &**lhs {
                            TypedTree::Deref(indexed, lhs_ty) => {
                                assert_eq!(lhs_ty, &Type::Int);
                                match &**indexed {
                                    TypedTree::BinOp(Op::Add, base, index, ptr_ty) => {
                                        assert!(matches!(
                                            **index,
                                            TypedTree::Integer(2, Type::Int)
                                        ));
                                        assert_eq!(ptr_ty, &Type::Ptr(Box::new(Type::Int)));
                                        assert!(matches!(
                                            **base,
                                            TypedTree::Var(ref name, Type::Ptr(ref inner))
                                                if name == "a" && **inner == Type::Int
                                        ));
                                    }
                                    _ => panic!("expected pointer add for index"),
                                }
                            }
                            _ => panic!("expected deref on lhs"),
                        }
                    }
                    _ => panic!("expected assign"),
                }

                match &stmts[3] {
                    TypedTree::Return(expr, ret_ty) => {
                        assert_eq!(ret_ty, &Type::Int);
                        assert!(matches!(**expr, TypedTree::Deref(_, Type::Int)));
                    }
                    _ => panic!("expected return"),
                }
            }
            _ => panic!("expected block"),
        },
        _ => panic!("expected func"),
    }
}

#[test]
fn typecheck_sizeof_array_expr() {
    let trees = typed_program("int main(){ int a[4]; return sizeof a; }");
    let func = find_func(&trees, "main");

    match func {
        TypedTree::FuncDef(_, _, _, body) => match &**body {
            TypedTree::Block(stmts) => match &stmts[1] {
                TypedTree::Return(expr, ret_ty) => {
                    assert_eq!(ret_ty, &Type::Int);
                    assert!(matches!(**expr, TypedTree::Integer(16, Type::Int)));
                }
                _ => panic!("expected return"),
            },
            _ => panic!("expected block"),
        },
        _ => panic!("expected func"),
    }
}

#[test]
fn globals_are_collected() {
    let tree = parse("int g; int main(){ return 1; }").unwrap();
    let mut checker = TypeChecker::new();
    let typed = checker.check(&tree);
    let globals = checker.globals();
    assert!(globals.contains_key("g"));
    assert_eq!(globals.get("g"), Some(&Type::Int));

    match typed {
        TypedTree::Program(trees) => {
            // only one function definition should be present
            assert!(trees
                .iter()
                .any(|t| matches!(t, TypedTree::FuncDef(_, n, _, _) if n == "main")));
        }
        _ => panic!("expected program"),
    }
}

#[test]
#[should_panic(expected = "duplicate of global var")]
fn duplicate_global_decl_panics() {
    let _ = typecheck("int g; int g; int main(){ return 0; }");
}

#[test]
fn type_sizes() {
    assert_eq!(Type::Int.size(), 4);
    assert_eq!(Type::Char.size(), 1);
    assert_eq!(Type::Ptr(Box::new(Type::Char)).size(), 8);
    assert_eq!(Type::Array(Box::new(Type::Int), 10).size(), 40);
    assert_eq!(
        Type::Array(Box::new(Type::Array(Box::new(Type::Char), 3)), 5).size(),
        15
    );
    assert_eq!(Type::Array(Box::new(Type::Int), usize::MAX).checked_size(), None);
}

#[test]
fn type_debug_text() {
    assert_eq!(Type::Int.debug_text(), format!("{:?}", Type::Int));
    let t = Type::Array(Box::new(Type::Ptr(Box::new(Type::Char))), 3);
    assert_eq!(t.debug_text(), format!("{:?}", t));
    assert_eq!(t.debug_text(), "Array(Ptr(Char), 3)");
}

#[test]
fn typed_tree_ty_gives_annotation() {
    let trees = typed_program("int main(){ char c; return c + 1; }");
    match find_func(&trees, "main") {
        TypedTree::FuncDef(_, _, _, body) => match &**body {
            TypedTree::Block(stmts) => match &stmts[1] {
                TypedTree::Return(expr, _) => {
                    assert_eq!(expr.ty(), &Type::Int);
                    assert_eq!(stmts[1].ty(), &Type::Int);
                }
                _ => panic!("expected return"),
            },
            _ => panic!("expected block"),
        },
        _ => panic!("expected func"),
    }
}

#[test]
fn string_literals_get_labels_in_order() {
    let tree = parse("int main(){ \"a\"; \"b\"; \"a\"; return 0; }").unwrap();
    let mut checker = TypeChecker::new();
    let typed = checker.check(&tree);
    let strings = checker.strings();
    assert_eq!(strings.len(), 3);
    let entries = strings.entries();
    assert_eq!(entries[0], ("LC0".to_string(), "a".to_string()));
    assert_eq!(entries[1], ("LC1".to_string(), "b".to_string()));
    assert_eq!(entries[2], ("LC2".to_string(), "a".to_string()));
    match typed {
        TypedTree::Program(trees) => match &trees[0] {
            TypedTree::FuncDef(_, _, _, body) => match &**body {
                TypedTree::Block(stmts) => {
                    assert!(matches!(&stmts[0], TypedTree::String(l, Type::Ptr(_)) if l == "LC0"));
                    assert!(matches!(&stmts[2], TypedTree::String(l, _) if l == "LC2"));
                }
                _ => panic!("expected block"),
            },
            _ => panic!("expected func"),
        },
        _ => panic!("expected program"),
    }
}

#[test]
fn type_errors_and_messages() {
    let e = typecheck_error("int main(){ return y; }");
    assert!(matches!(&e, TypeError::NotDeclared(n) if n == "y"));
    assert_eq!(e.message(), "not declared variable: y");

    let e = typecheck_error("int f(){ return 0; } int f(){ return 1; }");
    assert!(matches!(&e, TypeError::DoubleFunction(n) if n == "f"));
    assert_eq!(e.message(), "double declaration of function: f");

    let e = typecheck_error("int main(){ int x; int x; return 0; }");
    assert_eq!(e.message(), "double declaration of variable: x");

    let e = typecheck_error("int main(){ return g(); }");
    assert_eq!(e.message(), "g is not declared");

    let e = typecheck_error("int f(int a){ return a; } int main(){ return f(); }");
    assert_eq!(e.message(), "invalid number of args for f");

    let e = typecheck_error("int f(int *a){ return 0; } int main(){ return f(1); }");
    assert_eq!(e.message(), "arg 0 type mismatch for f");

    let e = typecheck_error("int main(){ int *p; if (p) return 1; return 0; }");
    assert_eq!(e.message(), "if condition must be int");

    let e = typecheck_error("int main(){ int *p; while (p) return 1; return 0; }");
    assert_eq!(e.message(), "while condition must be int");

    let e = typecheck_error("int main(){ int *p; for (;p;) return 1; return 0; }");
    assert_eq!(e.message(), "for condition must be int");

    let e = typecheck_error("int main(){ return *1; }");
    assert_eq!(e.message(), "Int is not ptr");

    let e = typecheck_error("int main(){ 1 = 2; return 0; }");
    assert_eq!(e.message(), "not an lvalue");

    let e = typecheck_error("int main(){ int x; return x[1]; }");
    assert_eq!(e.message(), "index access for not pointer");

    let e = typecheck_error("int main(){ int *p; char *q; return p - q; }");
    assert_eq!(e.message(), "Sub for Ptr(Int) and Ptr(Char) is not allowed");

    let e = typecheck_error("return 1;");
    assert_eq!(e.message(), "invalid top-level tree");
}

#[test]
fn inner_declarations_shadow_and_end_with_their_scope() {
    let trees = typed_program("int x; int main(){ char x; return sizeof x; }");
    match find_func(&trees, "main") {
        TypedTree::FuncDef(_, _, _, body) => match &**body {
            TypedTree::Block(stmts) => {
                assert!(matches!(&stmts[1], TypedTree::Return(e, _) if matches!(**e, TypedTree::Integer(1, Type::Int))))
            }
            _ => panic!("expected block"),
        },
        _ => panic!("expected func"),
    }
    let trees = typed_program("int main(){ int x; { char x; } return sizeof x; }");
    match find_func(&trees, "main") {
        TypedTree::FuncDef(_, _, _, body) => match &**body {
            TypedTree::Block(stmts) => {
                assert!(matches!(&stmts[2], TypedTree::Return(e, _) if matches!(**e, TypedTree::Integer(4, Type::Int))))
            }
            _ => panic!("expected block"),
        },
        _ => panic!("expected func"),
    }
}

#[test]
fn comparisons_are_int() {
    let trees = typed_program("int main(){ int *p; int *q; return p == q; }");
    match find_func(&trees, "main") {
        TypedTree::FuncDef(_, _, _, body) => match &**body {
            TypedTree::Block(stmts) => match &stmts[2] {
                TypedTree::Return(e, ty) => {
                    assert_eq!(ty, &Type::Int);
                    assert!(matches!(**e, TypedTree::BinOp(Op::Eq, _, _, Type::Int)));
                }
                _ => panic!("expected return"),
            },
            _ => panic!("expected block"),
        },
        _ => panic!("expected func"),
    }
}

#[test]
fn check_tree_types_an_expression_in_a_fresh_checker() {
    let mut checker = TypeChecker::new();
    let tree = Tree::BinOp(
        Op::Add,
        Box::new(Tree::Integer(1, ())),
        Box::new(Tree::Integer(2, ())),
        (),
    );
    match checker.check_tree(&tree) {
        TypedTree::BinOp(Op::Add, l, r, ty) => {
            assert_eq!(ty, Type::Int);
            assert!(matches!(*l, TypedTree::Integer(1, Type::Int)));
            assert!(matches!(*r, TypedTree::Integer(2, Type::Int)));
        }
        other => panic!("unexpected tree {:?}", other),
    }
    let s = checker.check_tree(&Tree::String("hi".to_string(), ()));
    assert!(matches!(&s, TypedTree::String(label, Type::Ptr(inner)) if label == "LC0" && **inner == Type::Char));
}

#[test]
fn pointer_addition_takes_either_order_and_subtraction_one() {
    let trees = typed_program("int main(){ int *p; int *q; p = p + 1; q = 1 + p; return 0; }");
    assert_eq!(trees.len(), 1);
    let e = typecheck_error("int main(){ int *p; p = 1 - p; return 0; }");
    assert!(matches!(e, TypeError::BinOpNotAllowed(Op::Sub, Type::Int, Type::Ptr(_))));
}

#[test]
fn leaving_a_scope_undoes_its_declarations() {
    let mut checker = TypeChecker::new();
    checker.enter_scope();
    checker.declare("x".to_string(), Type::Int);
    checker.enter_scope();
    checker.declare("x".to_string(), Type::Char);
    checker.declare("y".to_string(), Type::Int);
    assert_eq!(checker.lookup("x"), Some(Type::Char));
    assert_eq!(checker.lookup("y"), Some(Type::Int));
    checker.exit_scope();
    assert_eq!(checker.lookup("x"), Some(Type::Int));
    assert_eq!(checker.lookup("y"), None);
    assert!(matches!(
        checker.declare_result("x".to_string(), Type::Char),
        Err(TypeError::DoubleVariable(ref n)) if n == "x"
    ));
}

#[test]
fn string_literals_get_one_label_each() {
    let mut checker = TypeChecker::new();
    assert_eq!(checker.add_string_literal("a"), "LC0");
    assert_eq!(checker.add_string_literal("a"), "LC1");
    assert_eq!(checker.add_string_literal("b"), "LC2");
    let entries: Vec<(String, String)> = checker
        .strings()
        .entries()
        .iter()
        .map(|(k, v)| (k.clone(), v.clone()))
        .collect();
    assert_eq!(
        entries,
        vec![
            ("LC0".to_string(), "a".to_string()),
            ("LC1".to_string(), "a".to_string()),
            ("LC2".to_string(), "b".to_string()),
        ]
    );
    let mut other = TypeChecker::new();
    other.check(&parse("int main(){ char *s; s = \"x\"; s = \"x\"; return sizeof(\"yz\"); }").unwrap());
    let labels: Vec<String> = other.strings().entries().iter().map(|(k, _)| k.clone()).collect();
    assert_eq!(labels, vec!["LC0", "LC1", "LC2"]);
}
