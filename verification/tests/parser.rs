use minic::lexer::{lex, Span, Token};
use minic::parser::{parse, parse_tokens, Op, Parsed, Tree};
use minic::types::Type;

fn parse_one(source: &str) -> Tree<Parsed> {
    match parse(source).unwrap() {
        Tree::Program(trees) => {
            assert_eq!(trees.len(), 1, "expected one top-level item");
            trees.into_iter().next().unwrap()
        }
        _ => panic!("top-level tree must be Program"),
    }
}

fn parse_func(source: &str) -> (Type, String, Vec<(Type, String)>, Tree<Parsed>) {
    match parse_one(source) {
        Tree::FuncDef(ty, name, params, body) => (ty, name, params, *body),
        _ => panic!("expected function definition"),
    }
}

fn expect_block(tree: &Tree<Parsed>) -> &Vec<Tree<Parsed>> {
    match tree {
        Tree::Block(stmts) => stmts,
        _ => panic!("expected block body"),
    }
}

#[test]
fn parse_respects_precedence() {
    let (ty, name, params, body) = parse_func("int main(){ return 1+2*3; }");
    assert_eq!(ty, Type::Int);
    assert_eq!(name, "main");
    assert!(params.is_empty());
    let stmts = expect_block(&body);
    assert_eq!(stmts.len(), 1);
    match &stmts[0] {
        Tree::Return(expr, _) => match expr.as_ref() {
            Tree::BinOp(Op::Add, lhs, rhs, _) => {
                assert!(matches!(lhs.as_ref(), Tree::Integer(1, _)));
                match rhs.as_ref() {
                    Tree::BinOp(Op::Mul, mul_lhs, mul_rhs, _) => {
                        assert!(matches!(**mul_lhs, Tree::Integer(2, _)));
                        assert!(matches!(**mul_rhs, Tree::Integer(3, _)));
                    }
                    _ => panic!("expected multiply in rhs"),
                }
            }
            _ => panic!("expected add in return"),
        },
        _ => panic!("expected return stmt"),
    }
}

#[test]
fn parse_if_else_block() {
    let (_, _, _, body) = parse_func("int main(){ if (1) return 2; else return 3; }");
    let stmts = expect_block(&body);
    match &stmts[0] {
        Tree::If(cond, then_branch, else_branch) => {
            assert!(matches!(**cond, Tree::Integer(1, _)));
            assert!(matches!(**then_branch, Tree::Return(..)));
            assert!(else_branch.is_some());
        }
        _ => panic!("expected if stmt"),
    }
}

#[test]
fn parse_while_and_for() {
    let (_, _, _, body) =
        parse_func("int main(){ int i; while(i) i=i-1; for(i=0;i<3;i=i+1) i; }");
    let stmts = expect_block(&body);
    assert_eq!(stmts.len(), 3);
    assert!(matches!(stmts[0], Tree::VarDeclare(_, _)));
    assert!(matches!(stmts[1], Tree::While(_, _)));
    assert!(matches!(stmts[2], Tree::For(_, _, _, _)));
}

#[test]
fn parse_array_decl() {
    let (_, _, _, body) = parse_func("int main(){ int a[10]; }");
    let stmts = expect_block(&body);

    match &stmts[0] {
        Tree::VarDeclare(ty, name) => {
            assert_eq!(name, "a");
            assert_eq!(*ty, Type::Array(Box::new(Type::Int), 10));
        }
        _ => panic!("expected array declaration"),
    }
}

#[test]
fn parse_array_index_expr() {
    let (_, _, _, body) = parse_func("int main(){ return a[3]; }");
    let stmts = expect_block(&body);

    match &stmts[0] {
        Tree::Return(expr, _) => match expr.as_ref() {
            Tree::Indexed(inner, index, _) => {
                assert!(matches!(index.as_ref(), Tree::Integer(3, _)));
                assert!(matches!(inner.as_ref(), Tree::Var(name, _) if name == "a"));
            }
            _ => panic!("expected indexed expression"),
        },
        _ => panic!("expected return statement"),
    }
}

#[test]
fn parse_array_index_assignment() {
    let (_, _, _, body) = parse_func("int main(){ a[1] = 2; }");
    let stmts = expect_block(&body);

    match &stmts[0] {
        Tree::Assign(lhs, rhs, _) => {
            match lhs.as_ref() {
                Tree::Indexed(inner, index, _) => {
                    assert!(matches!(index.as_ref(), Tree::Integer(1, _)));
                    assert!(matches!(inner.as_ref(), Tree::Var(name, _) if name == "a"));
                }
                _ => panic!("expected indexed lvalue"),
            }
            assert!(matches!(rhs.as_ref(), Tree::Integer(2, _)));
        }
        _ => panic!("expected assignment statement"),
    }
}

#[test]
fn parse_call_and_unary() {
    let (_, _, _, body) = parse_func("int main(){ return *&foo(1,2); }");
    let stmts = expect_block(&body);
    match &stmts[0] {
        Tree::Return(expr, _) => match expr.as_ref() {
            Tree::Deref(inner, _) => match &**inner {
                Tree::Addr(call, _) => match &**call {
                    Tree::Call(name, args, _) => {
                        assert_eq!(name, "foo");
                        assert_eq!(args.len(), 2);
                    }
                    _ => panic!("expected call"),
                },
                _ => panic!("expected addr"),
            },
            _ => panic!("expected deref"),
        },
        _ => panic!("expected return stmt"),
    }
}

#[test]
fn parse_assignment_right_associative() {
    let (_, _, _, body) = parse_func("int main(){ a=b=1; }");
    let stmts = expect_block(&body);
    match &stmts[0] {
        Tree::Assign(lhs, rhs, _) => {
            assert!(matches!(lhs.as_ref(), Tree::Var(name, _) if name == "a"));
            match rhs.as_ref() {
                Tree::Assign(inner_lhs, inner_rhs, _) => {
                    assert!(matches!(inner_lhs.as_ref(), Tree::Var(name, _) if name == "b"));
                    assert!(matches!(inner_rhs.as_ref(), Tree::Integer(1, _)));
                }
                _ => panic!("expected nested assignment"),
            }
        }
        _ => panic!("expected assignment stmt"),
    }
}

#[test]
fn parse_relational_then_equality() {
    let (_, _, _, body) = parse_func("int main(){ return 1 < 2 == 0; }");
    let stmts = expect_block(&body);
    match &stmts[0] {
        Tree::Return(expr, _) => match expr.as_ref() {
            Tree::BinOp(Op::Eq, lhs, rhs, _) => {
                assert!(matches!(rhs.as_ref(), Tree::Integer(0, _)));
                match lhs.as_ref() {
                    Tree::BinOp(Op::Lt, rel_lhs, rel_rhs, _) => {
                        assert!(matches!(rel_lhs.as_ref(), Tree::Integer(1, _)));
                        assert!(matches!(rel_rhs.as_ref(), Tree::Integer(2, _)));
                    }
                    _ => panic!("expected relational in lhs"),
                }
            }
            _ => panic!("expected equality in return"),
        },
        _ => panic!("expected return stmt"),
    }
}

#[test]
fn parse_for_with_empty_clauses() {
    let (_, _, _, body) = parse_func("int main(){ for(;;) return 1; }");
    let stmts = expect_block(&body);
    match &stmts[0] {
        Tree::For(init, cond, update, body) => {
            assert!(init.is_none());
            assert!(cond.is_none());
            assert!(update.is_none());
            assert!(matches!(body.as_ref(), Tree::Return(..)));
        }
        _ => panic!("expected for stmt"),
    }
}

#[test]
fn parse_sizeof_unary() {
    let (_, _, _, body) = parse_func("int main(){ return sizeof 1 + sizeof x; }");
    let stmts = expect_block(&body);
    match &stmts[0] {
        Tree::Return(expr, _) => match expr.as_ref() {
            Tree::BinOp(Op::Add, lhs, rhs, _) => {
                assert!(matches!(lhs.as_ref(), Tree::Sizeof(_)));
                assert!(matches!(rhs.as_ref(), Tree::Sizeof(_)));
            }
            _ => panic!("expected add in return"),
        },
        _ => panic!("expected return stmt"),
    }
}

#[test]
fn parse_global_decl() {
    let tree = parse_one("int g;");
    match tree {
        Tree::VarDeclare(ty, name) => {
            assert_eq!(ty, Type::Int);
            assert_eq!(name, "g");
        }
        _ => panic!("expected global var declaration"),
    }
}

#[test]
fn parse_program_with_global_and_func() {
    let tree = parse("int g; int main(){ return g; }").unwrap();
    match tree {
        Tree::Program(trees) => {
            assert_eq!(trees.len(), 2);
            match &trees[0] {
                Tree::VarDeclare(ty, name) => {
                    assert_eq!(ty, &Type::Int);
                    assert_eq!(name, "g");
                }
                _ => panic!("expected first top-level to be var declare"),
            }
            match &trees[1] {
                Tree::FuncDef(_, name, _, _) => assert_eq!(name, "main"),
                _ => panic!("expected second top-level to be function"),
            }
        }
        _ => panic!("expected program"),
    }
}

#[test]
fn parse_unary_minus_is_zero_minus() {
    let (_, _, _, body) = parse_func("int main(){ return -x; }");
    let stmts = expect_block(&body);
    match &stmts[0] {
        Tree::Return(expr, _) => match expr.as_ref() {
            Tree::BinOp(Op::Sub, lhs, rhs, _) => {
                assert!(matches!(lhs.as_ref(), Tree::Integer(0, _)));
                assert!(matches!(rhs.as_ref(), Tree::Var(name, _) if name == "x"));
            }
            _ => panic!("expected subtraction"),
        },
        _ => panic!("expected return stmt"),
    }
}

#[test]
fn parse_unary_plus_is_dropped() {
    let (_, _, _, body) = parse_func("int main(){ return +5; }");
    let stmts = expect_block(&body);
    assert!(matches!(&stmts[0], Tree::Return(e, _) if matches!(e.as_ref(), Tree::Integer(5, _))));
}

#[test]
fn parse_params_pointer_types_and_strings() {
    let (ty, name, params, body) =
        parse_func("char *f(int a, char **b){ return \"hi\"; }");
    assert_eq!(ty, Type::Ptr(Box::new(Type::Char)));
    assert_eq!(name, "f");
    assert_eq!(
        params,
        vec![
            (Type::Int, "a".to_string()),
            (Type::Ptr(Box::new(Type::Ptr(Box::new(Type::Char)))), "b".to_string()),
        ]
    );
    let stmts = expect_block(&body);
    assert!(matches!(&stmts[0], Tree::Return(e, _) if matches!(e.as_ref(), Tree::String(s, _) if s == "hi")));
}

#[test]
fn parse_binary_operators_are_left_associative() {
    let (_, _, _, body) = parse_func("int main(){ return 8-2-1; }");
    let stmts = expect_block(&body);
    match &stmts[0] {
        Tree::Return(expr, _) => match expr.as_ref() {
            Tree::BinOp(Op::Sub, lhs, rhs, _) => {
                assert!(matches!(rhs.as_ref(), Tree::Integer(1, _)));
                assert!(matches!(lhs.as_ref(), Tree::BinOp(Op::Sub, _, _, _)));
            }
            _ => panic!("expected subtraction"),
        },
        _ => panic!("expected return stmt"),
    }
}

#[test]
fn parse_error_reports_expected_and_found() {
    let errors = match parse("int main(){ return 1 }") {
        Err(errors) => errors,
        Ok(_) => panic!("expected a parse error"),
    };
    assert_eq!(errors.len(), 1);
    assert_eq!(errors[0].span, Span { start: 21, end: 22 });
    assert!(errors[0].message.starts_with("expected "));
    assert!(errors[0].message.contains("`;`"));
    assert!(errors[0].message.ends_with(", found `}`"));
}

#[test]
fn parse_error_at_end_of_input() {
    let errors = match parse("int main(") {
        Err(errors) => errors,
        Ok(_) => panic!("expected a parse error"),
    };
    assert_eq!(errors.len(), 1);
    assert_eq!(errors[0].span, Span { start: 9, end: 9 });
    assert!(errors[0].message.ends_with("found end of input"));
}

#[test]
fn parse_tokens_reports_furthest_token() {
    let tokens = lex("int x").unwrap();
    let eoi = Span { start: 5, end: 5 };
    let error = match parse_tokens(&tokens, eoi) {
        Err(error) => error,
        Ok(_) => panic!("expected a parse error"),
    };
    assert_eq!(error.span, eoi);
    assert_eq!(error.found, None);
    assert!(!error.expected.is_empty());

    let tokens = lex("1 2").unwrap();
    let error = match parse_tokens(&tokens, Span { start: 3, end: 3 }) {
        Err(error) => error,
        Ok(_) => panic!("expected a parse error"),
    };
    assert_eq!(error.found, Some(Token::Number(2)));
    assert_eq!(error.span, Span { start: 2, end: 3 });
}

#[test]
fn parse_empty_program() {
    match parse("").unwrap() {
        Tree::Program(trees) => assert!(trees.is_empty()),
        _ => panic!("expected program"),
    }
}

#[test]
fn parse_error_lists_every_pattern_expected_at_the_furthest_token() {
    let errors = match parse("int main(){ return 1 }") {
        Err(errors) => errors,
        Ok(_) => panic!("expected a parse error"),
    };
    assert_eq!(
        errors[0].message,
        "expected `!=`, `*`, `+`, `-`, `/`, `;`, `<=`, `<`, `==`, `=`, `>=`, `>`, `[`, found `}`"
    );
}
