//! Syntax trees, and the parser that builds them from tokens.
use vstd::prelude::*;
use vstd::string::*;
use crate::lexer::{Token, Span, Lexeme, lex, lex_spec, lexemes, toks_view, chars_of};
use crate::error::{RichPattern, Rich, RichReason, ParseError, expected_list, message_of, pattern_texts, shown, strictly_sorted, lemma_shown_texts, Misses, no_miss, miss, miss_unless, merge, lemma_merge_chain, lemma_merge_assoc};
use crate::types::Type;

verus! {

/// A compilation phase: it decides what each node of a tree carries besides its children.
pub trait Phase {
    type XBinOp;
    type XAssign;
    type XInteger;
    type XStringLiteral;
    type XVar;
    type XAddr;
    type XDeref;
    type XIndexed;
    type XCall;
    type XReturn;
}

/// Trees as the parser builds them: no annotations.
#[derive(Clone, Copy, Debug)]
pub struct Parsed;

/// Trees after type checking: expressions carry their type.
#[derive(Clone, Copy, Debug)]
pub struct Typed;

/// Typed trees after lowering: indexing is written as pointer arithmetic.
#[derive(Clone, Copy, Debug)]
pub struct Lowered;

impl Phase for Parsed {
    type XBinOp = ();
    type XAssign = ();
    type XInteger = ();
    type XStringLiteral = ();
    type XVar = ();
    type XAddr = ();
    type XDeref = ();
    type XIndexed = ();
    type XCall = ();
    type XReturn = ();
}

impl Phase for Typed {
    type XBinOp = Type;
    type XAssign = Type;
    type XInteger = Type;
    type XStringLiteral = Type;
    type XVar = Type;
    type XAddr = Type;
    type XDeref = Type;
    type XIndexed = Type;
    type XCall = Type;
    type XReturn = Type;
}

impl Phase for Lowered {
    type XBinOp = Type;
    type XAssign = Type;
    type XInteger = Type;
    type XStringLiteral = Type;
    type XVar = Type;
    type XAddr = Type;
    type XDeref = Type;
    type XIndexed = Type;
    type XCall = Type;
    type XReturn = Type;
}

/// Trees whose expressions carry their type.
pub trait TypedTree {
    /// The type the tree carries: `Some` for an expression, `None` for a statement.
    spec fn annotation(&self) -> Option<Type>;

    /// The type of an expression.
    fn ty(&self) -> (r: &Type)
        requires
            self.annotation() is Some,
        ensures
            self.annotation() == Some(*r),
    ;
}

/// A syntax tree: a program, a statement or an expression.
#[derive(Debug)]
pub enum Tree<P: Phase> {
    Program(Vec<Tree<P>>),
    BinOp(Op, Box<Tree<P>>, Box<Tree<P>>, P::XBinOp),
    Assign(Box<Tree<P>>, Box<Tree<P>>, P::XAssign),
    Block(Vec<Tree<P>>),
    FuncDef(Type, String, Vec<(Type, String)>, Box<Tree<P>>),
    If(Box<Tree<P>>, Box<Tree<P>>, Option<Box<Tree<P>>>),
    While(Box<Tree<P>>, Box<Tree<P>>),
    For(Option<Box<Tree<P>>>, Option<Box<Tree<P>>>, Option<Box<Tree<P>>>, Box<Tree<P>>),
    Integer(i64, P::XInteger),
    String(String, P::XStringLiteral),
    Var(String, P::XVar),
    Indexed(Box<Tree<P>>, Box<Tree<P>>, P::XIndexed),
    VarDeclare(Type, String),
    Addr(Box<Tree<P>>, P::XAddr),
    Deref(Box<Tree<P>>, P::XDeref),
    Sizeof(Box<Tree<P>>),
    Call(String, Vec<Tree<P>>, P::XCall),
    Return(Box<Tree<P>>, P::XReturn),
}

/// A binary operator.
#[derive(Clone, Copy, Debug, PartialEq, Eq)]
pub enum Op {
    Add,
    Sub,
    Mul,
    Div,
    Eq,
    NotEq,
    Gt,
    Gte,
    Lt,
    Lte,
}

impl Op {
    /// The name of the operator, as `{:?}` shows it.
    pub open spec fn text(self) -> Seq<char> {
        match self {
            Op::Add => "Add"@,
            Op::Sub => "Sub"@,
            Op::Mul => "Mul"@,
            Op::Div => "Div"@,
            Op::Eq => "Eq"@,
            Op::NotEq => "NotEq"@,
            Op::Gt => "Gt"@,
            Op::Gte => "Gte"@,
            Op::Lt => "Lt"@,
            Op::Lte => "Lte"@,
        }
    }

    pub fn name(&self) -> (r: String)
        ensures
            r@ == self.text(),
    {
        match self {
            Op::Add => String::from_str("Add"),
            Op::Sub => String::from_str("Sub"),
            Op::Mul => String::from_str("Mul"),
            Op::Div => String::from_str("Div"),
            Op::Eq => String::from_str("Eq"),
            Op::NotEq => String::from_str("NotEq"),
            Op::Gt => String::from_str("Gt"),
            Op::Gte => String::from_str("Gte"),
            Op::Lt => String::from_str("Lt"),
            Op::Lte => String::from_str("Lte"),
        }
    }
}

/// The mathematical value of a tree: the same shape, with sequences for vectors and strings.
pub enum Ast<P: Phase> {
    Program(Seq<Ast<P>>),
    BinOp(Op, Box<Ast<P>>, Box<Ast<P>>, P::XBinOp),
    Assign(Box<Ast<P>>, Box<Ast<P>>, P::XAssign),
    Block(Seq<Ast<P>>),
    FuncDef(Type, Seq<char>, Seq<(Type, Seq<char>)>, Box<Ast<P>>),
    If(Box<Ast<P>>, Box<Ast<P>>, Option<Box<Ast<P>>>),
    While(Box<Ast<P>>, Box<Ast<P>>),
    For(Option<Box<Ast<P>>>, Option<Box<Ast<P>>>, Option<Box<Ast<P>>>, Box<Ast<P>>),
    Integer(i64, P::XInteger),
    String(Seq<char>, P::XStringLiteral),
    Var(Seq<char>, P::XVar),
    Indexed(Box<Ast<P>>, Box<Ast<P>>, P::XIndexed),
    VarDeclare(Type, Seq<char>),
    Addr(Box<Ast<P>>, P::XAddr),
    Deref(Box<Ast<P>>, P::XDeref),
    Sizeof(Box<Ast<P>>),
    Call(Seq<char>, Seq<Ast<P>>, P::XCall),
    Return(Box<Ast<P>>, P::XReturn),
}

pub open spec fn params_view(ps: Seq<(Type, String)>) -> Seq<(Type, Seq<char>)> {
    ps.map_values(|p: (Type, String)| (p.0, p.1@))
}

/// The value of a tree.
pub open spec fn ast<P: Phase>(t: Tree<P>) -> Ast<P>
    decreases t,
{
    match t {
        Tree::Program(v) => Ast::Program(asts(v@)),
        Tree::BinOp(op, l, r, a) => Ast::BinOp(op, Box::new(ast(*l)), Box::new(ast(*r)), a),
        Tree::Assign(l, r, a) => Ast::Assign(Box::new(ast(*l)), Box::new(ast(*r)), a),
        Tree::Block(v) => Ast::Block(asts(v@)),
        Tree::FuncDef(ty, name, params, body) => Ast::FuncDef(
            ty,
            name@,
            params_view(params@),
            Box::new(ast(*body)),
        ),
        Tree::If(c, a, b) => Ast::If(
            Box::new(ast(*c)),
            Box::new(ast(*a)),
            opt_ast(b),
        ),
        Tree::While(c, b) => Ast::While(Box::new(ast(*c)), Box::new(ast(*b))),
        Tree::For(i, c, u, b) => Ast::For(opt_ast(i), opt_ast(c), opt_ast(u), Box::new(ast(*b))),
        Tree::Integer(n, a) => Ast::Integer(n, a),
        Tree::String(s, a) => Ast::String(s@, a),
        Tree::Var(s, a) => Ast::Var(s@, a),
        Tree::Indexed(l, r, a) => Ast::Indexed(Box::new(ast(*l)), Box::new(ast(*r)), a),
        Tree::VarDeclare(ty, name) => Ast::VarDeclare(ty, name@),
        Tree::Addr(e, a) => Ast::Addr(Box::new(ast(*e)), a),
        Tree::Deref(e, a) => Ast::Deref(Box::new(ast(*e)), a),
        Tree::Sizeof(e) => Ast::Sizeof(Box::new(ast(*e))),
        Tree::Call(name, args, a) => Ast::Call(name@, asts(args@), a),
        Tree::Return(e, a) => Ast::Return(Box::new(ast(*e)), a),
    }
}

/// The value of an optional tree.
pub open spec fn opt_ast<P: Phase>(t: Option<Box<Tree<P>>>) -> Option<Box<Ast<P>>>
    decreases t,
{
    match t {
        Some(b) => Some(Box::new(ast(*b))),
        None => None,
    }
}

/// The values of a sequence of trees.
pub open spec fn asts<P: Phase>(s: Seq<Tree<P>>) -> Seq<Ast<P>>
    decreases s,
{
    if s.len() == 0 {
        seq![]
    } else {
        seq![ast(s[0])] + asts(s.drop_first())
    }
}

pub proof fn lemma_asts<P: Phase>(s: Seq<Tree<P>>)
    ensures
        asts(s).len() == s.len(),
        forall|k: int| 0 <= k < s.len() ==> #[trigger] asts(s)[k] == ast(s[k]),
    decreases s.len(),
{
    if s.len() > 0 {
        lemma_asts(s.drop_first());
        assert forall|k: int| 0 <= k < s.len() implies #[trigger] asts(s)[k] == ast(s[k]) by {
            if k > 0 {
                assert(s.drop_first()[k - 1] == s[k]);
            }
        }
    }
}

pub proof fn lemma_asts_push<P: Phase>(s: Seq<Tree<P>>, t: Tree<P>)
    ensures
        asts(s.push(t)) == asts(s).push(ast(t)),
{
    lemma_asts(s);
    lemma_asts(s.push(t));
    assert(asts(s.push(t)) =~= asts(s).push(ast(t)));
}


// ---------------------------------------------------------------------------------------------
// The grammar, as parsing functions on token sequences. Each takes the position to start at and
// gives the tree it read with the position after it, or `None` where it does not apply. A choice
// takes its first alternative that applies; a repetition reads items while one applies.
// ---------------------------------------------------------------------------------------------

/// The token at position `i`, if there is one.
pub open spec fn tok(ts: Seq<Lexeme>, i: int) -> Option<Lexeme> {
    if 0 <= i < ts.len() {
        Some(ts[i])
    } else {
        None
    }
}

pub open spec fn at(ts: Seq<Lexeme>, i: int, t: Lexeme) -> bool {
    tok(ts, i) == Some(t)
}

pub open spec fn ident_at(ts: Seq<Lexeme>, i: int) -> Option<Seq<char>> {
    match tok(ts, i) {
        Some(Lexeme::Ident(x)) => Some(x),
        _ => None,
    }
}

/// type := (`int` | `char`) `*`*
pub open spec fn p_stars(ts: Seq<Lexeme>, i: int, acc: Type) -> (Type, int)
    decreases ts.len() - i,
{
    if 0 <= i < ts.len() && at(ts, i, Lexeme::Asterisk) {
        p_stars(ts, i + 1, Type::Ptr(Box::new(acc)))
    } else {
        (acc, i)
    }
}

pub open spec fn p_type(ts: Seq<Lexeme>, i: int) -> Option<(Type, int)> {
    if at(ts, i, Lexeme::Int) {
        Some(p_stars(ts, i + 1, Type::Int))
    } else if at(ts, i, Lexeme::Char) {
        Some(p_stars(ts, i + 1, Type::Char))
    } else {
        None
    }
}

/// var_decl := type IDENT (`[` NUMBER `]`)? `;`
pub open spec fn p_var_decl(ts: Seq<Lexeme>, i: int) -> Option<(Ast<Parsed>, int)> {
    match p_type(ts, i) {
        Some((ty, k)) => match ident_at(ts, k) {
            Some(name) => {
                let sized = at(ts, k + 1, Lexeme::LBracket) && (tok(ts, k + 2) is Some && tok(
                    ts,
                    k + 2,
                )->Some_0 is Number) && at(ts, k + 3, Lexeme::RBracket);
                let ty2 = if sized {
                    Type::Array(Box::new(ty), tok(ts, k + 2)->Some_0->Number_0)
                } else {
                    ty
                };
                let k2 = if sized {
                    k + 4
                } else {
                    k + 1
                };
                if at(ts, k2, Lexeme::Semicolon) {
                    Some((Ast::VarDeclare(ty2, name), k2 + 1))
                } else {
                    None
                }
            },
            None => None,
        },
        None => None,
    }
}

/// The operator at position `i` of the binary level `level`: 0 is `*` `/`, 1 is `+` `-`,
/// 2 the comparisons, 3 the equalities.
pub open spec fn bin_op(ts: Seq<Lexeme>, i: int, level: nat) -> Option<Op> {
    match tok(ts, i) {
        Some(Lexeme::Asterisk) => if level == 0 { Some(Op::Mul) } else { None },
        Some(Lexeme::Slash) => if level == 0 { Some(Op::Div) } else { None },
        Some(Lexeme::Plus) => if level == 1 { Some(Op::Add) } else { None },
        Some(Lexeme::Minus) => if level == 1 { Some(Op::Sub) } else { None },
        Some(Lexeme::Gte) => if level == 2 { Some(Op::Gte) } else { None },
        Some(Lexeme::Gt) => if level == 2 { Some(Op::Gt) } else { None },
        Some(Lexeme::Lte) => if level == 2 { Some(Op::Lte) } else { None },
        Some(Lexeme::Lt) => if level == 2 { Some(Op::Lt) } else { None },
        Some(Lexeme::Eq) => if level == 3 { Some(Op::Eq) } else { None },
        Some(Lexeme::NotEq) => if level == 3 { Some(Op::NotEq) } else { None },
        _ => None,
    }
}

/// A unary operator: 0 is `+`, 1 is `-`, 2 is `&`, 3 is `*`.
pub open spec fn unary_op(ts: Seq<Lexeme>, i: int) -> Option<nat> {
    match tok(ts, i) {
        Some(Lexeme::Plus) => Some(0),
        Some(Lexeme::Minus) => Some(1),
        Some(Lexeme::And) => Some(2),
        Some(Lexeme::Asterisk) => Some(3),
        _ => None,
    }
}

pub open spec fn apply_unary(u: nat, e: Ast<Parsed>) -> Ast<Parsed> {
    if u == 0 {
        e
    } else if u == 1 {
        Ast::BinOp(Op::Sub, Box::new(Ast::Integer(0, ())), Box::new(e), ())
    } else if u == 2 {
        Ast::Addr(Box::new(e), ())
    } else {
        Ast::Deref(Box::new(e), ())
    }
}

/// expr := equality (`=` expr)?
pub open spec fn p_expr(ts: Seq<Lexeme>, i: int) -> Option<(Ast<Parsed>, int)>
    decreases ts.len() - i, 20int,
{
    if !(0 <= i <= ts.len()) {
        None
    } else {
        match p_bin(ts, i, 3) {
            Some((l, k)) => if i < k <= ts.len() {
                if at(ts, k, Lexeme::Assign) {
                    match p_expr(ts, k + 1) {
                        Some((r, k2)) => Some((Ast::Assign(Box::new(l), Box::new(r), ()), k2)),
                        None => Some((l, k)),
                    }
                } else {
                    Some((l, k))
                }
            } else {
                None
            },
            None => None,
        }
    }
}

/// A binary level: its operand, then any number of (operator, operand), folded to the left.
pub open spec fn p_bin(ts: Seq<Lexeme>, i: int, level: nat) -> Option<(Ast<Parsed>, int)>
    decreases ts.len() - i, 2 * level + 4,
{
    if !(0 <= i <= ts.len()) || level > 3 {
        None
    } else {
        let first = if level == 0 {
            p_unary(ts, i)
        } else {
            p_bin(ts, i, (level - 1) as nat)
        };
        match first {
            Some((l, k)) => if i < k <= ts.len() {
                p_bin_rest(ts, k, level, l)
            } else {
                None
            },
            None => None,
        }
    }
}

pub open spec fn p_bin_rest(ts: Seq<Lexeme>, i: int, level: nat, lhs: Ast<Parsed>) -> Option<
    (Ast<Parsed>, int),
>
    decreases ts.len() - i, 2 * level + 5,
{
    if !(0 <= i <= ts.len()) || level > 3 {
        None
    } else {
        match bin_op(ts, i, level) {
            Some(op) => {
                let rhs = if level == 0 {
                    p_unary(ts, i + 1)
                } else {
                    p_bin(ts, i + 1, (level - 1) as nat)
                };
                match rhs {
                    Some((r, k)) => if i + 1 < k <= ts.len() {
                        p_bin_rest(ts, k, level, Ast::BinOp(op, Box::new(lhs), Box::new(r), ()))
                    } else {
                        Some((lhs, i))
                    },
                    None => Some((lhs, i)),
                }
            },
            None => Some((lhs, i)),
        }
    }
}

/// unary := `sizeof` unary | (`+` | `-` | `&` | `*`) unary | primary
pub open spec fn p_unary(ts: Seq<Lexeme>, i: int) -> Option<(Ast<Parsed>, int)>
    decreases ts.len() - i, 3int,
{
    if !(0 <= i <= ts.len()) {
        None
    } else {
        let a1 = if at(ts, i, Lexeme::Sizeof) {
            match p_unary(ts, i + 1) {
                Some((e, k)) => Some((Ast::Sizeof(Box::new(e)), k)),
                None => None,
            }
        } else {
            None
        };
        let a2 = match unary_op(ts, i) {
            Some(u) => match p_unary(ts, i + 1) {
                Some((e, k)) => Some((apply_unary(u, e), k)),
                None => None,
            },
            None => None,
        };
        if a1 is Some {
            a1
        } else if a2 is Some {
            a2
        } else {
            p_primary(ts, i)
        }
    }
}

/// primary := atom (`[` expr `]`)?
pub open spec fn p_primary(ts: Seq<Lexeme>, i: int) -> Option<(Ast<Parsed>, int)>
    decreases ts.len() - i, 2int,
{
    if !(0 <= i <= ts.len()) {
        None
    } else {
        match p_atom(ts, i) {
            Some((p, k)) => if i < k <= ts.len() {
                if at(ts, k, Lexeme::LBracket) {
                    match p_expr(ts, k + 1) {
                        Some((e, k2)) => if k + 1 < k2 <= ts.len() && at(ts, k2, Lexeme::RBracket) {
                            Some((Ast::Indexed(Box::new(p), Box::new(e), ()), k2 + 1))
                        } else {
                            Some((p, k))
                        },
                        None => Some((p, k)),
                    }
                } else {
                    Some((p, k))
                }
            } else {
                None
            },
            None => None,
        }
    }
}

/// atom := IDENT `(` (expr (`,` expr)*)? `)` | NUMBER | STRING | IDENT | `(` expr `)`
pub open spec fn p_atom(ts: Seq<Lexeme>, i: int) -> Option<(Ast<Parsed>, int)>
    decreases ts.len() - i, 1int,
{
    if !(0 <= i <= ts.len()) {
        None
    } else {
        let call = match ident_at(ts, i) {
            Some(name) => if at(ts, i + 1, Lexeme::LParen) {
                let (args, k) = p_args(ts, i + 2);
                if at(ts, k, Lexeme::RParen) {
                    Some((Ast::Call(name, args, ()), k + 1))
                } else {
                    None
                }
            } else {
                None
            },
            None => None,
        };
        if call is Some {
            call
        } else {
            match tok(ts, i) {
                Some(Lexeme::Number(n)) => Some((Ast::Integer(n as i64, ()), i + 1)),
                Some(Lexeme::String(s)) => Some((Ast::String(s, ()), i + 1)),
                Some(Lexeme::Ident(x)) => Some((Ast::Var(x, ()), i + 1)),
                Some(Lexeme::LParen) => match p_expr(ts, i + 1) {
                    Some((e, k)) => if i + 1 < k <= ts.len() && at(ts, k, Lexeme::RParen) {
                        Some((e, k + 1))
                    } else {
                        None
                    },
                    None => None,
                },
                _ => None,
            }
        }
    }
}

/// The arguments of a call: zero or more expressions separated by `,`.
pub open spec fn p_args(ts: Seq<Lexeme>, i: int) -> (Seq<Ast<Parsed>>, int)
    decreases ts.len() - i, 21int,
{
    if !(0 <= i <= ts.len()) {
        (seq![], i)
    } else {
        match p_expr(ts, i) {
            Some((e, k)) => if i < k <= ts.len() {
                p_args_rest(ts, k, seq![e])
            } else {
                (seq![], i)
            },
            None => (seq![], i),
        }
    }
}

pub open spec fn p_args_rest(ts: Seq<Lexeme>, i: int, acc: Seq<Ast<Parsed>>) -> (
    Seq<Ast<Parsed>>,
    int,
)
    decreases ts.len() - i, 22int,
{
    if !(0 <= i <= ts.len()) {
        (acc, i)
    } else if at(ts, i, Lexeme::Comma) {
        match p_expr(ts, i + 1) {
            Some((e, k)) => if i + 1 < k <= ts.len() {
                p_args_rest(ts, k, acc.push(e))
            } else {
                (acc, i)
            },
            None => (acc, i),
        }
    } else {
        (acc, i)
    }
}

/// An optional expression.
pub open spec fn p_opt_expr(ts: Seq<Lexeme>, i: int) -> (Option<Ast<Parsed>>, int) {
    match p_expr(ts, i) {
        Some((e, k)) => (Some(e), k),
        None => (None, i),
    }
}

/// An optional tree, boxed.
pub open spec fn boxed(o: Option<Ast<Parsed>>) -> Option<Box<Ast<Parsed>>> {
    match o {
        Some(e) => Some(Box::new(e)),
        None => None,
    }
}

/// block := `{` (stmt | var_decl)* `}`
pub open spec fn p_block_stmt(ts: Seq<Lexeme>, i: int) -> Option<(Ast<Parsed>, int)>
    decreases ts.len() - i, 1int,
{
    if !(0 <= i <= ts.len()) {
        None
    } else if at(ts, i, Lexeme::LBrace) {
        let (items, k) = p_items(ts, i + 1, seq![]);
        if at(ts, k, Lexeme::RBrace) {
            Some((Ast::Block(items), k + 1))
        } else {
            None
        }
    } else {
        None
    }
}

/// if := `if` `(` expr `)` stmt (`else` stmt)?
pub open spec fn p_if_stmt(ts: Seq<Lexeme>, i: int) -> Option<(Ast<Parsed>, int)>
    decreases ts.len() - i, 1int,
{
    if !(0 <= i <= ts.len()) {
        None
    } else if at(ts, i, Lexeme::If) && at(ts, i + 1, Lexeme::LParen) {
        match p_expr(ts, i + 2) {
            Some((c, k)) => if i + 2 < k <= ts.len() && at(ts, k, Lexeme::RParen) {
                match p_stmt(ts, k + 1) {
                    Some((a, k2)) => if k + 1 < k2 <= ts.len() {
                        if at(ts, k2, Lexeme::Else) {
                            match p_stmt(ts, k2 + 1) {
                                Some((b, k3)) => Some(
                                    (Ast::If(Box::new(c), Box::new(a), Some(Box::new(b))), k3),
                                ),
                                None => Some((Ast::If(Box::new(c), Box::new(a), None), k2)),
                            }
                        } else {
                            Some((Ast::If(Box::new(c), Box::new(a), None), k2))
                        }
                    } else {
                        None
                    },
                    None => None,
                }
            } else {
                None
            },
            None => None,
        }
    } else {
        None
    }
}

/// while := `while` `(` expr `)` stmt
pub open spec fn p_while_stmt(ts: Seq<Lexeme>, i: int) -> Option<(Ast<Parsed>, int)>
    decreases ts.len() - i, 1int,
{
    if !(0 <= i <= ts.len()) {
        None
    } else if at(ts, i, Lexeme::While) && at(ts, i + 1, Lexeme::LParen) {
        match p_expr(ts, i + 2) {
            Some((c, k)) => if i + 2 < k <= ts.len() && at(ts, k, Lexeme::RParen) {
                match p_stmt(ts, k + 1) {
                    Some((b, k2)) => Some((Ast::While(Box::new(c), Box::new(b)), k2)),
                    None => None,
                }
            } else {
                None
            },
            None => None,
        }
    } else {
        None
    }
}

/// for := `for` `(` expr? `;` expr? `;` expr? `)` stmt
pub open spec fn p_for_stmt(ts: Seq<Lexeme>, i: int) -> Option<(Ast<Parsed>, int)>
    decreases ts.len() - i, 1int,
{
    if !(0 <= i <= ts.len()) {
        None
    } else if at(ts, i, Lexeme::For) && at(ts, i + 1, Lexeme::LParen) {
        let (init, k1) = p_opt_expr(ts, i + 2);
        if at(ts, k1, Lexeme::Semicolon) {
            let (cond, k2) = p_opt_expr(ts, k1 + 1);
            if at(ts, k2, Lexeme::Semicolon) {
                let (upd, k3) = p_opt_expr(ts, k2 + 1);
                if i < k3 && at(ts, k3, Lexeme::RParen) {
                    match p_stmt(ts, k3 + 1) {
                        Some((b, k4)) => Some(
                            (Ast::For(boxed(init), boxed(cond), boxed(upd), Box::new(b)), k4),
                        ),
                        None => None,
                    }
                } else {
                    None
                }
            } else {
                None
            }
        } else {
            None
        }
    } else {
        None
    }
}

/// return := `return` expr `;`
pub open spec fn p_return_stmt(ts: Seq<Lexeme>, i: int) -> Option<(Ast<Parsed>, int)> {
    if at(ts, i, Lexeme::Return) {
        match p_expr(ts, i + 1) {
            Some((e, k)) => if at(ts, k, Lexeme::Semicolon) {
                Some((Ast::Return(Box::new(e), ()), k + 1))
            } else {
                None
            },
            None => None,
        }
    } else {
        None
    }
}

/// An expression followed by `;`.
pub open spec fn p_expr_stmt(ts: Seq<Lexeme>, i: int) -> Option<(Ast<Parsed>, int)> {
    match p_expr(ts, i) {
        Some((e, k)) => if at(ts, k, Lexeme::Semicolon) {
            Some((e, k + 1))
        } else {
            None
        },
        None => None,
    }
}

/// stmt := block | if | while | for | return | expr `;`
pub open spec fn p_stmt(ts: Seq<Lexeme>, i: int) -> Option<(Ast<Parsed>, int)>
    decreases ts.len() - i, 2int,
{
    if !(0 <= i <= ts.len()) {
        None
    } else if p_block_stmt(ts, i) is Some {
        p_block_stmt(ts, i)
    } else if p_if_stmt(ts, i) is Some {
        p_if_stmt(ts, i)
    } else if p_while_stmt(ts, i) is Some {
        p_while_stmt(ts, i)
    } else if p_for_stmt(ts, i) is Some {
        p_for_stmt(ts, i)
    } else if p_return_stmt(ts, i) is Some {
        p_return_stmt(ts, i)
    } else {
        p_expr_stmt(ts, i)
    }
}

/// (stmt | var_decl)*, appended to `acc`.
pub open spec fn p_items(ts: Seq<Lexeme>, i: int, acc: Seq<Ast<Parsed>>) -> (
    Seq<Ast<Parsed>>,
    int,
)
    decreases ts.len() - i, 3int,
{
    if !(0 <= i <= ts.len()) {
        (acc, i)
    } else {
        let item = match p_stmt(ts, i) {
            Some(x) => Some(x),
            None => p_var_decl(ts, i),
        };
        match item {
            Some((t, k)) => if i < k <= ts.len() {
                p_items(ts, k, acc.push(t))
            } else {
                (acc, i)
            },
            None => (acc, i),
        }
    }
}

/// param := type IDENT
pub open spec fn p_param(ts: Seq<Lexeme>, i: int) -> Option<((Type, Seq<char>), int)> {
    match p_type(ts, i) {
        Some((ty, k)) => match ident_at(ts, k) {
            Some(name) => Some(((ty, name), k + 1)),
            None => None,
        },
        None => None,
    }
}

/// Zero or more parameters separated by `,`, appended to `acc`.
pub open spec fn p_params_rest(ts: Seq<Lexeme>, i: int, acc: Seq<(Type, Seq<char>)>) -> (
    Seq<(Type, Seq<char>)>,
    int,
)
    decreases ts.len() - i,
{
    if !(0 <= i <= ts.len()) {
        (acc, i)
    } else if at(ts, i, Lexeme::Comma) {
        match p_param(ts, i + 1) {
            Some((p, k)) => if i + 1 < k <= ts.len() {
                p_params_rest(ts, k, acc.push(p))
            } else {
                (acc, i)
            },
            None => (acc, i),
        }
    } else {
        (acc, i)
    }
}

pub open spec fn p_params(ts: Seq<Lexeme>, i: int) -> (Seq<(Type, Seq<char>)>, int) {
    match p_param(ts, i) {
        Some((p, k)) => p_params_rest(ts, k, seq![p]),
        None => (seq![], i),
    }
}

/// func_def := type IDENT `(` params `)` `{` (stmt | var_decl)* `}`
pub open spec fn p_func_def(ts: Seq<Lexeme>, i: int) -> Option<(Ast<Parsed>, int)> {
    match p_type(ts, i) {
        Some((ty, k)) => match ident_at(ts, k) {
            Some(name) => if at(ts, k + 1, Lexeme::LParen) {
                let (params, k2) = p_params(ts, k + 2);
                if at(ts, k2, Lexeme::RParen) && at(ts, k2 + 1, Lexeme::LBrace) {
                    let (body, k3) = p_items(ts, k2 + 2, seq![]);
                    if at(ts, k3, Lexeme::RBrace) {
                        Some((Ast::FuncDef(ty, name, params, Box::new(Ast::Block(body))), k3 + 1))
                    } else {
                        None
                    }
                } else {
                    None
                }
            } else {
                None
            },
            None => None,
        },
        None => None,
    }
}

/// A top-level item: func_def | var_decl | stmt.
pub open spec fn p_top(ts: Seq<Lexeme>, i: int) -> Option<(Ast<Parsed>, int)> {
    match p_func_def(ts, i) {
        Some(x) => Some(x),
        None => match p_var_decl(ts, i) {
            Some(x) => Some(x),
            None => p_stmt(ts, i),
        },
    }
}

pub open spec fn p_tops(ts: Seq<Lexeme>, i: int, acc: Seq<Ast<Parsed>>) -> (
    Seq<Ast<Parsed>>,
    int,
)
    decreases ts.len() - i,
{
    if !(0 <= i <= ts.len()) {
        (acc, i)
    } else {
        match p_top(ts, i) {
            Some((t, k)) => if i < k <= ts.len() {
                p_tops(ts, k, acc.push(t))
            } else {
                (acc, i)
            },
            None => (acc, i),
        }
    }
}

/// program := (func_def | var_decl | stmt)* END
pub open spec fn parse_tokens_spec(ts: Seq<Lexeme>) -> Option<Ast<Parsed>> {
    let (items, k) = p_tops(ts, 0, seq![]);
    if k == ts.len() {
        Some(Ast::Program(items))
    } else {
        None
    }
}


// ---------------------------------------------------------------------------------------------
// What the parser notes where tokens do not match: the furthest position where one did not, and
// every pattern expected there. Each function below follows the parsing function of the same
// name and merges, in order, what its failed matches note.
// ---------------------------------------------------------------------------------------------



pub open spec fn tok_miss(ts: Seq<Lexeme>, i: int, t: Token<'static>) -> Misses {
    miss_unless(at(ts, i, t@), i, RichPattern::Token(t))
}

pub open spec fn misses_stars(ts: Seq<Lexeme>, i: int) -> Misses
    decreases ts.len() - i,
{
    if 0 <= i < ts.len() {
        if at(ts, i, Lexeme::Asterisk) {
            misses_stars(ts, i + 1)
        } else {
            miss(i, RichPattern::Token(Token::Asterisk))
        }
    } else {
        no_miss()
    }
}

pub open spec fn misses_type(ts: Seq<Lexeme>, i: int) -> Misses {
    if at(ts, i, Lexeme::Int) {
        misses_stars(ts, i + 1)
    } else if at(ts, i, Lexeme::Char) {
        merge(miss(i, RichPattern::Token(Token::Int)), misses_stars(ts, i + 1))
    } else {
        merge(miss(i, RichPattern::Token(Token::Int)), miss(i, RichPattern::Token(Token::Char)))
    }
}

/// What `[ NUMBER ]` after the name at `k` notes.
pub open spec fn misses_size(ts: Seq<Lexeme>, k: int) -> Misses {
    if at(ts, k + 1, Lexeme::LBracket) && k + 2 < ts.len() {
        match tok(ts, k + 2) {
            Some(Lexeme::Number(_)) => tok_miss(ts, k + 3, Token::RBracket),
            _ => miss(k + 2, RichPattern::Number),
        }
    } else {
        no_miss()
    }
}

pub open spec fn misses_var_decl(ts: Seq<Lexeme>, i: int) -> Misses {
    match p_type(ts, i) {
        Some((_, k)) => merge(
            misses_type(ts, i),
            match ident_at(ts, k) {
                Some(_) => {
                    let sized = at(ts, k + 1, Lexeme::LBracket) && (tok(ts, k + 2) is Some && tok(
                        ts,
                        k + 2,
                    )->Some_0 is Number) && at(ts, k + 3, Lexeme::RBracket);
                    let k2 = if sized {
                        k + 4
                    } else {
                        k + 1
                    };
                    merge(
                        merge(tok_miss(ts, k + 1, Token::LBracket), misses_size(ts, k)),
                        tok_miss(ts, k2, Token::Semicolon),
                    )
                },
                None => miss(k, RichPattern::Identifier),
            },
        ),
        None => misses_type(ts, i),
    }
}

/// Tries `a` then `b` at `i`.
pub open spec fn misses_either(ts: Seq<Lexeme>, i: int, a: Token<'static>, b: Token<'static>) -> Misses {
    if at(ts, i, a@) {
        no_miss()
    } else {
        merge(miss(i, RichPattern::Token(a)), tok_miss(ts, i, b))
    }
}

pub open spec fn misses_binop(ts: Seq<Lexeme>, i: int, level: nat) -> Misses {
    if level == 0 {
        misses_either(ts, i, Token::Asterisk, Token::Slash)
    } else if level == 1 {
        misses_either(ts, i, Token::Plus, Token::Minus)
    } else if level == 2 {
        if at(ts, i, Lexeme::Gte) {
            no_miss()
        } else {
            merge(
                miss(i, RichPattern::Token(Token::Gte)),
                if at(ts, i, Lexeme::Gt) {
                    no_miss()
                } else {
                    merge(miss(i, RichPattern::Token(Token::Gt)), misses_either(ts, i, Token::Lte, Token::Lt))
                },
            )
        }
    } else {
        misses_either(ts, i, Token::Eq, Token::NotEq)
    }
}

pub open spec fn misses_unary_op(ts: Seq<Lexeme>, i: int) -> Misses {
    if at(ts, i, Lexeme::Plus) {
        no_miss()
    } else {
        merge(
            miss(i, RichPattern::Token(Token::Plus)),
            if at(ts, i, Lexeme::Minus) {
                no_miss()
            } else {
                merge(miss(i, RichPattern::Token(Token::Minus)), misses_either(ts, i, Token::And, Token::Asterisk))
            },
        )
    }
}

pub open spec fn misses_expr(ts: Seq<Lexeme>, i: int) -> Misses
    decreases ts.len() - i, 20int,
{
    if !(0 <= i <= ts.len()) {
        no_miss()
    } else {
        match p_bin(ts, i, 3) {
            Some((_, k)) => if i < k <= ts.len() {
                merge(
                    misses_bin(ts, i, 3),
                    merge(
                        tok_miss(ts, k, Token::Assign),
                        if at(ts, k, Lexeme::Assign) {
                            misses_expr(ts, k + 1)
                        } else {
                            no_miss()
                        },
                    ),
                )
            } else {
                misses_bin(ts, i, 3)
            },
            None => misses_bin(ts, i, 3),
        }
    }
}

pub open spec fn misses_bin(ts: Seq<Lexeme>, i: int, level: nat) -> Misses
    decreases ts.len() - i, 2 * level + 4,
{
    if !(0 <= i <= ts.len()) || level > 3 {
        no_miss()
    } else {
        let mf = if level == 0 {
            misses_unary(ts, i)
        } else {
            misses_bin(ts, i, (level - 1) as nat)
        };
        let first = if level == 0 {
            p_unary(ts, i)
        } else {
            p_bin(ts, i, (level - 1) as nat)
        };
        match first {
            Some((_, k)) => if i < k <= ts.len() {
                merge(mf, misses_bin_rest(ts, k, level))
            } else {
                mf
            },
            None => mf,
        }
    }
}

pub open spec fn misses_bin_rest(ts: Seq<Lexeme>, i: int, level: nat) -> Misses
    decreases ts.len() - i, 2 * level + 5,
{
    if !(0 <= i <= ts.len()) || level > 3 {
        no_miss()
    } else {
        merge(
            misses_binop(ts, i, level),
            match bin_op(ts, i, level) {
                Some(_) => {
                    let mr = if level == 0 {
                        misses_unary(ts, i + 1)
                    } else {
                        misses_bin(ts, i + 1, (level - 1) as nat)
                    };
                    let rhs = if level == 0 {
                        p_unary(ts, i + 1)
                    } else {
                        p_bin(ts, i + 1, (level - 1) as nat)
                    };
                    match rhs {
                        Some((_, k)) => if i + 1 < k <= ts.len() {
                            merge(mr, misses_bin_rest(ts, k, level))
                        } else {
                            mr
                        },
                        None => mr,
                    }
                },
                None => no_miss(),
            },
        )
    }
}

pub open spec fn misses_unary(ts: Seq<Lexeme>, i: int) -> Misses
    decreases ts.len() - i, 3int,
{
    if !(0 <= i <= ts.len()) {
        no_miss()
    } else {
        let m1 = merge(
            tok_miss(ts, i, Token::Sizeof),
            if at(ts, i, Lexeme::Sizeof) {
                misses_unary(ts, i + 1)
            } else {
                no_miss()
            },
        );
        if at(ts, i, Lexeme::Sizeof) && p_unary(ts, i + 1) is Some {
            m1
        } else {
            let m2 = merge(
                m1,
                merge(
                    misses_unary_op(ts, i),
                    if unary_op(ts, i) is Some {
                        misses_unary(ts, i + 1)
                    } else {
                        no_miss()
                    },
                ),
            );
            if unary_op(ts, i) is Some && p_unary(ts, i + 1) is Some {
                m2
            } else {
                merge(m2, misses_primary(ts, i))
            }
        }
    }
}

pub open spec fn misses_primary(ts: Seq<Lexeme>, i: int) -> Misses
    decreases ts.len() - i, 2int,
{
    if !(0 <= i <= ts.len()) {
        no_miss()
    } else {
        match p_atom(ts, i) {
            Some((_, k)) => if i < k <= ts.len() {
                merge(
                    misses_atom(ts, i),
                    merge(
                        tok_miss(ts, k, Token::LBracket),
                        if at(ts, k, Lexeme::LBracket) {
                            merge(
                                misses_expr(ts, k + 1),
                                match p_expr(ts, k + 1) {
                                    Some((_, k2)) => tok_miss(ts, k2, Token::RBracket),
                                    None => no_miss(),
                                },
                            )
                        } else {
                            no_miss()
                        },
                    ),
                )
            } else {
                misses_atom(ts, i)
            },
            None => misses_atom(ts, i),
        }
    }
}

pub open spec fn misses_atom(ts: Seq<Lexeme>, i: int) -> Misses
    decreases ts.len() - i, 1int,
{
    if !(0 <= i <= ts.len()) {
        no_miss()
    } else {
        let call = merge(
            miss_unless(ident_at(ts, i) is Some, i, RichPattern::Identifier),
            if ident_at(ts, i) is Some {
                merge(
                    tok_miss(ts, i + 1, Token::LParen),
                    if at(ts, i + 1, Lexeme::LParen) {
                        merge(misses_args(ts, i + 2), tok_miss(ts, p_args(ts, i + 2).1, Token::RParen))
                    } else {
                        no_miss()
                    },
                )
            } else {
                no_miss()
            },
        );
        if ident_at(ts, i) is Some && at(ts, i + 1, Lexeme::LParen) && at(ts, p_args(ts, i + 2).1, Lexeme::RParen) {
            call
        } else {
            merge(
                call,
                match tok(ts, i) {
                    Some(Lexeme::Number(_)) => no_miss(),
                    Some(Lexeme::String(_)) => no_miss(),
                    Some(Lexeme::Ident(_)) => no_miss(),
                    Some(Lexeme::LParen) => merge(
                        misses_expr(ts, i + 1),
                        match p_expr(ts, i + 1) {
                            Some((_, k)) => tok_miss(ts, k, Token::RParen),
                            None => no_miss(),
                        },
                    ),
                    _ => merge(
                        miss(i, RichPattern::Number),
                        merge(miss(i, RichPattern::StringLiteral), miss(i, RichPattern::Token(Token::LParen))),
                    ),
                },
            )
        }
    }
}

pub open spec fn misses_args(ts: Seq<Lexeme>, i: int) -> Misses
    decreases ts.len() - i, 21int,
{
    if !(0 <= i <= ts.len()) {
        no_miss()
    } else {
        merge(
            misses_expr(ts, i),
            match p_expr(ts, i) {
                Some((_, k)) => if i < k <= ts.len() {
                    misses_args_rest(ts, k)
                } else {
                    no_miss()
                },
                None => no_miss(),
            },
        )
    }
}

pub open spec fn misses_args_rest(ts: Seq<Lexeme>, i: int) -> Misses
    decreases ts.len() - i, 22int,
{
    if !(0 <= i <= ts.len()) {
        no_miss()
    } else {
        merge(
            tok_miss(ts, i, Token::Comma),
            if at(ts, i, Lexeme::Comma) {
                merge(
                    misses_expr(ts, i + 1),
                    match p_expr(ts, i + 1) {
                        Some((_, k)) => if i + 1 < k <= ts.len() {
                            misses_args_rest(ts, k)
                        } else {
                            no_miss()
                        },
                        None => no_miss(),
                    },
                )
            } else {
                no_miss()
            },
        )
    }
}

pub open spec fn misses_block(ts: Seq<Lexeme>, i: int) -> Misses
    decreases ts.len() - i, 1int,
{
    if !(0 <= i <= ts.len()) {
        no_miss()
    } else {
        merge(
            tok_miss(ts, i, Token::LBrace),
            if at(ts, i, Lexeme::LBrace) {
                merge(misses_items(ts, i + 1), tok_miss(ts, p_items(ts, i + 1, seq![]).1, Token::RBrace))
            } else {
                no_miss()
            },
        )
    }
}

/// What `keyword (` at `i` notes.
pub open spec fn misses_opening(ts: Seq<Lexeme>, i: int, kw: Token<'static>) -> Misses {
    merge(
        tok_miss(ts, i, kw),
        if at(ts, i, kw@) {
            tok_miss(ts, i + 1, Token::LParen)
        } else {
            no_miss()
        },
    )
}

pub open spec fn misses_if(ts: Seq<Lexeme>, i: int) -> Misses
    decreases ts.len() - i, 1int,
{
    if !(0 <= i <= ts.len()) {
        no_miss()
    } else {
        merge(
            misses_opening(ts, i, Token::If),
            if at(ts, i, Lexeme::If) && at(ts, i + 1, Lexeme::LParen) {
                merge(
                    misses_expr(ts, i + 2),
                    match p_expr(ts, i + 2) {
                        Some((_, k)) => if i + 2 < k <= ts.len() {
                            merge(
                                tok_miss(ts, k, Token::RParen),
                                if at(ts, k, Lexeme::RParen) {
                                    merge(
                                        misses_stmt(ts, k + 1),
                                        match p_stmt(ts, k + 1) {
                                            Some((_, k2)) => if k + 1 < k2 <= ts.len() {
                                                merge(
                                                    tok_miss(ts, k2, Token::Else),
                                                    if at(ts, k2, Lexeme::Else) {
                                                        misses_stmt(ts, k2 + 1)
                                                    } else {
                                                        no_miss()
                                                    },
                                                )
                                            } else {
                                                no_miss()
                                            },
                                            None => no_miss(),
                                        },
                                    )
                                } else {
                                    no_miss()
                                },
                            )
                        } else {
                            no_miss()
                        },
                        None => no_miss(),
                    },
                )
            } else {
                no_miss()
            },
        )
    }
}

pub open spec fn misses_while(ts: Seq<Lexeme>, i: int) -> Misses
    decreases ts.len() - i, 1int,
{
    if !(0 <= i <= ts.len()) {
        no_miss()
    } else {
        merge(
            misses_opening(ts, i, Token::While),
            if at(ts, i, Lexeme::While) && at(ts, i + 1, Lexeme::LParen) {
                merge(
                    misses_expr(ts, i + 2),
                    match p_expr(ts, i + 2) {
                        Some((_, k)) => if i + 2 < k <= ts.len() {
                            merge(
                                tok_miss(ts, k, Token::RParen),
                                if at(ts, k, Lexeme::RParen) {
                                    misses_stmt(ts, k + 1)
                                } else {
                                    no_miss()
                                },
                            )
                        } else {
                            no_miss()
                        },
                        None => no_miss(),
                    },
                )
            } else {
                no_miss()
            },
        )
    }
}

pub open spec fn misses_for(ts: Seq<Lexeme>, i: int) -> Misses
    decreases ts.len() - i, 1int,
{
    if !(0 <= i <= ts.len()) {
        no_miss()
    } else {
        merge(
            misses_opening(ts, i, Token::For),
            if at(ts, i, Lexeme::For) && at(ts, i + 1, Lexeme::LParen) {
                let k1 = p_opt_expr(ts, i + 2).1;
                merge(
                    misses_expr(ts, i + 2),
                    merge(
                        tok_miss(ts, k1, Token::Semicolon),
                        if at(ts, k1, Lexeme::Semicolon) {
                            let k2 = p_opt_expr(ts, k1 + 1).1;
                            merge(
                                misses_expr(ts, k1 + 1),
                                merge(
                                    tok_miss(ts, k2, Token::Semicolon),
                                    if at(ts, k2, Lexeme::Semicolon) {
                                        let k3 = p_opt_expr(ts, k2 + 1).1;
                                        merge(
                                            misses_expr(ts, k2 + 1),
                                            merge(
                                                tok_miss(ts, k3, Token::RParen),
                                                if i < k3 && at(ts, k3, Lexeme::RParen) {
                                                    misses_stmt(ts, k3 + 1)
                                                } else {
                                                    no_miss()
                                                },
                                            ),
                                        )
                                    } else {
                                        no_miss()
                                    },
                                ),
                            )
                        } else {
                            no_miss()
                        },
                    ),
                )
            } else {
                no_miss()
            },
        )
    }
}

pub open spec fn misses_return(ts: Seq<Lexeme>, i: int) -> Misses {
    merge(
        tok_miss(ts, i, Token::Return),
        if at(ts, i, Lexeme::Return) {
            merge(
                misses_expr(ts, i + 1),
                match p_expr(ts, i + 1) {
                    Some((_, k)) => tok_miss(ts, k, Token::Semicolon),
                    None => no_miss(),
                },
            )
        } else {
            no_miss()
        },
    )
}

pub open spec fn misses_expr_stmt(ts: Seq<Lexeme>, i: int) -> Misses {
    merge(
        misses_expr(ts, i),
        match p_expr(ts, i) {
            Some((_, k)) => tok_miss(ts, k, Token::Semicolon),
            None => no_miss(),
        },
    )
}

pub open spec fn misses_stmt(ts: Seq<Lexeme>, i: int) -> Misses
    decreases ts.len() - i, 2int,
{
    if !(0 <= i <= ts.len()) {
        no_miss()
    } else {
        merge(
            misses_block(ts, i),
            if p_block_stmt(ts, i) is Some {
                no_miss()
            } else {
                merge(
                    misses_if(ts, i),
                    if p_if_stmt(ts, i) is Some {
                        no_miss()
                    } else {
                        merge(
                            misses_while(ts, i),
                            if p_while_stmt(ts, i) is Some {
                                no_miss()
                            } else {
                                merge(
                                    misses_for(ts, i),
                                    if p_for_stmt(ts, i) is Some {
                                        no_miss()
                                    } else {
                                        merge(
                                            misses_return(ts, i),
                                            if p_return_stmt(ts, i) is Some {
                                                no_miss()
                                            } else {
                                                misses_expr_stmt(ts, i)
                                            },
                                        )
                                    },
                                )
                            },
                        )
                    },
                )
            },
        )
    }
}

pub open spec fn misses_items(ts: Seq<Lexeme>, i: int) -> Misses
    decreases ts.len() - i, 3int,
{
    if !(0 <= i <= ts.len()) {
        no_miss()
    } else {
        let m = merge(
            misses_stmt(ts, i),
            if p_stmt(ts, i) is Some {
                no_miss()
            } else {
                misses_var_decl(ts, i)
            },
        );
        let item = match p_stmt(ts, i) {
            Some(x) => Some(x),
            None => p_var_decl(ts, i),
        };
        match item {
            Some((_, k)) => if i < k <= ts.len() {
                merge(m, misses_items(ts, k))
            } else {
                m
            },
            None => m,
        }
    }
}

pub open spec fn misses_param(ts: Seq<Lexeme>, i: int) -> Misses {
    merge(
        misses_type(ts, i),
        match p_type(ts, i) {
            Some((_, k)) => miss_unless(ident_at(ts, k) is Some, k, RichPattern::Identifier),
            None => no_miss(),
        },
    )
}

pub open spec fn misses_params_rest(ts: Seq<Lexeme>, i: int) -> Misses
    decreases ts.len() - i,
{
    if !(0 <= i <= ts.len()) {
        no_miss()
    } else {
        merge(
            tok_miss(ts, i, Token::Comma),
            if at(ts, i, Lexeme::Comma) {
                merge(
                    misses_param(ts, i + 1),
                    match p_param(ts, i + 1) {
                        Some((_, k)) => if i + 1 < k <= ts.len() {
                            misses_params_rest(ts, k)
                        } else {
                            no_miss()
                        },
                        None => no_miss(),
                    },
                )
            } else {
                no_miss()
            },
        )
    }
}

pub open spec fn misses_params(ts: Seq<Lexeme>, i: int) -> Misses {
    merge(
        misses_param(ts, i),
        match p_param(ts, i) {
            Some((_, k)) => misses_params_rest(ts, k),
            None => no_miss(),
        },
    )
}

pub open spec fn misses_func_def(ts: Seq<Lexeme>, i: int) -> Misses {
    merge(
        misses_type(ts, i),
        match p_type(ts, i) {
            Some((_, k)) => merge(
                miss_unless(ident_at(ts, k) is Some, k, RichPattern::Identifier),
                if ident_at(ts, k) is Some {
                    merge(
                        tok_miss(ts, k + 1, Token::LParen),
                        if at(ts, k + 1, Lexeme::LParen) {
                            let k2 = p_params(ts, k + 2).1;
                            merge(
                                misses_params(ts, k + 2),
                                merge(
                                    tok_miss(ts, k2, Token::RParen),
                                    if at(ts, k2, Lexeme::RParen) {
                                        merge(
                                            tok_miss(ts, k2 + 1, Token::LBrace),
                                            if at(ts, k2 + 1, Lexeme::LBrace) {
                                                let k3 = p_items(ts, k2 + 2, seq![]).1;
                                                merge(misses_items(ts, k2 + 2), tok_miss(ts, k3, Token::RBrace))
                                            } else {
                                                no_miss()
                                            },
                                        )
                                    } else {
                                        no_miss()
                                    },
                                ),
                            )
                        } else {
                            no_miss()
                        },
                    )
                } else {
                    no_miss()
                },
            ),
            None => no_miss(),
        },
    )
}

pub open spec fn misses_top(ts: Seq<Lexeme>, i: int) -> Misses {
    merge(
        misses_func_def(ts, i),
        if p_func_def(ts, i) is Some {
            no_miss()
        } else {
            merge(
                misses_var_decl(ts, i),
                if p_var_decl(ts, i) is Some {
                    no_miss()
                } else {
                    misses_stmt(ts, i)
                },
            )
        },
    )
}

pub open spec fn misses_tops(ts: Seq<Lexeme>, i: int) -> Misses
    decreases ts.len() - i,
{
    if !(0 <= i <= ts.len()) {
        no_miss()
    } else {
        merge(
            misses_top(ts, i),
            match p_top(ts, i) {
                Some((_, k)) => if i < k <= ts.len() {
                    misses_tops(ts, k)
                } else {
                    no_miss()
                },
                None => no_miss(),
            },
        )
    }
}

/// Where and how a program that does not parse fails: the furthest position where a token did
/// not match, counting the end of input expected after the last top-level item, with what was
/// expected there.
pub open spec fn parse_failure(ts: Seq<Lexeme>) -> Misses {
    merge(misses_tops(ts, 0), miss(items_end(ts), RichPattern::EndOfInput))
}

// ---------------------------------------------------------------------------------------------
// The parser.
// ---------------------------------------------------------------------------------------------

/// The furthest position where the parser failed, and what it expected there.
struct Failure {
    pos: usize,
    expected: Vec<RichPattern>,
}

impl View for Failure {
    type V = Misses;

    closed spec fn view(&self) -> Misses {
        (self.pos as nat, self.expected@.to_set())
    }
}

impl Failure {
    /// Something is noted as expected wherever the parser failed past the first token.
    #[verifier::type_invariant]
    spec fn noted(self) -> bool {
        self.pos > 0 ==> self.expected@.len() > 0
    }

    fn new() -> (r: Failure)
        ensures
            r.pos == 0,
            r.expected@.len() == 0,
            r@ == no_miss(),
    {
        let r = Failure { pos: 0, expected: Vec::new() };
        assert(r.expected@.to_set() =~= Set::<RichPattern>::empty());
        r
    }

    /// Notes that `e` was expected at `pos`: a later position replaces what was noted.
    fn expect(&mut self, pos: usize, e: RichPattern)
        ensures
            final(self).pos == if pos > old(self).pos { pos } else { old(self).pos },
            pos > old(self).pos ==> final(self).expected@ == seq![e],
            pos == old(self).pos ==> final(self).expected@ == old(self).expected@.push(e),
            pos < old(self).pos ==> final(self).expected@ == old(self).expected@,
            final(self)@ == merge(old(self)@, miss(pos as int, e)),
    {
        proof {
            use_type_invariant(&*self);
        }
        if pos > self.pos {
            let mut expected = Vec::new();
            expected.push(e);
            *self = Failure { pos, expected };
            proof {
                let empty = Seq::<RichPattern>::empty();
                assert(self.expected@ =~= empty.push(e));
                empty.lemma_push_to_set_commute(e);
                assert(empty.to_set() =~= Set::<RichPattern>::empty());
                assert(self.expected@.to_set() =~= set![e]);
            }
        } else if pos == self.pos {
            let mut noted = Failure::new();
            std::mem::swap(self, &mut noted);
            let Failure { pos: at, mut expected } = noted;
            let ghost before = expected@;
            expected.push(e);
            *self = Failure { pos: at, expected };
            proof {
                assert(self.expected@ =~= before.push(e));
                before.lemma_push_to_set_commute(e);
                assert(self.expected@.to_set() =~= before.to_set().union(set![e]));
            }
        }
    }
}

/// A number for each kind of token.
pub open spec fn kind_of(t: Lexeme) -> u8 {
    match t {
        Lexeme::Int => 0,
        Lexeme::Char => 1,
        Lexeme::If => 2,
        Lexeme::Else => 3,
        Lexeme::While => 4,
        Lexeme::For => 5,
        Lexeme::Sizeof => 6,
        Lexeme::Return => 7,
        Lexeme::Semicolon => 8,
        Lexeme::Comma => 9,
        Lexeme::Number(..) => 10,
        Lexeme::Ident(..) => 11,
        Lexeme::String(..) => 12,
        Lexeme::Plus => 13,
        Lexeme::Minus => 14,
        Lexeme::Asterisk => 15,
        Lexeme::Slash => 16,
        Lexeme::And => 17,
        Lexeme::Eq => 18,
        Lexeme::NotEq => 19,
        Lexeme::Gte => 20,
        Lexeme::Gt => 21,
        Lexeme::Lte => 22,
        Lexeme::Lt => 23,
        Lexeme::Assign => 24,
        Lexeme::LParen => 25,
        Lexeme::RParen => 26,
        Lexeme::LBrace => 27,
        Lexeme::RBrace => 28,
        Lexeme::LBracket => 29,
        Lexeme::RBracket => 30,
    }
}

/// Tokens that carry nothing besides their kind.
pub open spec fn simple(t: Lexeme) -> bool {
    !(t is Number || t is Ident || t is String)
}

fn kind(t: &Token) -> (r: u8)
    ensures
        r == kind_of(t@),
{
    match t {
        Token::Int => 0,
        Token::Char => 1,
        Token::If => 2,
        Token::Else => 3,
        Token::While => 4,
        Token::For => 5,
        Token::Sizeof => 6,
        Token::Return => 7,
        Token::Semicolon => 8,
        Token::Comma => 9,
        Token::Number(..) => 10,
        Token::Ident(..) => 11,
        Token::String(..) => 12,
        Token::Plus => 13,
        Token::Minus => 14,
        Token::Asterisk => 15,
        Token::Slash => 16,
        Token::And => 17,
        Token::Eq => 18,
        Token::NotEq => 19,
        Token::Gte => 20,
        Token::Gt => 21,
        Token::Lte => 22,
        Token::Lt => 23,
        Token::Assign => 24,
        Token::LParen => 25,
        Token::RParen => 26,
        Token::LBrace => 27,
        Token::RBrace => 28,
        Token::LBracket => 29,
        Token::RBracket => 30,
    }
}

/// Whether the token at `i` is `t`; notes `t` as expected when it is not.
#[verifier::spinoff_prover]
fn is_at(ts: &Vec<(Token, Span)>, i: usize, t: Token<'static>, err: &mut Failure) -> (b: bool)
    requires
        simple(t@),
    ensures
        b == at(lexemes(ts@), i as int, t@),
        b ==> i < ts.len(),
        final(err)@ == merge(old(err)@, tok_miss(lexemes(ts@), i as int, t)),
{
    if i < ts.len() && kind(&ts[i].0) == kind(&t) {
        true
    } else {
        err.expect(i, RichPattern::Token(t));
        false
    }
}

/// The name of the identifier at `i`, if there is one; notes an identifier as expected otherwise.
#[verifier::spinoff_prover]
fn ident_name(ts: &Vec<(Token, Span)>, i: usize, err: &mut Failure) -> (r: Option<String>)
    ensures
        match ident_at(lexemes(ts@), i as int) {
            Some(x) => r matches Some(name) && name@ == x,
            None => r is None,
        },
        r is Some ==> i < ts.len(),
        final(err)@ == merge(old(err)@, miss_unless(r is Some, i as int, RichPattern::Identifier)),
{
    if i < ts.len() {
        match ts[i].0 {
            Token::Ident(x) => {
                return Some(String::from_str(x));
            },
            _ => {},
        }
    }
    err.expect(i, RichPattern::Identifier);
    None
}

/// The result `r` of an exec parser is the result `s` of the grammar.
pub open spec fn agrees(r: Option<(Tree<Parsed>, usize)>, s: Option<(Ast<Parsed>, int)>) -> bool {
    match s {
        Some((a, k)) => match r {
            Some((t, k2)) => ast(t) == a && k2 == k,
            None => false,
        },
        None => r is None,
    }
}

/// A successful result ends after `i` and within `n`.
pub open spec fn advances<X>(r: Option<(X, usize)>, i: int, n: int) -> bool {
    match r {
        Some((_, k)) => i < k <= n,
        None => true,
    }
}

#[verifier::rlimit(50)]
#[verifier::spinoff_prover]
fn parse_stars(ts: &Vec<(Token, Span)>, i: usize, acc: Type, err: &mut Failure) -> (r: (Type, usize))
    requires
        i <= ts@.len(),
    ensures
        (r.0, r.1 as int) == p_stars(lexemes(ts@), i as int, acc),
        i <= r.1 <= ts@.len(),
        final(err)@ == merge(old(err)@, misses_stars(lexemes(ts@), i as int)),
    decreases ts@.len() - i,
{
    if i < ts.len() && is_at(ts, i, Token::Asterisk, err) {
        parse_stars(ts, i + 1, Type::Ptr(Box::new(acc)), err)
    } else {
        (acc, i)
    }
}

#[verifier::rlimit(50)]
#[verifier::spinoff_prover]
fn parse_type(ts: &Vec<(Token, Span)>, i: usize, err: &mut Failure) -> (r: Option<(Type, usize)>)
    requires
        i <= ts@.len(),
    ensures
        match r {
            Some((ty, k)) => p_type(lexemes(ts@), i as int) == Some((ty, k as int)) && i < k <= ts@.len(),
            None => p_type(lexemes(ts@), i as int) is None,
        },
        final(err)@ == merge(old(err)@, misses_type(lexemes(ts@), i as int)),
{
    if is_at(ts, i, Token::Int, err) {
        Some(parse_stars(ts, i + 1, Type::Int, err))
    } else if is_at(ts, i, Token::Char, err) {
        Some(parse_stars(ts, i + 1, Type::Char, err))
    } else {
        None
    }
}

#[verifier::rlimit(50)]
#[verifier::spinoff_prover]
fn parse_var_decl(ts: &Vec<(Token, Span)>, i: usize, err: &mut Failure) -> (r: Option<(Tree<Parsed>, usize)>)
    requires
        i <= ts@.len(),
    ensures
        agrees(r, p_var_decl(lexemes(ts@), i as int)),
        advances(r, i as int, ts@.len() as int),
        final(err)@ == merge(old(err)@, misses_var_decl(lexemes(ts@), i as int)),
{
    let ghost l = lexemes(ts@);
    match parse_type(ts, i, err) {
        None => {
            assert(p_var_decl(l, i as int) is None);
            None
        },
        Some((ty, k)) => match ident_name(ts, k, err) {
            None => {
                assert(p_type(l, i as int) == Some((ty, k as int)));
                assert(ident_at(l, k as int) is None);
                assert(p_var_decl(l, i as int) is None);
                None
            },
            Some(name) => {
                let mut size: Option<usize> = None;
                if is_at(ts, k + 1, Token::LBracket, err) && k + 2 < ts.len() {
                    match ts[k + 2].0 {
                        Token::Number(n) => {
                            assert(l[k + 2] == ts@[k + 2].0@);
                            assert(tok(l, k + 2) == Some(Lexeme::Number(n)));
                            if is_at(ts, k + 3, Token::RBracket, err) {
                                size = Some(n);
                            }
                        },
                        _ => {
                            err.expect(k + 2, RichPattern::Number);
                        },
                    }
                }
                let ghost sized = at(l, k + 1, Lexeme::LBracket) && (tok(l, k + 2) is Some && tok(
                    l,
                    k + 2,
                )->Some_0 is Number) && at(l, k + 3, Lexeme::RBracket);
                assert(sized == size is Some);
                let (ty2, k2) = match size {
                    Some(n) => (Type::Array(Box::new(ty), n), k + 4),
                    None => (ty, k + 1),
                };
                assert(sized ==> ty2 == Type::Array(Box::new(ty), tok(l, k + 2)->Some_0->Number_0));
                assert(k2 == (if sized { k + 4 } else { k + 1 }));
                assert(p_type(l, i as int) == Some((ty, k as int)));
                assert(ident_at(l, k as int) == Some(name@));
                if is_at(ts, k2, Token::Semicolon, err) {
                    Some((Tree::VarDeclare(ty2, name), k2 + 1))
                } else {
                    assert(!at(l, k2 as int, Lexeme::Semicolon));
                    assert(p_var_decl(l, i as int) is None);
                    None
                }
            },
        },
    }
}

/// The operator of level `level` at `i`, if there is one.
#[verifier::spinoff_prover]
fn bin_op_at(ts: &Vec<(Token, Span)>, i: usize, level: usize, err: &mut Failure) -> (r: Option<Op>)
    requires
        level <= 3,
    ensures
        r == bin_op(lexemes(ts@), i as int, level as nat),
        r is Some ==> i < ts.len(),
        final(err)@ == merge(old(err)@, misses_binop(lexemes(ts@), i as int, level as nat)),
{
    if level == 0 {
        if is_at(ts, i, Token::Asterisk, err) {
            Some(Op::Mul)
        } else if is_at(ts, i, Token::Slash, err) {
            Some(Op::Div)
        } else {
            None
        }
    } else if level == 1 {
        if is_at(ts, i, Token::Plus, err) {
            Some(Op::Add)
        } else if is_at(ts, i, Token::Minus, err) {
            Some(Op::Sub)
        } else {
            None
        }
    } else if level == 2 {
        if is_at(ts, i, Token::Gte, err) {
            Some(Op::Gte)
        } else if is_at(ts, i, Token::Gt, err) {
            Some(Op::Gt)
        } else if is_at(ts, i, Token::Lte, err) {
            Some(Op::Lte)
        } else if is_at(ts, i, Token::Lt, err) {
            Some(Op::Lt)
        } else {
            None
        }
    } else {
        if is_at(ts, i, Token::Eq, err) {
            Some(Op::Eq)
        } else if is_at(ts, i, Token::NotEq, err) {
            Some(Op::NotEq)
        } else {
            None
        }
    }
}

/// The unary operator at `i`, if there is one (see `unary_op`).
#[verifier::spinoff_prover]
fn unary_op_at(ts: &Vec<(Token, Span)>, i: usize, err: &mut Failure) -> (r: Option<u8>)
    ensures
        match r {
            Some(u) => unary_op(lexemes(ts@), i as int) == Some(u as nat) && i < ts.len(),
            None => unary_op(lexemes(ts@), i as int) is None,
        },
        final(err)@ == merge(old(err)@, misses_unary_op(lexemes(ts@), i as int)),
{
    if is_at(ts, i, Token::Plus, err) {
        Some(0)
    } else if is_at(ts, i, Token::Minus, err) {
        Some(1)
    } else if is_at(ts, i, Token::And, err) {
        Some(2)
    } else if is_at(ts, i, Token::Asterisk, err) {
        Some(3)
    } else {
        None
    }
}

fn apply_unary_exec(u: u8, e: Tree<Parsed>) -> (r: Tree<Parsed>)
    requires
        u <= 3,
    ensures
        ast(r) == apply_unary(u as nat, ast(e)),
{
    if u == 0 {
        e
    } else if u == 1 {
        let zero = Tree::Integer(0, ());
        assert(ast(zero) == Ast::<Parsed>::Integer(0, ()));
        Tree::BinOp(Op::Sub, Box::new(zero), Box::new(e), ())
    } else if u == 2 {
        Tree::Addr(Box::new(e), ())
    } else {
        Tree::Deref(Box::new(e), ())
    }
}

#[verifier::rlimit(50)]
#[verifier::spinoff_prover]
fn parse_expr(ts: &Vec<(Token, Span)>, i: usize, err: &mut Failure) -> (r: Option<(Tree<Parsed>, usize)>)
    requires
        i <= ts@.len(),
    ensures
        agrees(r, p_expr(lexemes(ts@), i as int)),
        advances(r, i as int, ts@.len() as int),
        final(err)@ == merge(old(err)@, misses_expr(lexemes(ts@), i as int)),
    decreases ts@.len() - i, 20int,
{
    match parse_bin(ts, i, 3, err) {
        None => None,
        Some((l, k)) => {
            if is_at(ts, k, Token::Assign, err) {
                match parse_expr(ts, k + 1, err) {
                    Some((r, k2)) => Some((Tree::Assign(Box::new(l), Box::new(r), ()), k2)),
                    None => Some((l, k)),
                }
            } else {
                Some((l, k))
            }
        },
    }
}

#[verifier::rlimit(50)]
#[verifier::spinoff_prover]
fn parse_bin(ts: &Vec<(Token, Span)>, i: usize, level: usize, err: &mut Failure) -> (r: Option<
    (Tree<Parsed>, usize),
>)
    requires
        i <= ts@.len(),
        level <= 3,
    ensures
        agrees(r, p_bin(lexemes(ts@), i as int, level as nat)),
        advances(r, i as int, ts@.len() as int),
        final(err)@ == merge(old(err)@, misses_bin(lexemes(ts@), i as int, level as nat)),
    decreases ts@.len() - i, 2 * level + 4,
{
    let ghost l = lexemes(ts@);
    let ghost e0 = err@;
    let first = if level == 0 {
        parse_unary(ts, i, err)
    } else {
        parse_bin(ts, i, level - 1, err)
    };
    match first {
        None => None,
        Some((lhs0, k0)) => {
            let mut lhs = lhs0;
            let mut k = k0;
            let mut done = false;
            while !done
                invariant
                    i < k <= ts@.len(),
                    level <= 3,
                    l == lexemes(ts@),
                    !done ==> p_bin(l, i as int, level as nat) == p_bin_rest(
                        l,
                        k as int,
                        level as nat,
                        ast(lhs),
                    ),
                    done ==> p_bin(l, i as int, level as nat) == Some((ast(lhs), k as int)),
                    !done ==> merge(err@, misses_bin_rest(l, k as int, level as nat)) == merge(
                        e0,
                        misses_bin(l, i as int, level as nat),
                    ),
                    done ==> err@ == merge(e0, misses_bin(l, i as int, level as nat)),
                decreases ts@.len() - k + (if done { 0int } else { 1int }),
            {
                match bin_op_at(ts, k, level, err) {
                    None => {
                        done = true;
                    },
                    Some(op) => {
                        let rhs = if level == 0 {
                            parse_unary(ts, k + 1, err)
                        } else {
                            parse_bin(ts, k + 1, level - 1, err)
                        };
                        match rhs {
                            None => {
                                done = true;
                            },
                            Some((r, k2)) => {
                                lhs = Tree::BinOp(op, Box::new(lhs), Box::new(r), ());
                                k = k2;
                            },
                        }
                    },
                }
            }
            Some((lhs, k))
        },
    }
}

#[verifier::rlimit(50)]
#[verifier::spinoff_prover]
fn parse_unary(ts: &Vec<(Token, Span)>, i: usize, err: &mut Failure) -> (r: Option<(Tree<Parsed>, usize)>)
    requires
        i <= ts@.len(),
    ensures
        agrees(r, p_unary(lexemes(ts@), i as int)),
        advances(r, i as int, ts@.len() as int),
        final(err)@ == merge(old(err)@, misses_unary(lexemes(ts@), i as int)),
    decreases ts@.len() - i, 3int,
{
    let ghost l = lexemes(ts@);
    let ghost e0 = err@;
    let ghost t = tok_miss(l, i as int, Token::Sizeof);
    let ghost x1 = if at(l, i as int, Lexeme::Sizeof) { misses_unary(l, i + 1) } else { no_miss() };
    let ghost u = misses_unary_op(l, i as int);
    let ghost x2 = if unary_op(l, i as int) is Some { misses_unary(l, i + 1) } else { no_miss() };
    let ghost pm = misses_primary(l, i as int);
    if is_at(ts, i, Token::Sizeof, err) {
        match parse_unary(ts, i + 1, err) {
            Some((e, k)) => {
                proof {
                    lemma_merge_assoc(e0, t, x1);
                }
                return Some((Tree::Sizeof(Box::new(e)), k));
            },
            None => {},
        }
    }
    proof {
        lemma_merge_assoc(e0, t, x1);
    }
    match unary_op_at(ts, i, err) {
        Some(u8_op) => match parse_unary(ts, i + 1, err) {
            Some((e, k)) => {
                proof {
                    lemma_merge_chain(e0, t, x1, u, x2, no_miss(), no_miss());
                    lemma_merge_assoc(t, x1, merge(u, x2));
                }
                return Some((apply_unary_exec(u8_op, e), k));
            },
            None => {},
        },
        None => {},
    }
    let r = parse_primary(ts, i, err);
    proof {
        lemma_merge_chain(e0, t, x1, u, x2, pm, no_miss());
        lemma_merge_assoc(merge(t, x1), merge(u, x2), pm);
        lemma_merge_assoc(u, x2, pm);
        lemma_merge_assoc(t, x1, merge(u, merge(x2, pm)));
    }
    r
}

#[verifier::rlimit(50)]
#[verifier::spinoff_prover]
fn parse_primary(ts: &Vec<(Token, Span)>, i: usize, err: &mut Failure) -> (r: Option<(Tree<Parsed>, usize)>)
    requires
        i <= ts@.len(),
    ensures
        agrees(r, p_primary(lexemes(ts@), i as int)),
        advances(r, i as int, ts@.len() as int),
        final(err)@ == merge(old(err)@, misses_primary(lexemes(ts@), i as int)),
    decreases ts@.len() - i, 2int,
{
    match parse_atom(ts, i, err) {
        None => None,
        Some((p, k)) => {
            if is_at(ts, k, Token::LBracket, err) {
                match parse_expr(ts, k + 1, err) {
                    Some((e, k2)) => {
                        if is_at(ts, k2, Token::RBracket, err) {
                            Some((Tree::Indexed(Box::new(p), Box::new(e), ()), k2 + 1))
                        } else {
                            Some((p, k))
                        }
                    },
                    None => Some((p, k)),
                }
            } else {
                Some((p, k))
            }
        },
    }
}

#[verifier::rlimit(50)]
#[verifier::spinoff_prover]
fn parse_atom(ts: &Vec<(Token, Span)>, i: usize, err: &mut Failure) -> (r: Option<(Tree<Parsed>, usize)>)
    requires
        i <= ts@.len(),
    ensures
        agrees(r, p_atom(lexemes(ts@), i as int)),
        advances(r, i as int, ts@.len() as int),
        final(err)@ == merge(old(err)@, misses_atom(lexemes(ts@), i as int)),
    decreases ts@.len() - i, 1int,
{
    let ghost l = lexemes(ts@);
    match ident_name(ts, i, err) {
        Some(name) => {
            if is_at(ts, i + 1, Token::LParen, err) {
                let (args, k) = parse_args(ts, i + 2, err);
                if is_at(ts, k, Token::RParen, err) {
                    return Some((Tree::Call(name, args, ()), k + 1));
                }
            }
        },
        None => {},
    }
    if i < ts.len() {
        assert(tok(l, i as int) == Some(ts@[i as int].0@));
        match ts[i].0 {
            Token::Number(n) => {
                return Some((Tree::Integer(n as i64, ()), i + 1));
            },
            Token::String(x) => {
                return Some((Tree::String(String::from_str(x), ()), i + 1));
            },
            Token::Ident(x) => {
                return Some((Tree::Var(String::from_str(x), ()), i + 1));
            },
            Token::LParen => {
                match parse_expr(ts, i + 1, err) {
                    Some((e, k)) => {
                        if is_at(ts, k, Token::RParen, err) {
                            return Some((e, k + 1));
                        }
                    },
                    None => {},
                }
                return None;
            },
            _ => {},
        }
    }
    err.expect(i, RichPattern::Number);
    err.expect(i, RichPattern::StringLiteral);
    err.expect(i, RichPattern::Token(Token::LParen));
    None
}

/// The arguments of a call.
#[verifier::rlimit(50)]
#[verifier::spinoff_prover]
fn parse_args(ts: &Vec<(Token, Span)>, i: usize, err: &mut Failure) -> (r: (Vec<Tree<Parsed>>, usize))
    requires
        i <= ts@.len(),
    ensures
        asts(r.0@) == p_args(lexemes(ts@), i as int).0,
        r.1 == p_args(lexemes(ts@), i as int).1,
        i <= r.1 <= ts@.len(),
        final(err)@ == merge(old(err)@, misses_args(lexemes(ts@), i as int)),
    decreases ts@.len() - i, 21int,
{
    let ghost l = lexemes(ts@);
    let ghost e0 = err@;
    let mut v: Vec<Tree<Parsed>> = Vec::new();
    match parse_expr(ts, i, err) {
        None => (v, i),
        Some((e, k0)) => {
            v.push(e);
            proof {
                lemma_asts(v@);
                assert(asts(v@) =~= seq![ast(e)]);
            }
            let mut k = k0;
            let mut done = false;
            while !done
                invariant
                    i < k <= ts@.len(),
                    l == lexemes(ts@),
                    !done ==> p_args(l, i as int) == p_args_rest(l, k as int, asts(v@)),
                    done ==> p_args(l, i as int) == (asts(v@), k as int),
                    !done ==> merge(err@, misses_args_rest(l, k as int)) == merge(e0, misses_args(l, i as int)),
                    done ==> err@ == merge(e0, misses_args(l, i as int)),
                decreases ts@.len() - k + (if done { 0int } else { 1int }),
            {
                if is_at(ts, k, Token::Comma, err) {
                    match parse_expr(ts, k + 1, err) {
                        Some((e, k2)) => {
                            proof {
                                lemma_asts_push(v@, e);
                            }
                            v.push(e);
                            k = k2;
                        },
                        None => {
                            done = true;
                        },
                    }
                } else {
                    done = true;
                }
            }
            (v, k)
        },
    }
}

#[verifier::rlimit(50)]
#[verifier::spinoff_prover]
fn parse_opt_expr(ts: &Vec<(Token, Span)>, i: usize, err: &mut Failure) -> (r: (Option<Box<Tree<Parsed>>>, usize))
    requires
        i <= ts@.len(),
    ensures
        r.1 == p_opt_expr(lexemes(ts@), i as int).1,
        opt_ast(r.0) == boxed(p_opt_expr(lexemes(ts@), i as int).0),
        i <= r.1 <= ts@.len(),
        final(err)@ == merge(old(err)@, misses_expr(lexemes(ts@), i as int)),
{
    match parse_expr(ts, i, err) {
        Some((e, k)) => {
            let b = Some(Box::new(e));
            assert(opt_ast(b) == Some(Box::new(ast(e))));
            (b, k)
        },
        None => {
            assert(opt_ast::<Parsed>(None) == None::<Box<Ast<Parsed>>>);
            (None, i)
        },
    }
}

#[verifier::rlimit(50)]
#[verifier::spinoff_prover]
fn parse_block_stmt(ts: &Vec<(Token, Span)>, i: usize, err: &mut Failure) -> (r: Option<(Tree<Parsed>, usize)>)
    requires
        i <= ts@.len(),
    ensures
        agrees(r, p_block_stmt(lexemes(ts@), i as int)),
        advances(r, i as int, ts@.len() as int),
        final(err)@ == merge(old(err)@, misses_block(lexemes(ts@), i as int)),
    decreases ts@.len() - i, 1int,
{
    if is_at(ts, i, Token::LBrace, err) {
        let (items, k) = parse_items(ts, i + 1, Vec::new(), err);
        proof {
            assert(asts(Seq::<Tree<Parsed>>::empty()) =~= seq![]);
        }
        if is_at(ts, k, Token::RBrace, err) {
            return Some((Tree::Block(items), k + 1));
        }
    }
    None
}

#[verifier::rlimit(50)]
#[verifier::spinoff_prover]
fn parse_if_stmt(ts: &Vec<(Token, Span)>, i: usize, err: &mut Failure) -> (r: Option<(Tree<Parsed>, usize)>)
    requires
        i <= ts@.len(),
    ensures
        agrees(r, p_if_stmt(lexemes(ts@), i as int)),
        advances(r, i as int, ts@.len() as int),
        final(err)@ == merge(old(err)@, misses_if(lexemes(ts@), i as int)),
    decreases ts@.len() - i, 1int,
{
    let ghost l = lexemes(ts@);
    let ghost e0 = err@;
    let ghost none = no_miss();
    let ghost o = misses_opening(l, i as int, Token::If);
    if is_at(ts, i, Token::If, err) && is_at(ts, i + 1, Token::LParen, err) {
        let ghost m = misses_expr(l, i + 2);
        match parse_expr(ts, i + 2, err) {
            Some((c, k)) => {
                let ghost rp = tok_miss(l, k as int, Token::RParen);
                if is_at(ts, k, Token::RParen, err) {
                    let ghost s1 = misses_stmt(l, k + 1);
                    match parse_stmt(ts, k + 1, err) {
                        Some((a, k2)) => {
                            let ghost el = tok_miss(l, k2 as int, Token::Else);
                            if is_at(ts, k2, Token::Else, err) {
                                let ghost s2 = misses_stmt(l, k2 + 1);
                                match parse_stmt(ts, k2 + 1, err) {
                                    Some((b, k3)) => {
                                        proof {
                                            lemma_merge_chain(e0, o, m, rp, s1, el, s2);
                                        }
                                        let ob = Some(Box::new(b));
                                        assert(opt_ast(ob) == Some(Box::new(ast(b))));
                                        return Some((Tree::If(Box::new(c), Box::new(a), ob), k3));
                                    },
                                    None => {
                                        proof {
                                            lemma_merge_chain(e0, o, m, rp, s1, el, s2);
                                        }
                                        assert(opt_ast::<Parsed>(None) == None::<Box<Ast<Parsed>>>);
                                        return Some((Tree::If(Box::new(c), Box::new(a), None), k2));
                                    },
                                }
                            } else {
                                proof {
                                    lemma_merge_chain(e0, o, m, rp, s1, el, none);
                                }
                                assert(opt_ast::<Parsed>(None) == None::<Box<Ast<Parsed>>>);
                                return Some((Tree::If(Box::new(c), Box::new(a), None), k2));
                            }
                        },
                        None => {
                            proof {
                                lemma_merge_chain(e0, o, m, rp, s1, none, none);
                            }
                        },
                    }
                } else {
                    proof {
                        lemma_merge_chain(e0, o, m, rp, none, none, none);
                    }
                }
            },
            None => {
                proof {
                    lemma_merge_chain(e0, o, m, none, none, none, none);
                }
            },
        }
    } else {
        proof {
            lemma_merge_chain(e0, o, none, none, none, none, none);
        }
    }
    None
}

#[verifier::rlimit(50)]
#[verifier::spinoff_prover]
fn parse_while_stmt(ts: &Vec<(Token, Span)>, i: usize, err: &mut Failure) -> (r: Option<(Tree<Parsed>, usize)>)
    requires
        i <= ts@.len(),
    ensures
        agrees(r, p_while_stmt(lexemes(ts@), i as int)),
        advances(r, i as int, ts@.len() as int),
        final(err)@ == merge(old(err)@, misses_while(lexemes(ts@), i as int)),
    decreases ts@.len() - i, 1int,
{
    if is_at(ts, i, Token::While, err) && is_at(ts, i + 1, Token::LParen, err) {
        match parse_expr(ts, i + 2, err) {
            Some((c, k)) => {
                if is_at(ts, k, Token::RParen, err) {
                    match parse_stmt(ts, k + 1, err) {
                        Some((b, k2)) => {
                            return Some((Tree::While(Box::new(c), Box::new(b)), k2));
                        },
                        None => {},
                    }
                }
            },
            None => {},
        }
    }
    None
}

#[verifier::rlimit(50)]
#[verifier::spinoff_prover]
fn parse_for_stmt(ts: &Vec<(Token, Span)>, i: usize, err: &mut Failure) -> (r: Option<(Tree<Parsed>, usize)>)
    requires
        i <= ts@.len(),
    ensures
        agrees(r, p_for_stmt(lexemes(ts@), i as int)),
        advances(r, i as int, ts@.len() as int),
        final(err)@ == merge(old(err)@, misses_for(lexemes(ts@), i as int)),
    decreases ts@.len() - i, 1int,
{
    if is_at(ts, i, Token::For, err) && is_at(ts, i + 1, Token::LParen, err) {
        let (init, k1) = parse_opt_expr(ts, i + 2, err);
        if is_at(ts, k1, Token::Semicolon, err) {
            let (cond, k2) = parse_opt_expr(ts, k1 + 1, err);
            if is_at(ts, k2, Token::Semicolon, err) {
                let (upd, k3) = parse_opt_expr(ts, k2 + 1, err);
                if is_at(ts, k3, Token::RParen, err) {
                    match parse_stmt(ts, k3 + 1, err) {
                        Some((b, k4)) => {
                            return Some((Tree::For(init, cond, upd, Box::new(b)), k4));
                        },
                        None => {},
                    }
                }
            }
        }
    }
    None
}

#[verifier::rlimit(50)]
#[verifier::spinoff_prover]
fn parse_return_stmt(ts: &Vec<(Token, Span)>, i: usize, err: &mut Failure) -> (r: Option<(Tree<Parsed>, usize)>)
    requires
        i <= ts@.len(),
    ensures
        agrees(r, p_return_stmt(lexemes(ts@), i as int)),
        advances(r, i as int, ts@.len() as int),
        final(err)@ == merge(old(err)@, misses_return(lexemes(ts@), i as int)),
{
    if is_at(ts, i, Token::Return, err) {
        match parse_expr(ts, i + 1, err) {
            Some((e, k)) => {
                if is_at(ts, k, Token::Semicolon, err) {
                    return Some((Tree::Return(Box::new(e), ()), k + 1));
                }
            },
            None => {},
        }
    }
    None
}

#[verifier::rlimit(50)]
#[verifier::spinoff_prover]
fn parse_expr_stmt(ts: &Vec<(Token, Span)>, i: usize, err: &mut Failure) -> (r: Option<(Tree<Parsed>, usize)>)
    requires
        i <= ts@.len(),
    ensures
        agrees(r, p_expr_stmt(lexemes(ts@), i as int)),
        advances(r, i as int, ts@.len() as int),
        final(err)@ == merge(old(err)@, misses_expr_stmt(lexemes(ts@), i as int)),
{
    match parse_expr(ts, i, err) {
        Some((e, k)) => {
            if is_at(ts, k, Token::Semicolon, err) {
                Some((e, k + 1))
            } else {
                None
            }
        },
        None => None,
    }
}

#[verifier::rlimit(50)]
#[verifier::spinoff_prover]
fn parse_stmt(ts: &Vec<(Token, Span)>, i: usize, err: &mut Failure) -> (r: Option<(Tree<Parsed>, usize)>)
    requires
        i <= ts@.len(),
    ensures
        agrees(r, p_stmt(lexemes(ts@), i as int)),
        advances(r, i as int, ts@.len() as int),
        final(err)@ == merge(old(err)@, misses_stmt(lexemes(ts@), i as int)),
    decreases ts@.len() - i, 2int,
{
    let r = parse_block_stmt(ts, i, err);
    if r.is_some() {
        return r;
    }
    let r = parse_if_stmt(ts, i, err);
    if r.is_some() {
        return r;
    }
    let r = parse_while_stmt(ts, i, err);
    if r.is_some() {
        return r;
    }
    let r = parse_for_stmt(ts, i, err);
    if r.is_some() {
        return r;
    }
    let r = parse_return_stmt(ts, i, err);
    if r.is_some() {
        return r;
    }
    parse_expr_stmt(ts, i, err)
}

/// Statements and declarations, appended to `acc`, as long as one applies.
#[verifier::rlimit(50)]
#[verifier::spinoff_prover]
fn parse_items(ts: &Vec<(Token, Span)>, i: usize, acc: Vec<Tree<Parsed>>, err: &mut Failure) -> (r: (
    Vec<Tree<Parsed>>,
    usize,
))
    requires
        i <= ts@.len(),
    ensures
        asts(r.0@) == p_items(lexemes(ts@), i as int, asts(acc@)).0,
        r.1 == p_items(lexemes(ts@), i as int, asts(acc@)).1,
        i <= r.1 <= ts@.len(),
        final(err)@ == merge(old(err)@, misses_items(lexemes(ts@), i as int)),
    decreases ts@.len() - i, 3int,
{
    let ghost l = lexemes(ts@);
    let ghost e0 = err@;
    let mut v = acc;
    let mut k = i;
    let mut done = false;
    while !done
        invariant
            i <= k <= ts@.len(),
            l == lexemes(ts@),
            !done ==> p_items(l, i as int, asts(acc@)) == p_items(l, k as int, asts(v@)),
            done ==> p_items(l, i as int, asts(acc@)) == (asts(v@), k as int),
            !done ==> merge(err@, misses_items(l, k as int)) == merge(e0, misses_items(l, i as int)),
            done ==> err@ == merge(e0, misses_items(l, i as int)),
        decreases ts@.len() - k + (if done { 0int } else { 1int }),
    {
        let item = match parse_stmt(ts, k, err) {
            Some(x) => Some(x),
            None => parse_var_decl(ts, k, err),
        };
        match item {
            Some((t, k2)) => {
                proof {
                    lemma_asts_push(v@, t);
                }
                v.push(t);
                k = k2;
            },
            None => {
                done = true;
            },
        }
    }
    (v, k)
}

#[verifier::rlimit(50)]
#[verifier::spinoff_prover]
fn parse_param(ts: &Vec<(Token, Span)>, i: usize, err: &mut Failure) -> (r: Option<((Type, String), usize)>)
    requires
        i <= ts@.len(),
    ensures
        match r {
            Some((p, k)) => p_param(lexemes(ts@), i as int) == Some(((p.0, p.1@), k as int)) && i < k
                <= ts@.len(),
            None => p_param(lexemes(ts@), i as int) is None,
        },
        final(err)@ == merge(old(err)@, misses_param(lexemes(ts@), i as int)),
{
    match parse_type(ts, i, err) {
        None => None,
        Some((ty, k)) => match ident_name(ts, k, err) {
            Some(name) => Some(((ty, name), k + 1)),
            None => None,
        },
    }
}

#[verifier::rlimit(50)]
#[verifier::spinoff_prover]
fn parse_params(ts: &Vec<(Token, Span)>, i: usize, err: &mut Failure) -> (r: (Vec<(Type, String)>, usize))
    requires
        i <= ts@.len(),
    ensures
        params_view(r.0@) == p_params(lexemes(ts@), i as int).0,
        r.1 == p_params(lexemes(ts@), i as int).1,
        i <= r.1 <= ts@.len(),
        final(err)@ == merge(old(err)@, misses_params(lexemes(ts@), i as int)),
{
    let ghost l = lexemes(ts@);
    let ghost e0 = err@;
    let mut v: Vec<(Type, String)> = Vec::new();
    match parse_param(ts, i, err) {
        None => {
            assert(params_view(v@) =~= seq![]);
            (v, i)
        },
        Some((p, k0)) => {
            v.push(p);
            assert(params_view(v@) =~= seq![(p.0, p.1@)]);
            let mut k = k0;
            let mut done = false;
            while !done
                invariant
                    i < k <= ts@.len(),
                    l == lexemes(ts@),
                    !done ==> p_params(l, i as int) == p_params_rest(l, k as int, params_view(v@)),
                    done ==> p_params(l, i as int) == (params_view(v@), k as int),
                    !done ==> merge(err@, misses_params_rest(l, k as int)) == merge(e0, misses_params(l, i as int)),
                    done ==> err@ == merge(e0, misses_params(l, i as int)),
                decreases ts@.len() - k + (if done { 0int } else { 1int }),
            {
                if is_at(ts, k, Token::Comma, err) {
                    match parse_param(ts, k + 1, err) {
                        Some((p, k2)) => {
                            let ghost old_v = v@;
                            v.push(p);
                            assert(params_view(v@) =~= params_view(old_v).push((p.0, p.1@)));
                            k = k2;
                        },
                        None => {
                            done = true;
                        },
                    }
                } else {
                    done = true;
                }
            }
            (v, k)
        },
    }
}

#[verifier::rlimit(50)]
#[verifier::spinoff_prover]
fn parse_func_def(ts: &Vec<(Token, Span)>, i: usize, err: &mut Failure) -> (r: Option<(Tree<Parsed>, usize)>)
    requires
        i <= ts@.len(),
    ensures
        agrees(r, p_func_def(lexemes(ts@), i as int)),
        advances(r, i as int, ts@.len() as int),
        final(err)@ == merge(old(err)@, misses_func_def(lexemes(ts@), i as int)),
{
    let ghost l = lexemes(ts@);
    match parse_type(ts, i, err) {
        None => None,
        Some((ty, k)) => match ident_name(ts, k, err) {
            None => None,
            Some(name) => {
                if is_at(ts, k + 1, Token::LParen, err) {
                    let (params, k2) = parse_params(ts, k + 2, err);
                    if is_at(ts, k2, Token::RParen, err) && is_at(ts, k2 + 1, Token::LBrace, err) {
                        let (body, k3) = parse_items(ts, k2 + 2, Vec::new(), err);
                        proof {
                            assert(asts(Seq::<Tree<Parsed>>::empty()) =~= seq![]);
                        }
                        if is_at(ts, k3, Token::RBrace, err) {
                            let b = Tree::Block(body);
                            assert(ast(b) == Ast::<Parsed>::Block(asts(body@)));
                            return Some((Tree::FuncDef(ty, name, params, Box::new(b)), k3 + 1));
                        }
                    }
                }
                None
            },
        },
    }
}

#[verifier::rlimit(50)]
#[verifier::spinoff_prover]
fn parse_top(ts: &Vec<(Token, Span)>, i: usize, err: &mut Failure) -> (r: Option<(Tree<Parsed>, usize)>)
    requires
        i <= ts@.len(),
    ensures
        agrees(r, p_top(lexemes(ts@), i as int)),
        advances(r, i as int, ts@.len() as int),
        final(err)@ == merge(old(err)@, misses_top(lexemes(ts@), i as int)),
{
    match parse_func_def(ts, i, err) {
        Some(x) => Some(x),
        None => match parse_var_decl(ts, i, err) {
            Some(x) => Some(x),
            None => parse_stmt(ts, i, err),
        },
    }
}

/// Where the top-level items of a program stop: the position after the last item parsed.
pub open spec fn items_end(ts: Seq<Lexeme>) -> int {
    p_tops(ts, 0, seq![]).1
}

proof fn lemma_tops_end(ts: Seq<Lexeme>, i: int, acc: Seq<Ast<Parsed>>)
    requires
        0 <= i,
    ensures
        i <= p_tops(ts, i, acc).1,
    decreases ts.len() - i,
{
    if 0 <= i <= ts.len() {
        if let Some((t, k)) = p_top(ts, i) {
            if i < k <= ts.len() {
                lemma_tops_end(ts, k, acc.push(t));
            }
        }
    }
}

/// A program that does not parse is refused at or after the end of the last top-level item that
/// parses: the error is never earlier than where the items stop.
pub proof fn law_failure_after_items(ts: Seq<Lexeme>)
    ensures
        items_end(ts) <= parse_failure(ts).0,
{
    lemma_tops_end(ts, 0, seq![]);
}

/// `e` reports a failure at token position `pos` of `ts`, or at the end `eoi` when `pos` is past
/// the last token.
pub open spec fn reports_at<'a>(e: Rich<'a>, ts: Seq<(Token<'a>, Span)>, eoi: Span, pos: int) -> bool {
    &&& 0 <= pos
    &&& e.reason is ExpectedFound
    &&& e.expected@.len() > 0
    &&& if pos < ts.len() {
        e.span == ts[pos].1 && e.found == Some(ts[pos].0)
    } else {
        e.span == eoi && e.found is None
    }
}

/// Parses a whole token sequence as a program; `eoi` is the span of the end of the input. On
/// failure, gives what the parser expected at the furthest position it reached, which is not
/// before the end of the items it could parse.
pub fn parse_tokens<'a>(ts: &Vec<(Token<'a>, Span)>, eoi: Span) -> (r: Result<Tree<Parsed>, Rich<'a>>)
    ensures
        match parse_tokens_spec(lexemes(ts@)) {
            Some(a) => r matches Ok(t) && ast(t) == a,
            None => r matches Err(e) && reports_at(e, ts@, eoi, parse_failure(lexemes(ts@)).0 as int)
                && e.expected@.to_set() == parse_failure(lexemes(ts@)).1,
        },
{
    let ghost l = lexemes(ts@);
    let mut err = Failure::new();
    let mut v: Vec<Tree<Parsed>> = Vec::new();
    let mut k: usize = 0;
    let mut done = false;
    proof {
        assert(asts(v@) =~= seq![]);
    }
    while !done
        invariant
            k <= ts@.len(),
            l == lexemes(ts@),
            !done ==> p_tops(l, 0, seq![]) == p_tops(l, k as int, asts(v@)),
            done ==> p_tops(l, 0, seq![]) == (asts(v@), k as int),
            !done ==> merge(err@, misses_tops(l, k as int)) == misses_tops(l, 0),
            done ==> err@ == misses_tops(l, 0),
        decreases ts@.len() - k + (if done { 0int } else { 1int }),
    {
        let ghost before = err@;
        match parse_top(ts, k, &mut err) {
            Some((t, k2)) => {
                proof {
                    lemma_asts_push(v@, t);
                    lemma_merge_assoc(before, misses_top(l, k as int), misses_tops(l, k2 as int));
                }
                v.push(t);
                k = k2;
            },
            None => {
                done = true;
            },
        }
    }
    if k == ts.len() {
        Ok(Tree::Program(v))
    } else {
        err.expect(k, RichPattern::EndOfInput);
        proof {
            use_type_invariant(&err);
        }
        let pos = err.pos;
        let (span, found) = if pos < ts.len() {
            (ts[pos].1, Some(ts[pos].0))
        } else {
            (eoi, None)
        };
        let e = Rich { span, reason: RichReason::ExpectedFound, expected: err.expected, found };
        assert(reports_at(e, ts@, eoi, pos as int));
        Err(e)
    }
}

/// The tokens alone, without their spans.
pub open spec fn unspanned(ls: Seq<(Lexeme, Span)>) -> Seq<Lexeme> {
    ls.map_values(|p: (Lexeme, Span)| p.0)
}

/// What the parser gives for a source text whose tokens are those of `s`.
pub open spec fn parse_spec(s: Seq<char>) -> Option<Ast<Parsed>> {
    match lex_spec(s) {
        Ok(ls) => parse_tokens_spec(unspanned(ls)),
        Err(_) => None,
    }
}

/// An error for a failure at token position `pos` of the tokens `ls` of a text of `n`
/// characters, where the patterns `expected` were expected: at that token's span, or at the end
/// of the text past the last token, with the message that lists the texts of `expected` in
/// order, each once, and gives what was found there.
pub open spec fn error_at(e: ParseError, ls: Seq<(Lexeme, Span)>, n: nat, pos: int, expected: Set<RichPattern>) -> bool {
    exists|list: Seq<Seq<char>>, found: Option<Token>|
        #![trigger message_of(list, found)]
        {
            &&& 0 <= pos
            &&& strictly_sorted(list)
            &&& list.to_set() == shown(expected)
            &&& e.message@ == message_of(list, found)
            &&& if pos < ls.len() {
                &&& e.span == ls[pos].1
                &&& found matches Some(t) && t@ == ls[pos].0
            } else {
                &&& e.span == (Span { start: n as usize, end: n as usize })
                &&& found is None
            }
        }
}

/// `e` is the error of the text `s` that does not parse: at the furthest position where a token
/// did not match (see `parse_failure`), listing what was expected there.
pub open spec fn reported(e: ParseError, s: Seq<char>) -> bool {
    let f = parse_failure(unspanned(lex_spec(s)->Ok_0));
    error_at(e, lex_spec(s)->Ok_0, s.len(), f.0 as int, f.1)
}

/// Parses a source text as a program. The text must split into tokens (see `lex`). A text that
/// does not parse gives one error, at the furthest token where a token did not match, listing
/// what was expected there (see `reported`).
pub fn parse(source: &str) -> (r: Result<Tree<Parsed>, Vec<ParseError>>)
    requires
        lex_spec(source@) is Ok,
    ensures
        match parse_spec(source@) {
            Some(a) => r matches Ok(t) && ast(t) == a,
            None => r matches Err(es) && es@.len() == 1 && reported(es@[0], source@),
        },
{
    let tokens = match lex(source) {
        Ok(tokens) => tokens,
        Err(_) => vstd::pervasive::unreached(),
    };
    let ghost ls = lex_spec(source@)->Ok_0;
    proof {
        assert(lexemes(tokens@) =~= unspanned(ls));
        assert(parse_spec(source@) == parse_tokens_spec(lexemes(tokens@)));
    }
    let n = chars_of(source).len();
    let eoi = Span { start: n, end: n };
    match parse_tokens(&tokens, eoi) {
        Ok(tree) => Ok(tree),
        Err(e) => {
            let ghost f = parse_failure(unspanned(ls));
            let ghost pos = f.0 as int;
            let error = ParseError::from_rich(e);
            proof {
                let list = choose|list: Seq<Seq<char>>| expected_list(e.expected@, list) && error.message@ == message_of(list, e.found);
                lemma_shown_texts(e.expected@);
                if pos < tokens@.len() {
                    assert(toks_view(tokens@)[pos] == (tokens@[pos].0@, tokens@[pos].1));
                }
                assert(error_at(error, ls, source@.len(), pos, f.1));
            }
            let mut errors: Vec<ParseError> = Vec::new();
            errors.push(error);
            assert(error_at(errors@[0], ls, source@.len(), pos, f.1));
            Err(errors)
        },
    }
}


/// How C writes each binary operator.
pub open spec fn op_symbol(op: Op) -> Seq<char> {
    match op {
        Op::Add => seq!['+'],
        Op::Sub => seq!['-'],
        Op::Mul => seq!['*'],
        Op::Div => seq!['/'],
        Op::Eq => seq!['=', '='],
        Op::NotEq => seq!['!', '='],
        Op::Gt => seq!['>'],
        Op::Gte => seq!['>', '='],
        Op::Lt => seq!['<'],
        Op::Lte => seq!['<', '='],
    }
}

/// The precedence level of a binary operator, from the one that binds tightest: `*` `/`, then
/// `+` `-`, then `>` `>=` `<` `<=`, then `==` `!=`.
pub open spec fn op_level(op: Op) -> nat {
    match op {
        Op::Mul | Op::Div => 0,
        Op::Add | Op::Sub => 1,
        Op::Gt | Op::Gte | Op::Lt | Op::Lte => 2,
        Op::Eq | Op::NotEq => 3,
    }
}

/// The tokens the spellings of the binary operators are.
proof fn lemma_op_lexemes()
    ensures
        crate::lexer::lexeme_of(seq!['+']) == Lexeme::Plus,
        crate::lexer::lexeme_of(seq!['-']) == Lexeme::Minus,
        crate::lexer::lexeme_of(seq!['*']) == Lexeme::Asterisk,
        crate::lexer::lexeme_of(seq!['/']) == Lexeme::Slash,
        crate::lexer::lexeme_of(seq!['=', '=']) == Lexeme::Eq,
        crate::lexer::lexeme_of(seq!['!', '=']) == Lexeme::NotEq,
        crate::lexer::lexeme_of(seq!['>']) == Lexeme::Gt,
        crate::lexer::lexeme_of(seq!['>', '=']) == Lexeme::Gte,
        crate::lexer::lexeme_of(seq!['<']) == Lexeme::Lt,
        crate::lexer::lexeme_of(seq!['<', '=']) == Lexeme::Lte,
{
    let w = seq!['+'];
    assert(w[0] == '+' && w.len() == 1);
    assert(w.len() != seq!['=', '='].len());
    assert(w != seq!['=', '=']);
    assert(w.len() != seq!['!', '='].len());
    assert(w != seq!['!', '=']);
    assert(w.len() != seq!['>', '='].len());
    assert(w != seq!['>', '=']);
    assert(w.len() != seq!['<', '='].len());
    assert(w != seq!['<', '=']);
    assert(crate::lexer::lexeme_of(w) == Lexeme::Plus);
    let w = seq!['-'];
    assert(w[0] == '-' && w.len() == 1);
    assert(w.len() != seq!['=', '='].len());
    assert(w != seq!['=', '=']);
    assert(w.len() != seq!['!', '='].len());
    assert(w != seq!['!', '=']);
    assert(w.len() != seq!['>', '='].len());
    assert(w != seq!['>', '=']);
    assert(w.len() != seq!['<', '='].len());
    assert(w != seq!['<', '=']);
    assert(crate::lexer::lexeme_of(w) == Lexeme::Minus);
    let w = seq!['*'];
    assert(w[0] == '*' && w.len() == 1);
    assert(w.len() != seq!['=', '='].len());
    assert(w != seq!['=', '=']);
    assert(w.len() != seq!['!', '='].len());
    assert(w != seq!['!', '=']);
    assert(w.len() != seq!['>', '='].len());
    assert(w != seq!['>', '=']);
    assert(w.len() != seq!['<', '='].len());
    assert(w != seq!['<', '=']);
    assert(crate::lexer::lexeme_of(w) == Lexeme::Asterisk);
    let w = seq!['/'];
    assert(w[0] == '/' && w.len() == 1);
    assert(w.len() != seq!['=', '='].len());
    assert(w != seq!['=', '=']);
    assert(w.len() != seq!['!', '='].len());
    assert(w != seq!['!', '=']);
    assert(w.len() != seq!['>', '='].len());
    assert(w != seq!['>', '=']);
    assert(w.len() != seq!['<', '='].len());
    assert(w != seq!['<', '=']);
    assert(crate::lexer::lexeme_of(w) == Lexeme::Slash);
    let w = seq!['=', '='];
    assert(w[0] == '=' && w.len() == 2);
    assert(w[1] == '=');
    assert(w =~= seq!['=', '=']);
    assert(w[0] != seq!['!', '='][0]);
    assert(w != seq!['!', '=']);
    assert(w[0] != seq!['>', '='][0]);
    assert(w != seq!['>', '=']);
    assert(w[0] != seq!['<', '='][0]);
    assert(w != seq!['<', '=']);
    assert(crate::lexer::lexeme_of(w) == Lexeme::Eq);
    let w = seq!['!', '='];
    assert(w[0] == '!' && w.len() == 2);
    assert(w[1] == '=');
    assert(w[0] != seq!['=', '='][0]);
    assert(w != seq!['=', '=']);
    assert(w =~= seq!['!', '=']);
    assert(w[0] != seq!['>', '='][0]);
    assert(w != seq!['>', '=']);
    assert(w[0] != seq!['<', '='][0]);
    assert(w != seq!['<', '=']);
    assert(crate::lexer::lexeme_of(w) == Lexeme::NotEq);
    let w = seq!['>'];
    assert(w[0] == '>' && w.len() == 1);
    assert(w.len() != seq!['=', '='].len());
    assert(w != seq!['=', '=']);
    assert(w.len() != seq!['!', '='].len());
    assert(w != seq!['!', '=']);
    assert(w.len() != seq!['>', '='].len());
    assert(w != seq!['>', '=']);
    assert(w.len() != seq!['<', '='].len());
    assert(w != seq!['<', '=']);
    assert(crate::lexer::lexeme_of(w) == Lexeme::Gt);
    let w = seq!['>', '='];
    assert(w[0] == '>' && w.len() == 2);
    assert(w[1] == '=');
    assert(w[0] != seq!['=', '='][0]);
    assert(w != seq!['=', '=']);
    assert(w[0] != seq!['!', '='][0]);
    assert(w != seq!['!', '=']);
    assert(w =~= seq!['>', '=']);
    assert(w[0] != seq!['<', '='][0]);
    assert(w != seq!['<', '=']);
    assert(crate::lexer::lexeme_of(w) == Lexeme::Gte);
    let w = seq!['<'];
    assert(w[0] == '<' && w.len() == 1);
    assert(w.len() != seq!['=', '='].len());
    assert(w != seq!['=', '=']);
    assert(w.len() != seq!['!', '='].len());
    assert(w != seq!['!', '=']);
    assert(w.len() != seq!['>', '='].len());
    assert(w != seq!['>', '=']);
    assert(w.len() != seq!['<', '='].len());
    assert(w != seq!['<', '=']);
    assert(crate::lexer::lexeme_of(w) == Lexeme::Lt);
    let w = seq!['<', '='];
    assert(w[0] == '<' && w.len() == 2);
    assert(w[1] == '=');
    assert(w[0] != seq!['=', '='][0]);
    assert(w != seq!['=', '=']);
    assert(w[0] != seq!['!', '='][0]);
    assert(w != seq!['!', '=']);
    assert(w[0] != seq!['>', '='][0]);
    assert(w != seq!['>', '=']);
    assert(w =~= seq!['<', '=']);
    assert(crate::lexer::lexeme_of(w) == Lexeme::Lte);
}

/// The binary operator the parser reads at a position is the one the token there spells, at
/// that operator's precedence level; and every token that spells an operator is read as it at
/// its level.
pub proof fn law_bin_op_spelled(ts: Seq<Lexeme>, i: int, level: nat)
    ensures
        bin_op(ts, i, level) matches Some(op) ==> tok(ts, i) == Some(crate::lexer::lexeme_of(op_symbol(op)))
            && level == op_level(op),
        forall|op: Op|
            tok(ts, i) == Some(#[trigger] crate::lexer::lexeme_of(op_symbol(op))) && level == op_level(op)
                ==> bin_op(ts, i, level) == Some(op),
{
    lemma_op_lexemes();
    assert forall|op: Op|
        tok(ts, i) == Some(#[trigger] crate::lexer::lexeme_of(op_symbol(op))) && level == op_level(op)
            implies bin_op(ts, i, level) == Some(op) by {
        match op {
            Op::Add => {},
            Op::Sub => {},
            Op::Mul => {},
            Op::Div => {},
            Op::Eq => {},
            Op::NotEq => {},
            Op::Gt => {},
            Op::Gte => {},
            Op::Lt => {},
            Op::Lte => {},
        }
    }
    if let Some(op) = bin_op(ts, i, level) {
        match op {
            Op::Add => {},
            Op::Sub => {},
            Op::Mul => {},
            Op::Div => {},
            Op::Eq => {},
            Op::NotEq => {},
            Op::Gt => {},
            Op::Gte => {},
            Op::Lt => {},
            Op::Lte => {},
        }
    }
}


/// A number followed by no `[` is a unary operand.
proof fn lemma_p_unary_number(ts: Seq<Lexeme>, i: int, n: usize)
    requires
        0 <= i < ts.len(),
        ts[i] == Lexeme::Number(n),
        !at(ts, i + 1, Lexeme::LBracket),
    ensures
        p_unary(ts, i) == Some((Ast::<Parsed>::Integer(n as i64, ()), i + 1)),
{
    assert(p_atom(ts, i) == Some((Ast::<Parsed>::Integer(n as i64, ()), i + 1)));
    assert(p_primary(ts, i) == Some((Ast::<Parsed>::Integer(n as i64, ()), i + 1)));
}

/// A number followed by no operator of level `level` or below is an operand at that level.
proof fn lemma_p_bin_number(ts: Seq<Lexeme>, i: int, n: usize, level: nat)
    requires
        0 <= i < ts.len(),
        ts[i] == Lexeme::Number(n),
        !at(ts, i + 1, Lexeme::LBracket),
        level <= 3,
        forall|l: nat| l <= level ==> #[trigger] bin_op(ts, i + 1, l) is None,
    ensures
        p_bin(ts, i, level) == Some((Ast::<Parsed>::Integer(n as i64, ()), i + 1)),
    decreases level,
{
    lemma_p_unary_number(ts, i, n);
    let x = Ast::<Parsed>::Integer(n as i64, ());
    if level > 0 {
        lemma_p_bin_number(ts, i, n, (level - 1) as nat);
    }
    assert(bin_op(ts, i + 1, level) is None);
    assert(p_bin_rest(ts, i + 1, level, x) == Some((x, i + 1)));
    let first = if level == 0 {
        p_unary(ts, i)
    } else {
        p_bin(ts, i, (level - 1) as nat)
    };
    assert(first == Some((x, i + 1)));
}

/// A whole tree at one level is one at the next level too.
proof fn lemma_p_bin_up(ts: Seq<Lexeme>, i: int, level: nat, e: Ast<Parsed>)
    requires
        0 <= i < ts.len(),
        level < 3,
        p_bin(ts, i, level) == Some((e, ts.len() as int)),
    ensures
        p_bin(ts, i, level + 1) == Some((e, ts.len() as int)),
{
    assert(bin_op(ts, ts.len() as int, level + 1) is None);
    assert(p_bin_rest(ts, ts.len() as int, level + 1, e) == Some((e, ts.len() as int)));
    assert(((level + 1) - 1) as nat == level);
}

/// Two numbers with a binary operator between them are parsed as that operator applied to the
/// two numbers, in order, whatever the operator: the token that spells it gives it.
pub proof fn law_parse_binary(a: usize, b: usize, op: Op)
    ensures
        p_expr(seq![Lexeme::Number(a), crate::lexer::lexeme_of(op_symbol(op)), Lexeme::Number(b)], 0) == Some(
            (
                Ast::<Parsed>::BinOp(
                    op,
                    Box::new(Ast::Integer(a as i64, ())),
                    Box::new(Ast::Integer(b as i64, ())),
                    (),
                ),
                3int,
            ),
        ),
{
    lemma_op_lexemes();
    let ts = seq![Lexeme::Number(a), crate::lexer::lexeme_of(op_symbol(op)), Lexeme::Number(b)];
    let lv = op_level(op);
    law_bin_op_spelled(ts, 1, lv);
    assert forall|l: nat| l < lv implies #[trigger] bin_op(ts, 1, l) is None by {
        law_bin_op_spelled(ts, 1, l);
    }
    assert forall|l: nat| l <= 3 implies #[trigger] bin_op(ts, 3, l) is None by {}
    let x = Ast::<Parsed>::Integer(a as i64, ());
    let y = Ast::<Parsed>::Integer(b as i64, ());
    let e = Ast::<Parsed>::BinOp(op, Box::new(x), Box::new(y), ());
    assert(!at(ts, 1, Lexeme::LBracket));
    assert(!at(ts, 3, Lexeme::LBracket));
    lemma_p_unary_number(ts, 0, a);
    lemma_p_unary_number(ts, 2, b);
    if lv > 0 {
        lemma_p_bin_number(ts, 0, a, (lv - 1) as nat);
        lemma_p_bin_number(ts, 2, b, (lv - 1) as nat);
    }
    assert(p_bin_rest(ts, 3, lv, e) == Some((e, 3int)));
    assert(p_bin_rest(ts, 1, lv, x) == Some((e, 3int)));
    assert(p_bin(ts, 0, lv) == Some((e, 3int)));
    if lv < 3 {
        lemma_p_bin_up(ts, 0, lv, e);
    }
    if lv < 2 {
        lemma_p_bin_up(ts, 0, lv + 1, e);
    }
    if lv < 1 {
        lemma_p_bin_up(ts, 0, lv + 2, e);
    }
    assert(p_bin(ts, 0, 3) == Some((e, 3int)));
}


/// A unary sign before a number: `+` keeps it, `-` subtracts it from 0, `&` takes its address and
/// `*` dereferences it.
pub proof fn law_parse_unary(n: usize)
    ensures
        p_unary(seq![Lexeme::Plus, Lexeme::Number(n)], 0) == Some((Ast::<Parsed>::Integer(n as i64, ()), 2int)),
        p_unary(seq![Lexeme::Minus, Lexeme::Number(n)], 0) == Some(
            (
                Ast::<Parsed>::BinOp(Op::Sub, Box::new(Ast::Integer(0, ())), Box::new(Ast::Integer(n as i64, ())), ()),
                2int,
            ),
        ),
        p_unary(seq![Lexeme::And, Lexeme::Number(n)], 0) == Some(
            (Ast::<Parsed>::Addr(Box::new(Ast::Integer(n as i64, ())), ()), 2int),
        ),
        p_unary(seq![Lexeme::Asterisk, Lexeme::Number(n)], 0) == Some(
            (Ast::<Parsed>::Deref(Box::new(Ast::Integer(n as i64, ())), ()), 2int),
        ),
{
    let x = Ast::<Parsed>::Integer(n as i64, ());
    let t1 = seq![Lexeme::Plus, Lexeme::Number(n)];
    let t2 = seq![Lexeme::Minus, Lexeme::Number(n)];
    let t3 = seq![Lexeme::And, Lexeme::Number(n)];
    let t4 = seq![Lexeme::Asterisk, Lexeme::Number(n)];
    lemma_p_unary_number(t1, 1, n);
    lemma_p_unary_number(t2, 1, n);
    lemma_p_unary_number(t3, 1, n);
    lemma_p_unary_number(t4, 1, n);
}

} // verus!
