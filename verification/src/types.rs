//! Types, and the type checker that annotates parsed trees with them.
use vstd::prelude::*;
use vstd::string::*;
use crate::parser::{Tree, TypedTree, Ast, Parsed, Typed, Op, ast, asts, opt_ast, lemma_asts, lemma_asts_push, params_view};
use crate::table::{Table, find, lemma_find_push};
use crate::text::{decimal, decimal_nat, push_decimal_u64, lemma_decimal_nat_injective};

verus! {

/// The types of the source language.
#[derive(Debug, PartialEq)]
pub enum Type {
    Int,
    Char,
    Ptr(Box<Type>),
    Array(Box<Type>, usize),
}

impl View for Type {
    type V = Type;

    open spec fn view(&self) -> Type {
        *self
    }
}

impl Clone for Type {
    fn clone(&self) -> (r: Self)
        ensures
            r == *self,
        decreases self,
    {
        match self {
            Type::Int => Type::Int,
            Type::Char => Type::Char,
            Type::Ptr(inner) => Type::Ptr(Box::new((**inner).clone())),
            Type::Array(inner, n) => Type::Array(Box::new((**inner).clone()), *n),
        }
    }
}

impl Type {
    /// Size in bytes of a value of this type.
    pub open spec fn spec_size(self) -> nat
        decreases self,
    {
        match self {
            Type::Int => 4,
            Type::Char => 1,
            Type::Ptr(_) => 8,
            Type::Array(inner, n) => inner.spec_size() * (n as nat),
        }
    }

    /// Whether the size of this type, and of every type nested in it, fits in a `usize`.
    pub open spec fn size_fits(self) -> bool
        decreases self,
    {
        match self {
            Type::Array(inner, n) => inner.size_fits() && inner.spec_size() * (n as nat) <= usize::MAX,
            _ => true,
        }
    }

    /// Size in bytes of a value of this type.
    pub fn size(&self) -> (r: usize)
        requires
            self.size_fits(),
        ensures
            r == self.spec_size(),
        decreases self,
    {
        match self {
            Type::Int => 4,
            Type::Char => 1,
            Type::Ptr(_) => 8,
            Type::Array(inner, n) => {
                let s = inner.size();
                s * *n
            },
        }
    }

    /// The size, or `None` when it, or the size of a type nested in it, does not fit.
    pub fn checked_size(&self) -> (r: Option<usize>)
        ensures
            r == (if self.size_fits() { Some(self.spec_size() as usize) } else { None::<usize> }),
        decreases self,
    {
        match self {
            Type::Int => Some(4),
            Type::Char => Some(1),
            Type::Ptr(_) => Some(8),
            Type::Array(inner, n) => match inner.checked_size() {
                Some(s) => s.checked_mul(*n),
                None => None,
            },
        }
    }

    /// Whether two types are the same.
    pub fn same(&self, other: &Type) -> (r: bool)
        ensures
            r == (*self == *other),
        decreases self,
    {
        match (self, other) {
            (Type::Int, Type::Int) => true,
            (Type::Char, Type::Char) => true,
            (Type::Ptr(a), Type::Ptr(b)) => (**a).same(&**b),
            (Type::Array(a, n), Type::Array(b, m)) => *n == *m && (**a).same(&**b),
            _ => false,
        }
    }
}

/// Why a tree does not type-check.
#[derive(Debug)]
pub enum TypeError {
    NotProgram,
    DoubleFunction(String),
    DuplicateGlobal(String),
    InvalidTopLevel,
    NoScope,
    DoubleVariable(String),
    NotDeclared(String),
    NotTyped,
    NotLvalue,
    AssignMismatch(Type, Type),
    IfCondition,
    WhileCondition,
    ForCondition,
    IndexNotPointer,
    NotPointer(Type),
    FunctionNotDeclared(String),
    ArgCount(String),
    ArgMismatch(usize, String),
    ReturnOutside,
    BinOpNotAllowed(Op, Type, Type),
    SizeTooLarge,
    Unexpected,
}

/// The value of a `TypeError`.
pub enum TypeFault {
    NotProgram,
    DoubleFunction(Seq<char>),
    DuplicateGlobal(Seq<char>),
    InvalidTopLevel,
    NoScope,
    DoubleVariable(Seq<char>),
    NotDeclared(Seq<char>),
    NotTyped,
    NotLvalue,
    AssignMismatch(Type, Type),
    IfCondition,
    WhileCondition,
    ForCondition,
    IndexNotPointer,
    NotPointer(Type),
    FunctionNotDeclared(Seq<char>),
    ArgCount(Seq<char>),
    ArgMismatch(usize, Seq<char>),
    ReturnOutside,
    BinOpNotAllowed(Op, Type, Type),
    SizeTooLarge,
    Unexpected,
}

impl View for TypeError {
    type V = TypeFault;

    open spec fn view(&self) -> TypeFault {
        match *self {
            TypeError::NotProgram => TypeFault::NotProgram,
            TypeError::DoubleFunction(n) => TypeFault::DoubleFunction(n@),
            TypeError::DuplicateGlobal(n) => TypeFault::DuplicateGlobal(n@),
            TypeError::InvalidTopLevel => TypeFault::InvalidTopLevel,
            TypeError::NoScope => TypeFault::NoScope,
            TypeError::DoubleVariable(n) => TypeFault::DoubleVariable(n@),
            TypeError::NotDeclared(n) => TypeFault::NotDeclared(n@),
            TypeError::NotTyped => TypeFault::NotTyped,
            TypeError::NotLvalue => TypeFault::NotLvalue,
            TypeError::AssignMismatch(a, b) => TypeFault::AssignMismatch(a, b),
            TypeError::IfCondition => TypeFault::IfCondition,
            TypeError::WhileCondition => TypeFault::WhileCondition,
            TypeError::ForCondition => TypeFault::ForCondition,
            TypeError::IndexNotPointer => TypeFault::IndexNotPointer,
            TypeError::NotPointer(a) => TypeFault::NotPointer(a),
            TypeError::FunctionNotDeclared(n) => TypeFault::FunctionNotDeclared(n@),
            TypeError::ArgCount(n) => TypeFault::ArgCount(n@),
            TypeError::ArgMismatch(k, n) => TypeFault::ArgMismatch(k, n@),
            TypeError::ReturnOutside => TypeFault::ReturnOutside,
            TypeError::BinOpNotAllowed(op, a, b) => TypeFault::BinOpNotAllowed(op, a, b),
            TypeError::SizeTooLarge => TypeFault::SizeTooLarge,
            TypeError::Unexpected => TypeFault::Unexpected,
        }
    }
}

/// How `{:?}` shows a type.
pub open spec fn type_text(t: Type) -> Seq<char>
    decreases t,
{
    match t {
        Type::Int => "Int"@,
        Type::Char => "Char"@,
        Type::Ptr(inner) => "Ptr("@ + type_text(*inner) + ")"@,
        Type::Array(inner, n) => "Array("@ + type_text(*inner) + ", "@ + decimal_nat(n as nat) + ")"@,
    }
}

impl Type {
    /// The type as `{:?}` shows it.
    pub fn debug_text(&self) -> (r: String)
        ensures
            r@ == type_text(*self),
        decreases self,
    {
        match self {
            Type::Int => String::from_str("Int"),
            Type::Char => String::from_str("Char"),
            Type::Ptr(inner) => {
                let mut r = String::from_str("Ptr(");
                r.append(inner.debug_text().as_str());
                r.append(")");
                r
            },
            Type::Array(inner, n) => {
                let mut r = String::from_str("Array(");
                r.append(inner.debug_text().as_str());
                r.append(", ");
                push_decimal_u64(&mut r, *n as u64);
                r.append(")");
                r
            },
        }
    }
}

/// The message of a type error.
pub open spec fn type_message(e: TypeFault) -> Seq<char> {
    match e {
        TypeFault::NotProgram => "top-level tree must be Program"@,
        TypeFault::DoubleFunction(n) => "double declaration of function: "@ + n,
        TypeFault::DuplicateGlobal(n) => "duplicate of global var: "@ + n,
        TypeFault::InvalidTopLevel => "invalid top-level tree"@,
        TypeFault::NoScope => "no scope for declaration"@,
        TypeFault::DoubleVariable(n) => "double declaration of variable: "@ + n,
        TypeFault::NotDeclared(n) => "not declared variable: "@ + n,
        TypeFault::NotTyped => "Not typed"@,
        TypeFault::NotLvalue => "not an lvalue"@,
        TypeFault::AssignMismatch(a, b) => "assign type mismatch: "@ + type_text(a) + " = "@ + type_text(b),
        TypeFault::IfCondition => "if condition must be int"@,
        TypeFault::WhileCondition => "while condition must be int"@,
        TypeFault::ForCondition => "for condition must be int"@,
        TypeFault::IndexNotPointer => "index access for not pointer"@,
        TypeFault::NotPointer(a) => type_text(a) + " is not ptr"@,
        TypeFault::FunctionNotDeclared(n) => n + " is not declared"@,
        TypeFault::ArgCount(n) => "invalid number of args for "@ + n,
        TypeFault::ArgMismatch(k, n) => "arg "@ + decimal_nat(k as nat) + " type mismatch for "@ + n,
        TypeFault::ReturnOutside => "return outside of function"@,
        TypeFault::BinOpNotAllowed(op, a, b) => op.text() + " for "@ + type_text(a) + " and "@ + type_text(b)
            + " is not allowed"@,
        TypeFault::SizeTooLarge => "size does not fit in memory"@,
        TypeFault::Unexpected => "unexpected tree"@,
    }
}

impl TypeError {
    /// The message of the error.
    pub fn message(&self) -> (r: String)
        ensures
            r@ == type_message(self@),
    {
        match self {
            TypeError::NotProgram => String::from_str("top-level tree must be Program"),
            TypeError::DoubleFunction(n) => {
                let mut r = String::from_str("double declaration of function: ");
                r.append(n.as_str());
                r
            },
            TypeError::DuplicateGlobal(n) => {
                let mut r = String::from_str("duplicate of global var: ");
                r.append(n.as_str());
                r
            },
            TypeError::InvalidTopLevel => String::from_str("invalid top-level tree"),
            TypeError::NoScope => String::from_str("no scope for declaration"),
            TypeError::DoubleVariable(n) => {
                let mut r = String::from_str("double declaration of variable: ");
                r.append(n.as_str());
                r
            },
            TypeError::NotDeclared(n) => {
                let mut r = String::from_str("not declared variable: ");
                r.append(n.as_str());
                r
            },
            TypeError::NotTyped => String::from_str("Not typed"),
            TypeError::NotLvalue => String::from_str("not an lvalue"),
            TypeError::AssignMismatch(a, b) => {
                let mut r = String::from_str("assign type mismatch: ");
                r.append(a.debug_text().as_str());
                r.append(" = ");
                r.append(b.debug_text().as_str());
                r
            },
            TypeError::IfCondition => String::from_str("if condition must be int"),
            TypeError::WhileCondition => String::from_str("while condition must be int"),
            TypeError::ForCondition => String::from_str("for condition must be int"),
            TypeError::IndexNotPointer => String::from_str("index access for not pointer"),
            TypeError::NotPointer(a) => {
                let mut r = a.debug_text();
                r.append(" is not ptr");
                r
            },
            TypeError::FunctionNotDeclared(n) => {
                let mut r = n.clone();
                r.append(" is not declared");
                r
            },
            TypeError::ArgCount(n) => {
                let mut r = String::from_str("invalid number of args for ");
                r.append(n.as_str());
                r
            },
            TypeError::ArgMismatch(k, n) => {
                let mut r = String::from_str("arg ");
                push_decimal_u64(&mut r, *k as u64);
                r.append(" type mismatch for ");
                r.append(n.as_str());
                r
            },
            TypeError::ReturnOutside => String::from_str("return outside of function"),
            TypeError::BinOpNotAllowed(op, a, b) => {
                let mut r = op.name();
                r.append(" for ");
                r.append(a.debug_text().as_str());
                r.append(" and ");
                r.append(b.debug_text().as_str());
                r.append(" is not allowed");
                r
            },
            TypeError::SizeTooLarge => String::from_str("size does not fit in memory"),
            TypeError::Unexpected => String::from_str("unexpected tree"),
        }
    }
}

/// Names bound to types, in the order they were declared.
pub type Env = Table<Type>;

/// The value of a type checker: its scopes (innermost last), the functions of the program with
/// their return and parameter types, the string literals with their labels, the globals, and the
/// return type of the function being checked.
pub struct CheckerState {
    pub scopes: Seq<Seq<(Seq<char>, Type)>>,
    pub functions: Seq<(Seq<char>, (Type, Seq<Type>))>,
    pub strings: Seq<(Seq<char>, Seq<char>)>,
    pub globals: Seq<(Seq<char>, Type)>,
    pub current_return: Option<Type>,
}

/// The type of a name in the innermost scope that declares it.
pub open spec fn lookup_scopes(scopes: Seq<Seq<(Seq<char>, Type)>>, name: Seq<char>) -> Option<Type>
    decreases scopes.len(),
{
    if scopes.len() == 0 {
        None
    } else {
        match find(scopes.last(), name) {
            Some(t) => Some(t),
            None => lookup_scopes(scopes.drop_last(), name),
        }
    }
}

/// The type of a name: from the innermost scope that declares it, else from the globals.
pub open spec fn spec_lookup(st: CheckerState, name: Seq<char>) -> Option<Type> {
    match lookup_scopes(st.scopes, name) {
        Some(t) => Some(t),
        None => find(st.globals, name),
    }
}

pub open spec fn enter(st: CheckerState) -> CheckerState {
    CheckerState { scopes: st.scopes.push(seq![]), ..st }
}

pub open spec fn exit(st: CheckerState) -> CheckerState {
    if st.scopes.len() == 0 {
        st
    } else {
        CheckerState { scopes: st.scopes.drop_last(), ..st }
    }
}

/// Declares `name` in the innermost scope.
pub open spec fn spec_declare(st: CheckerState, name: Seq<char>, ty: Type) -> Result<CheckerState, TypeFault> {
    if st.scopes.len() == 0 {
        Err(TypeFault::NoScope)
    } else if find(st.scopes.last(), name) is Some {
        Err(TypeFault::DoubleVariable(name))
    } else {
        Ok(
            CheckerState {
                scopes: st.scopes.update(st.scopes.len() - 1, st.scopes.last().push((name, ty))),
                ..st
            },
        )
    }
}

/// The label of the next string literal: `LC` and the number of literals so far.
pub open spec fn string_label(st: CheckerState) -> Seq<char> {
    seq!['L', 'C'] + decimal_nat(st.strings.len())
}

/// Records the string literal `s` under the next label.
pub open spec fn add_string(st: CheckerState, s: Seq<char>) -> CheckerState {
    CheckerState { strings: st.strings.push((string_label(st), s)), ..st }
}

/// The type of a typed expression.
pub open spec fn ty_of(t: Ast<Typed>) -> Option<Type> {
    match t {
        Ast::BinOp(_, _, _, ty) => Some(ty),
        Ast::Assign(_, _, ty) => Some(ty),
        Ast::Integer(_, ty) => Some(ty),
        Ast::String(_, ty) => Some(ty),
        Ast::Var(_, ty) => Some(ty),
        Ast::Addr(_, ty) => Some(ty),
        Ast::Deref(_, ty) => Some(ty),
        Ast::Indexed(_, _, ty) => Some(ty),
        Ast::Call(_, _, ty) => Some(ty),
        Ast::Return(_, ty) => Some(ty),
        _ => None,
    }
}

impl TypedTree for Tree<Typed> {
    open spec fn annotation(&self) -> Option<Type> {
        ty_of(ast(*self))
    }

    fn ty(&self) -> (r: &Type) {
        match self {
            Tree::BinOp(_, _, _, ty) => ty,
            Tree::Assign(_, _, ty) => ty,
            Tree::Integer(_, ty) => ty,
            Tree::String(_, ty) => ty,
            Tree::Var(_, ty) => ty,
            Tree::Addr(_, ty) => ty,
            Tree::Deref(_, ty) => ty,
            Tree::Indexed(_, _, ty) => ty,
            Tree::Call(_, _, ty) => ty,
            Tree::Return(_, ty) => ty,
            _ => vstd::pervasive::unreached(),
        }
    }
}

pub open spec fn is_lvalue(t: Ast<Typed>) -> bool {
    t is Var || t is Deref
}

pub open spec fn is_comparison(op: Op) -> bool {
    op == Op::Eq || op == Op::NotEq || op == Op::Gt || op == Op::Gte || op == Op::Lt || op == Op::Lte
}

pub open spec fn is_arith(t: Type) -> bool {
    t is Int || t is Char
}

/// The type of `l op r`, or `None` when the operator does not apply to these types.
pub open spec fn binop_type(op: Op, l: Type, r: Type) -> Option<Type> {
    if is_arith(l) && is_arith(r) {
        Some(Type::Int)
    } else if (op == Op::Add || op == Op::Sub) && l is Ptr && r is Int {
        Some(l)
    } else if op == Op::Add && l is Int && r is Ptr {
        Some(r)
    } else if op == Op::Sub && l is Ptr && r is Ptr && l->Ptr_0 == r->Ptr_0 {
        Some(Type::Int)
    } else if is_comparison(op) && l == r {
        Some(Type::Int)
    } else {
        None
    }
}

/// Whether a value of type `r` may be assigned to a place of type `l`.
pub open spec fn assignable(l: Type, r: Type) -> bool {
    l == r || (l is Int && r is Char) || (l is Char && r is Int)
}

pub open spec fn sized(st: CheckerState, ty: Type) -> Result<(CheckerState, Ast<Typed>), TypeFault> {
    if ty.size_fits() {
        Ok((st, Ast::Integer(ty.spec_size() as usize as i64, Type::Int)))
    } else {
        Err(TypeFault::SizeTooLarge)
    }
}

/// The first argument, from `k` on, whose type is not its parameter's.
pub open spec fn check_args(args: Seq<Ast<Typed>>, params: Seq<Type>, name: Seq<char>, k: int) -> Result<(), TypeFault>
    decreases args.len() - k,
{
    if !(0 <= k < args.len()) {
        Ok(())
    } else {
        match ty_of(args[k]) {
            None => Err(TypeFault::NotTyped),
            Some(t) => if t != params[k] {
                Err(TypeFault::ArgMismatch(k as usize, name))
            } else {
                check_args(args, params, name, k + 1)
            },
        }
    }
}

pub open spec fn opt_box(t: Option<Ast<Typed>>) -> Option<Box<Ast<Typed>>> {
    match t {
        Some(t) => Some(Box::new(t)),
        None => None,
    }
}

/// Checks an optional tree.
pub open spec fn sc_opt(st: CheckerState, t: Option<Box<Ast<Parsed>>>) -> Result<(CheckerState, Option<Ast<Typed>>), TypeFault>
    decreases t,
{
    match t {
        Some(b) => match sc_tree(st, *b) {
            Ok((s1, x)) => Ok((s1, Some(x))),
            Err(e) => Err(e),
        },
        None => Ok((st, None)),
    }
}

/// Type-checks a tree in the state `st`: the new state and the typed tree, or the first fault.
pub open spec fn sc_tree(st: CheckerState, t: Ast<Parsed>) -> Result<(CheckerState, Ast<Typed>), TypeFault>
    decreases t,
{
    match t {
        Ast::Sizeof(e) => match *e {
            Ast::Var(name, _) => match spec_lookup(st, name) {
                Some(ty) => sized(st, ty),
                None => Err(TypeFault::NotDeclared(name)),
            },
            _ => match sc_tree(st, *e) {
                Ok((s1, te)) => match ty_of(te) {
                    Some(ty) => sized(s1, ty),
                    None => Err(TypeFault::NotTyped),
                },
                Err(x) => Err(x),
            },
        },
        Ast::BinOp(op, l, r, _) => match sc_tree(st, *l) {
            Ok((s1, tl)) => match sc_tree(s1, *r) {
                Ok((s2, tr)) => match (ty_of(tl), ty_of(tr)) {
                    (Some(a), Some(b)) => match binop_type(op, a, b) {
                        Some(ty) => Ok((s2, Ast::BinOp(op, Box::new(tl), Box::new(tr), ty))),
                        None => Err(TypeFault::BinOpNotAllowed(op, a, b)),
                    },
                    _ => Err(TypeFault::NotTyped),
                },
                Err(x) => Err(x),
            },
            Err(x) => Err(x),
        },
        Ast::Assign(l, r, _) => match sc_tree(st, *l) {
            Ok((s1, tl)) => match sc_tree(s1, *r) {
                Ok((s2, tr)) => match ty_of(tl) {
                    Some(a) => if !is_lvalue(tl) {
                        Err(TypeFault::NotLvalue)
                    } else {
                        match ty_of(tr) {
                            Some(b) => if assignable(a, b) {
                                Ok((s2, Ast::Assign(Box::new(tl), Box::new(tr), a)))
                            } else {
                                Err(TypeFault::AssignMismatch(a, b))
                            },
                            None => Err(TypeFault::NotTyped),
                        }
                    },
                    None => Err(TypeFault::NotTyped),
                },
                Err(x) => Err(x),
            },
            Err(x) => Err(x),
        },
        Ast::Block(stmts) => match sc_seq(enter(st), stmts) {
            Ok((s1, ts)) => Ok((exit(s1), Ast::Block(ts))),
            Err(x) => Err(x),
        },
        Ast::If(c, a, b) => match sc_tree(st, *c) {
            Ok((s1, tc)) => match ty_of(tc) {
                Some(ct) => if ct != Type::Int {
                    Err(TypeFault::IfCondition)
                } else {
                    match sc_tree(s1, *a) {
                        Ok((s2, ta)) => match sc_opt(s2, b) {
                            Ok((s3, tb)) => Ok((s3, Ast::If(Box::new(tc), Box::new(ta), opt_box(tb)))),
                            Err(x) => Err(x),
                        },
                        Err(x) => Err(x),
                    }
                },
                None => Err(TypeFault::NotTyped),
            },
            Err(x) => Err(x),
        },
        Ast::While(c, body) => match sc_tree(st, *c) {
            Ok((s1, tc)) => match ty_of(tc) {
                Some(ct) => if ct != Type::Int {
                    Err(TypeFault::WhileCondition)
                } else {
                    match sc_tree(s1, *body) {
                        Ok((s2, tb)) => Ok((s2, Ast::While(Box::new(tc), Box::new(tb)))),
                        Err(x) => Err(x),
                    }
                },
                None => Err(TypeFault::NotTyped),
            },
            Err(x) => Err(x),
        },
        Ast::For(init, cond, upd, body) => match sc_opt(st, init) {
            Ok((s1, ti)) => match sc_opt(s1, cond) {
                Ok((s2, tc)) => match sc_opt(s2, upd) {
                    Ok((s3, tu)) => {
                        let cond_ok = match tc {
                            Some(c) => match ty_of(c) {
                                Some(ct) => if ct != Type::Int {
                                    Err(TypeFault::ForCondition)
                                } else {
                                    Ok(())
                                },
                                None => Err(TypeFault::NotTyped),
                            },
                            None => Ok(()),
                        };
                        match cond_ok {
                            Ok(()) => match sc_tree(s3, *body) {
                                Ok((s4, tb)) => Ok(
                                    (s4, Ast::For(opt_box(ti), opt_box(tc), opt_box(tu), Box::new(tb))),
                                ),
                                Err(x) => Err(x),
                            },
                            Err(x) => Err(x),
                        }
                    },
                    Err(x) => Err(x),
                },
                Err(x) => Err(x),
            },
            Err(x) => Err(x),
        },
        Ast::Integer(n, _) => Ok((st, Ast::Integer(n, Type::Int))),
        Ast::String(s, _) => Ok(
            (
                add_string(st, s),
                Ast::String(string_label(st), Type::Ptr(Box::new(Type::Char))),
            ),
        ),
        Ast::Var(name, _) => match spec_lookup(st, name) {
            Some(ty) => match ty {
                Type::Array(inner, _) => Ok(
                    (st, Ast::Addr(Box::new(Ast::Var(name, *inner)), Type::Ptr(inner))),
                ),
                _ => Ok((st, Ast::Var(name, ty))),
            },
            None => Err(TypeFault::NotDeclared(name)),
        },
        Ast::Indexed(l, r, _) => match sc_tree(st, *l) {
            Ok((s1, tl)) => match sc_tree(s1, *r) {
                Ok((s2, tr)) => match (ty_of(tl), ty_of(tr)) {
                    (Some(a), Some(b)) => match binop_type(Op::Add, a, b) {
                        Some(ty) => match ty {
                            Type::Ptr(inner) => Ok(
                                (
                                    s2,
                                    Ast::Deref(
                                        Box::new(Ast::BinOp(Op::Add, Box::new(tl), Box::new(tr), ty)),
                                        *inner,
                                    ),
                                ),
                            ),
                            _ => Err(TypeFault::IndexNotPointer),
                        },
                        None => Err(TypeFault::BinOpNotAllowed(Op::Add, a, b)),
                    },
                    _ => Err(TypeFault::NotTyped),
                },
                Err(x) => Err(x),
            },
            Err(x) => Err(x),
        },
        Ast::VarDeclare(ty, name) => match spec_declare(st, name, ty) {
            Ok(s1) => Ok((s1, Ast::VarDeclare(ty, name))),
            Err(x) => Err(x),
        },
        Ast::Addr(e, _) => match sc_tree(st, *e) {
            Ok((s1, te)) => if !is_lvalue(te) {
                Err(TypeFault::NotLvalue)
            } else {
                match ty_of(te) {
                    Some(ty) => Ok((s1, Ast::Addr(Box::new(te), Type::Ptr(Box::new(ty))))),
                    None => Err(TypeFault::NotTyped),
                }
            },
            Err(x) => Err(x),
        },
        Ast::Deref(e, _) => match sc_tree(st, *e) {
            Ok((s1, te)) => match ty_of(te) {
                Some(ty) => match ty {
                    Type::Ptr(inner) => Ok((s1, Ast::Deref(Box::new(te), *inner))),
                    _ => Err(TypeFault::NotPointer(ty)),
                },
                None => Err(TypeFault::NotTyped),
            },
            Err(x) => Err(x),
        },
        Ast::Call(name, args, _) => match find(st.functions, name) {
            Some((ret, params)) => if params.len() != args.len() {
                Err(TypeFault::ArgCount(name))
            } else {
                match sc_seq(st, args) {
                    Ok((s1, targs)) => match check_args(targs, params, name, 0) {
                        Ok(()) => Ok((s1, Ast::Call(name, targs, ret))),
                        Err(x) => Err(x),
                    },
                    Err(x) => Err(x),
                }
            },
            None => Err(TypeFault::FunctionNotDeclared(name)),
        },
        Ast::Return(e, _) => match sc_tree(st, *e) {
            Ok((s1, te)) => if s1.current_return is None {
                Err(TypeFault::ReturnOutside)
            } else {
                match ty_of(te) {
                    Some(ty) => Ok((s1, Ast::Return(Box::new(te), ty))),
                    None => Err(TypeFault::NotTyped),
                }
            },
            Err(x) => Err(x),
        },
        _ => Err(TypeFault::Unexpected),
    }
}

/// Type-checks a sequence of trees in order, each in the state the previous one left.
pub open spec fn sc_seq(st: CheckerState, s: Seq<Ast<Parsed>>) -> Result<(CheckerState, Seq<Ast<Typed>>), TypeFault>
    decreases s,
{
    if s.len() == 0 {
        Ok((st, seq![]))
    } else {
        match sc_tree(st, s[0]) {
            Ok((s1, t0)) => match sc_seq(s1, s.drop_first()) {
                Ok((s2, ts)) => Ok((s2, seq![t0] + ts)),
                Err(x) => Err(x),
            },
            Err(x) => Err(x),
        }
    }
}

/// The parameters of a function, in order: declared one after the other.
pub open spec fn sc_params(st: CheckerState, ps: Seq<(Type, Seq<char>)>) -> Result<CheckerState, TypeFault>
    decreases ps.len(),
{
    if ps.len() == 0 {
        Ok(st)
    } else {
        match spec_declare(st, ps[0].1, ps[0].0) {
            Ok(s1) => sc_params(s1, ps.drop_first()),
            Err(x) => Err(x),
        }
    }
}

/// A top-level item: a function, checked in a scope of its parameters, or a global, which
/// goes to the globals and leaves no tree.
pub open spec fn sc_top(st: CheckerState, t: Ast<Parsed>) -> Result<(CheckerState, Option<Ast<Typed>>), TypeFault> {
    match t {
        Ast::FuncDef(ty, name, params, body) => {
            let s1 = enter(CheckerState { current_return: Some(ty), ..st });
            match sc_params(s1, params) {
                Ok(s2) => match sc_tree(s2, *body) {
                    Ok((s3, tb)) => Ok(
                        (
                            CheckerState { current_return: st.current_return, ..exit(s3) },
                            Some(Ast::FuncDef(ty, name, params, Box::new(tb))),
                        ),
                    ),
                    Err(x) => Err(x),
                },
                Err(x) => Err(x),
            }
        },
        Ast::VarDeclare(ty, name) => if find(st.globals, name) is Some {
            Err(TypeFault::DuplicateGlobal(name))
        } else {
            Ok((CheckerState { globals: st.globals.push((name, ty)), ..st }, None))
        },
        _ => Err(TypeFault::InvalidTopLevel),
    }
}

/// The top-level items, in order; the functions among them, typed.
pub open spec fn sc_tops(st: CheckerState, s: Seq<Ast<Parsed>>) -> Result<(CheckerState, Seq<Ast<Typed>>), TypeFault>
    decreases s.len(),
{
    if s.len() == 0 {
        Ok((st, seq![]))
    } else {
        match sc_top(st, s[0]) {
            Ok((s1, t0)) => match sc_tops(s1, s.drop_first()) {
                Ok((s2, ts)) => Ok(
                    (
                        s2,
                        match t0 {
                            Some(t) => seq![t] + ts,
                            None => ts,
                        },
                    ),
                ),
                Err(x) => Err(x),
            },
            Err(x) => Err(x),
        }
    }
}

/// The signature of a function: its return type and the types of its parameters.
pub open spec fn signature(ty: Type, params: Seq<(Type, Seq<char>)>) -> (Type, Seq<Type>) {
    (ty, params.map_values(|p: (Type, Seq<char>)| p.0))
}

/// The functions of the top-level items `s`, appended to `fs`; a name defined twice is a fault.
pub open spec fn sc_functions(fs: Seq<(Seq<char>, (Type, Seq<Type>))>, s: Seq<Ast<Parsed>>) -> Result<Seq<(Seq<char>, (Type, Seq<Type>))>, TypeFault>
    decreases s.len(),
{
    if s.len() == 0 {
        Ok(fs)
    } else {
        match s[0] {
            Ast::FuncDef(ty, name, params, _) => if find(fs, name) is Some {
                Err(TypeFault::DoubleFunction(name))
            } else {
                sc_functions(fs.push((name, signature(ty, params))), s.drop_first())
            },
            _ => sc_functions(fs, s.drop_first()),
        }
    }
}

/// The state `st` with the functions `fs`.
pub open spec fn with_functions(st: CheckerState, fs: Seq<(Seq<char>, (Type, Seq<Type>))>) -> CheckerState {
    CheckerState { functions: fs, ..st }
}

/// Type-checks a program: collects its functions, then checks its items in order.
pub open spec fn sc_check(st: CheckerState, t: Ast<Parsed>) -> Result<(CheckerState, Ast<Typed>), TypeFault> {
    match t {
        Ast::Program(items) => match sc_functions(seq![], items) {
            Ok(fs) => match sc_tops(with_functions(st, fs), items) {
                Ok((s1, ts)) => Ok((s1, Ast::Program(ts))),
                Err(x) => Err(x),
            },
            Err(x) => Err(x),
        },
        _ => Err(TypeFault::NotProgram),
    }
}

/// Checking a sequence gives as many typed trees.
pub proof fn lemma_sc_seq_len(st: CheckerState, s: Seq<Ast<Parsed>>)
    ensures
        sc_seq(st, s) matches Ok((_, ts)) ==> ts.len() == s.len(),
    decreases s.len(),
{
    if s.len() > 0 {
        match sc_tree(st, s[0]) {
            Ok((s1, _)) => lemma_sc_seq_len(s1, s.drop_first()),
            Err(_) => {},
        }
    }
}

/// `r` and `after` are the outcome `s` of a check.
pub open spec fn checked(r: Result<Tree<Typed>, TypeError>, after: CheckerState, s: Result<(CheckerState, Ast<Typed>), TypeFault>) -> bool {
    match s {
        Ok((st, a)) => match r {
            Ok(t) => ast(t) == a && after == st,
            Err(_) => false,
        },
        Err(e) => match r {
            Err(x) => x@ == e,
            Ok(_) => false,
        },
    }
}

/// The type of a typed tree, if it has one.
pub fn tree_ty(t: &Tree<Typed>) -> (r: Option<Type>)
    ensures
        r == ty_of(ast(*t)),
{
    match t {
        Tree::BinOp(_, _, _, ty) => Some(ty.clone()),
        Tree::Assign(_, _, ty) => Some(ty.clone()),
        Tree::Integer(_, ty) => Some(ty.clone()),
        Tree::String(_, ty) => Some(ty.clone()),
        Tree::Var(_, ty) => Some(ty.clone()),
        Tree::Addr(_, ty) => Some(ty.clone()),
        Tree::Deref(_, ty) => Some(ty.clone()),
        Tree::Indexed(_, _, ty) => Some(ty.clone()),
        Tree::Call(_, _, ty) => Some(ty.clone()),
        Tree::Return(_, ty) => Some(ty.clone()),
        _ => None,
    }
}

fn is_lvalue_exec(t: &Tree<Typed>) -> (r: bool)
    ensures
        r == is_lvalue(ast(*t)),
{
    match t {
        Tree::Var(..) => true,
        Tree::Deref(..) => true,
        _ => false,
    }
}

fn binop_type_exec(op: Op, l: &Type, r: &Type) -> (res: Option<Type>)
    ensures
        res == binop_type(op, *l, *r),
{
    let l_arith = match l {
        Type::Int | Type::Char => true,
        _ => false,
    };
    let r_arith = match r {
        Type::Int | Type::Char => true,
        _ => false,
    };
    if l_arith && r_arith {
        return Some(Type::Int);
    }
    match (op, l, r) {
        (Op::Add, Type::Ptr(_), Type::Int) | (Op::Sub, Type::Ptr(_), Type::Int) => Some(l.clone()),
        (Op::Add, Type::Int, Type::Ptr(_)) => Some(r.clone()),
        (Op::Sub, Type::Ptr(a), Type::Ptr(b)) => if (**a).same(&**b) {
            Some(Type::Int)
        } else {
            None
        },
        _ => {
            let cmp_op = match op {
                Op::Eq | Op::NotEq | Op::Gt | Op::Gte | Op::Lt | Op::Lte => true,
                _ => false,
            };
            if cmp_op && l.same(r) {
                Some(Type::Int)
            } else {
                None
            }
        },
    }
}

fn assignable_exec(l: &Type, r: &Type) -> (res: bool)
    ensures
        res == assignable(*l, *r),
{
    if l.same(r) {
        return true;
    }
    match (l, r) {
        (Type::Int, Type::Char) => true,
        (Type::Char, Type::Int) => true,
        _ => false,
    }
}

fn clone_types(v: &Vec<Type>) -> (r: Vec<Type>)
    ensures
        r@ == v@,
{
    let mut r: Vec<Type> = Vec::new();
    let mut k: usize = 0;
    while k < v.len()
        invariant
            k <= v@.len(),
            r@ == v@.take(k as int),
        decreases v@.len() - k,
    {
        r.push(v[k].clone());
        assert(v@.take(k + 1) =~= v@.take(k as int).push(v@[k as int]));
        k = k + 1;
    }
    assert(v@.take(v@.len() as int) =~= v@);
    r
}

/// Checks a tree of type `Tree<Typed>` from one of type `Tree<Parsed>`, threading the state.
pub struct TypeChecker {
    env: Vec<Env>,
    functions: Table<(Type, Vec<Type>)>,
    strings: Table<String>,
    globals: Env,
    current_return: Option<Type>,
}

impl View for TypeChecker {
    type V = CheckerState;

    closed spec fn view(&self) -> CheckerState {
        CheckerState {
            scopes: self.env@.map_values(|e: Env| e@),
            functions: self.functions@,
            strings: self.strings@,
            globals: self.globals@,
            current_return: self.current_return,
        }
    }
}

impl TypeChecker {
    /// A checker with no scope, function, string or global.
    pub fn new() -> (r: Self)
        ensures
            r@.scopes.len() == 0,
            r@.functions.len() == 0,
            r@.strings.len() == 0,
            r@.globals.len() == 0,
            r@.current_return is None,
    {
        let r = TypeChecker {
            env: Vec::new(),
            functions: Table::new(),
            strings: Table::new(),
            globals: Table::new(),
            current_return: None,
        };
        assert(r@.scopes =~= seq![]);
        r
    }

    /// The global variables declared so far, in order.
    pub fn globals(&self) -> (r: &Env)
        ensures
            r@ == self@.globals,
    {
        &self.globals
    }

    /// The string literals met so far, by label, in order.
    pub fn strings(&self) -> (r: &Table<String>)
        ensures
            r@ == self@.strings,
    {
        &self.strings
    }

    /// Opens a new innermost scope.
    pub fn enter_scope(&mut self)
        ensures
            final(self)@ == enter(old(self)@),
    {
        self.env.push(Table::new());
        assert(self@.scopes =~= old(self)@.scopes.push(seq![]));
    }

    /// Closes the innermost scope, if there is one.
    pub fn exit_scope(&mut self)
        ensures
            final(self)@ == exit(old(self)@),
    {
        if self.env.len() > 0 {
            self.env.pop();
            assert(self@.scopes =~= old(self)@.scopes.drop_last());
        }
    }

    /// Declares `name` in the innermost scope, which must exist and not declare it yet.
    pub fn declare(&mut self, name: String, ty: Type)
        requires
            spec_declare(old(self)@, name@, ty) is Ok,
        ensures
            final(self)@ == spec_declare(old(self)@, name@, ty)->Ok_0,
    {
        let mut scope = self.env.pop().unwrap();
        let ghost n = name@;
        scope.push(name, ty);
        self.env.push(scope);
        assert(self@.scopes =~= old(self)@.scopes.update(
            old(self)@.scopes.len() - 1,
            old(self)@.scopes.last().push((n, ty)),
        ));
    }

    /// Declares `name` in the innermost scope, or gives the fault when there is no scope or the
    /// scope declares it already.
    pub fn declare_result(&mut self, name: String, ty: Type) -> (r: Result<(), TypeError>)
        ensures
            match spec_declare(old(self)@, name@, ty) {
                Ok(st) => r is Ok && final(self)@ == st,
                Err(e) => r matches Err(x) && x@ == e,
            },
    {
        if self.env.len() == 0 {
            return Err(TypeError::NoScope);
        }
        let last = self.env.len() - 1;
        if self.env[last].contains_key(name.as_str()) {
            return Err(TypeError::DoubleVariable(name));
        }
        self.declare(name, ty);
        Ok(())
    }

    /// The type of `name`: from the innermost scope that declares it, else from the globals.
    pub fn lookup(&self, name: &str) -> (r: Option<Type>)
        ensures
            r == spec_lookup(self@, name@),
    {
        let ghost scopes = self@.scopes;
        let mut k = self.env.len();
        assert(scopes.take(k as int) =~= scopes);
        while k > 0
            invariant
                k <= scopes.len(),
                scopes == self@.scopes,
                scopes.len() == self.env@.len(),
                lookup_scopes(scopes, name@) == lookup_scopes(scopes.take(k as int), name@),
            decreases k,
        {
            k = k - 1;
            assert(scopes.take(k + 1).last() == scopes[k as int]);
            assert(scopes.take(k + 1).drop_last() =~= scopes.take(k as int));
            match self.env[k].get(name) {
                Some(t) => {
                    return Some(t.clone());
                },
                None => {},
            }
        }
        match self.globals.get(name) {
            Some(t) => Some(t.clone()),
            None => None,
        }
    }

    /// Records a string literal and gives its label, `LC` and the number of literals before it.
    pub fn add_string_literal(&mut self, s: &str) -> (label: String)
        ensures
            label@ == string_label(old(self)@),
            final(self)@ == add_string(old(self)@, s@),
    {
        let mut label = String::from_str("LC");
        proof {
            reveal_strlit("LC");
            assert(label@ =~= seq!['L', 'C']);
        }
        push_decimal_u64(&mut label, self.strings.len() as u64);
        let content = String::from_str(s);
        self.strings.push(label.clone(), content);
        label
    }

    fn sized_tree(ty: &Type) -> (r: Result<Tree<Typed>, TypeError>)
        ensures
            match sized(CheckerState { scopes: seq![], functions: seq![], strings: seq![], globals: seq![], current_return: None }, *ty) {
                Ok((_, a)) => r matches Ok(t) && ast(t) == a,
                Err(e) => r matches Err(x) && x@ == e,
            },
    {
        match ty.checked_size() {
            Some(n) => Ok(Tree::Integer(n as i64, Type::Int)),
            None => Err(TypeError::SizeTooLarge),
        }
    }

    fn check_sizeof(&mut self, tree: &Tree<Parsed>) -> (r: Result<Tree<Typed>, TypeError>)
        requires
            tree is Sizeof,
        ensures
            checked(r, final(self)@, sc_tree(old(self)@, ast(*tree))),
        decreases tree, 0int,
    {
        match tree {
            Tree::Sizeof(e) => {
                match &**e {
                    Tree::Var(name, _) => {
                        assert(ast(**e) == Ast::<Parsed>::Var(name@, ()));
                        match self.lookup(name.as_str()) {
                            Some(ty) => Self::sized_tree(&ty),
                            None => Err(TypeError::NotDeclared(name.clone())),
                        }
                    },
                    _ => {
                        assert(!(ast(**e) is Var));
                        match self.check_tree_result(&**e) {
                            Ok(te) => match tree_ty(&te) {
                                Some(ty) => Self::sized_tree(&ty),
                                None => Err(TypeError::NotTyped),
                            },
                            Err(x) => Err(x),
                        }
                    },
                }
            },
            _ => Err(TypeError::Unexpected),
        }
    }

    /// The typed tree of `lhs op rhs`, for typed operands whose types `op` accepts.
    pub fn check_binop(&self, op: Op, lhs: Tree<Typed>, rhs: Tree<Typed>) -> (r: Tree<Typed>)
        requires
            ty_of(ast(lhs)) is Some,
            ty_of(ast(rhs)) is Some,
            binop_type(op, ty_of(ast(lhs))->Some_0, ty_of(ast(rhs))->Some_0) is Some,
        ensures
            ast(r) == Ast::BinOp(
                op,
                Box::new(ast(lhs)),
                Box::new(ast(rhs)),
                binop_type(op, ty_of(ast(lhs))->Some_0, ty_of(ast(rhs))->Some_0)->Some_0,
            ),
    {
        let a = tree_ty(&lhs).unwrap();
        let b = tree_ty(&rhs).unwrap();
        let ty = binop_type_exec(op, &a, &b).unwrap();
        Tree::BinOp(op, Box::new(lhs), Box::new(rhs), ty)
    }

    /// The typed tree of `lhs op rhs`, or the fault when an operand has no type or `op` does not
    /// accept their types.
    pub fn check_binop_result(&self, op: Op, lhs: Tree<Typed>, rhs: Tree<Typed>) -> (r: Result<Tree<Typed>, TypeError>)
        ensures
            match (ty_of(ast(lhs)), ty_of(ast(rhs))) {
                (Some(a), Some(b)) => match binop_type(op, a, b) {
                    Some(ty) => r matches Ok(t) && ast(t) == Ast::BinOp(op, Box::new(ast(lhs)), Box::new(ast(rhs)), ty),
                    None => r matches Err(x) && x@ == TypeFault::BinOpNotAllowed(op, a, b),
                },
                _ => r matches Err(x) && x@ == TypeFault::NotTyped,
            },
    {
        match (tree_ty(&lhs), tree_ty(&rhs)) {
            (Some(a), Some(b)) => match binop_type_exec(op, &a, &b) {
                Some(_) => Ok(self.check_binop(op, lhs, rhs)),
                None => Err(TypeError::BinOpNotAllowed(op, a, b)),
            },
            _ => Err(TypeError::NotTyped),
        }
    }

    fn check_binop_tree(&mut self, tree: &Tree<Parsed>) -> (r: Result<Tree<Typed>, TypeError>)
        requires
            tree is BinOp,
        ensures
            checked(r, final(self)@, sc_tree(old(self)@, ast(*tree))),
        decreases tree, 0int,
    {
        match tree {
            Tree::BinOp(op, l, r, _) => {
                let tl = match self.check_tree_result(&**l) {
                    Ok(t) => t,
                    Err(x) => return Err(x),
                };
                let tr = match self.check_tree_result(&**r) {
                    Ok(t) => t,
                    Err(x) => return Err(x),
                };
                self.check_binop_result(*op, tl, tr)
            },
            _ => Err(TypeError::Unexpected),
        }
    }

    fn check_assign(&mut self, tree: &Tree<Parsed>) -> (r: Result<Tree<Typed>, TypeError>)
        requires
            tree is Assign,
        ensures
            checked(r, final(self)@, sc_tree(old(self)@, ast(*tree))),
        decreases tree, 0int,
    {
        match tree {
            Tree::Assign(l, r, _) => {
                let tl = match self.check_tree_result(&**l) {
                    Ok(t) => t,
                    Err(x) => return Err(x),
                };
                let tr = match self.check_tree_result(&**r) {
                    Ok(t) => t,
                    Err(x) => return Err(x),
                };
                let a = match tree_ty(&tl) {
                    Some(a) => a,
                    None => return Err(TypeError::NotTyped),
                };
                if !is_lvalue_exec(&tl) {
                    return Err(TypeError::NotLvalue);
                }
                let b = match tree_ty(&tr) {
                    Some(b) => b,
                    None => return Err(TypeError::NotTyped),
                };
                if assignable_exec(&a, &b) {
                    Ok(Tree::Assign(Box::new(tl), Box::new(tr), a))
                } else {
                    Err(TypeError::AssignMismatch(a, b))
                }
            },
            _ => Err(TypeError::Unexpected),
        }
    }

    fn check_seq(&mut self, v: &Vec<Tree<Parsed>>) -> (r: Result<Vec<Tree<Typed>>, TypeError>)
        ensures
            match sc_seq(old(self)@, asts(v@)) {
                Ok((st, ts)) => r matches Ok(w) && asts(w@) == ts && final(self)@ == st,
                Err(e) => r matches Err(x) && x@ == e,
            },
        decreases v, 1int,
    {
        let ghost s = asts(v@);
        proof {
            lemma_asts(v@);
        }
        let mut out: Vec<Tree<Typed>> = Vec::new();
        let mut k: usize = 0;
        proof {
            assert(s.skip(0) =~= s);
            assert(asts(out@) =~= seq![]);
        }
        while k < v.len()
            invariant
                k <= v@.len(),
                s == asts(v@),
                s.len() == v@.len(),
                forall|j: int| 0 <= j < v@.len() ==> #[trigger] s[j] == ast(v@[j]),
                sc_seq(old(self)@, s) == match sc_seq(self@, s.skip(k as int)) {
                    Ok((st, ts)) => Ok((st, asts(out@) + ts)),
                    Err(e) => Err(e),
                },
            decreases v@.len() - k,
        {
            let ghost before = self@;
            assert(s.skip(k as int)[0] == s[k as int]);
            assert(s.skip(k as int).drop_first() =~= s.skip(k + 1));
            assert(decreases_to!(v => v@[k as int]));
            match self.check_tree_result(&v[k]) {
                Ok(t) => {
                    let ghost old_out = asts(out@);
                    proof {
                        let rest = s.skip(k as int);
                        assert(sc_tree(before, rest[0]) == Ok::<(CheckerState, Ast<Typed>), TypeFault>((self@, ast(t))));
                        assert(sc_seq(before, rest) == match sc_seq(self@, s.skip(k + 1)) {
                            Ok((st, ts)) => Ok((st, seq![ast(t)] + ts)),
                            Err(e) => Err(e),
                        });
                        lemma_asts_push(out@, t);
                    }
                    out.push(t);
                    proof {
                        match sc_seq(self@, s.skip(k + 1)) {
                            Ok((st, ts)) => {
                                assert(asts(out@) + ts =~= old_out + (seq![ast(t)] + ts));
                            },
                            Err(_) => {},
                        }
                    }
                },
                Err(x) => {
                    return Err(x);
                },
            }
            k = k + 1;
        }
        proof {
            assert(s.skip(k as int) =~= seq![]);
            assert(asts(out@) + seq![] =~= asts(out@));
        }
        Ok(out)
    }

    fn check_block(&mut self, tree: &Tree<Parsed>) -> (r: Result<Tree<Typed>, TypeError>)
        requires
            tree is Block,
        ensures
            checked(r, final(self)@, sc_tree(old(self)@, ast(*tree))),
        decreases tree, 0int,
    {
        match tree {
            Tree::Block(stmts) => {
                self.enter_scope();
                match self.check_seq(stmts) {
                    Ok(ts) => {
                        self.exit_scope();
                        Ok(Tree::Block(ts))
                    },
                    Err(x) => Err(x),
                }
            },
            _ => Err(TypeError::Unexpected),
        }
    }

    fn check_opt(&mut self, t: &Option<Box<Tree<Parsed>>>) -> (r: Result<Option<Box<Tree<Typed>>>, TypeError>)
        ensures
            match sc_opt(old(self)@, opt_ast(*t)) {
                Ok((st, o)) => r matches Ok(w) && opt_ast(w) == opt_box(o) && final(self)@ == st,
                Err(e) => r matches Err(x) && x@ == e,
            },
        decreases t, 1int,
    {
        match t {
            Some(b) => match self.check_tree_result(&**b) {
                Ok(x) => {
                    let w = Some(Box::new(x));
                    assert(opt_ast(w) == Some(Box::new(ast(x))));
                    Ok(w)
                },
                Err(e) => Err(e),
            },
            None => {
                assert(opt_ast::<Typed>(None) == None::<Box<Ast<Typed>>>);
                Ok(None)
            },
        }
    }


    fn check_if(&mut self, tree: &Tree<Parsed>) -> (r: Result<Tree<Typed>, TypeError>)
        requires
            tree is If,
        ensures
            checked(r, final(self)@, sc_tree(old(self)@, ast(*tree))),
        decreases tree, 0int,
    {
        match tree {
            Tree::If(c, a, b) => {
                let tc = match self.check_tree_result(&**c) {
                    Ok(t) => t,
                    Err(x) => return Err(x),
                };
                match tree_ty(&tc) {
                    Some(ct) => if !ct.same(&Type::Int) {
                        return Err(TypeError::IfCondition);
                    },
                    None => return Err(TypeError::NotTyped),
                }
                let ta = match self.check_tree_result(&**a) {
                    Ok(t) => t,
                    Err(x) => return Err(x),
                };
                let tb = match self.check_opt(b) {
                    Ok(t) => t,
                    Err(x) => return Err(x),
                };
                Ok(Tree::If(Box::new(tc), Box::new(ta), tb))
            },
            _ => Err(TypeError::Unexpected),
        }
    }

    fn check_while(&mut self, tree: &Tree<Parsed>) -> (r: Result<Tree<Typed>, TypeError>)
        requires
            tree is While,
        ensures
            checked(r, final(self)@, sc_tree(old(self)@, ast(*tree))),
        decreases tree, 0int,
    {
        match tree {
            Tree::While(c, body) => {
                let tc = match self.check_tree_result(&**c) {
                    Ok(t) => t,
                    Err(x) => return Err(x),
                };
                match tree_ty(&tc) {
                    Some(ct) => if !ct.same(&Type::Int) {
                        return Err(TypeError::WhileCondition);
                    },
                    None => return Err(TypeError::NotTyped),
                }
                let tb = match self.check_tree_result(&**body) {
                    Ok(t) => t,
                    Err(x) => return Err(x),
                };
                Ok(Tree::While(Box::new(tc), Box::new(tb)))
            },
            _ => Err(TypeError::Unexpected),
        }
    }

    fn check_for(&mut self, tree: &Tree<Parsed>) -> (r: Result<Tree<Typed>, TypeError>)
        requires
            tree is For,
        ensures
            checked(r, final(self)@, sc_tree(old(self)@, ast(*tree))),
        decreases tree, 0int,
    {
        match tree {
            Tree::For(init, cond, upd, body) => {
                let ti = match self.check_opt(init) {
                    Ok(t) => t,
                    Err(x) => return Err(x),
                };
                let tc = match self.check_opt(cond) {
                    Ok(t) => t,
                    Err(x) => return Err(x),
                };
                let tu = match self.check_opt(upd) {
                    Ok(t) => t,
                    Err(x) => return Err(x),
                };
                match &tc {
                    Some(c) => match tree_ty(&**c) {
                        Some(ct) => if !ct.same(&Type::Int) {
                            return Err(TypeError::ForCondition);
                        },
                        None => return Err(TypeError::NotTyped),
                    },
                    None => {},
                }
                let tb = match self.check_tree_result(&**body) {
                    Ok(t) => t,
                    Err(x) => return Err(x),
                };
                Ok(Tree::For(ti, tc, tu, Box::new(tb)))
            },
            _ => Err(TypeError::Unexpected),
        }
    }

    fn check_var(&mut self, tree: &Tree<Parsed>) -> (r: Result<Tree<Typed>, TypeError>)
        requires
            tree is Var,
        ensures
            checked(r, final(self)@, sc_tree(old(self)@, ast(*tree))),
    {
        match tree {
            Tree::Var(name, _) => match self.lookup(name.as_str()) {
                Some(ty) => match ty {
                    Type::Array(inner, _) => {
                        let elem = (*inner).clone();
                        let var = Tree::Var(name.clone(), elem);
                        assert(ast(var) == Ast::<Typed>::Var(name@, *inner));
                        Ok(Tree::Addr(Box::new(var), Type::Ptr(inner)))
                    },
                    _ => Ok(Tree::Var(name.clone(), ty)),
                },
                None => Err(TypeError::NotDeclared(name.clone())),
            },
            _ => Err(TypeError::Unexpected),
        }
    }

    fn check_indexed(&mut self, tree: &Tree<Parsed>) -> (r: Result<Tree<Typed>, TypeError>)
        requires
            tree is Indexed,
        ensures
            checked(r, final(self)@, sc_tree(old(self)@, ast(*tree))),
        decreases tree, 0int,
    {
        match tree {
            Tree::Indexed(l, r, _) => {
                let tl = match self.check_tree_result(&**l) {
                    Ok(t) => t,
                    Err(x) => return Err(x),
                };
                let tr = match self.check_tree_result(&**r) {
                    Ok(t) => t,
                    Err(x) => return Err(x),
                };
                match (tree_ty(&tl), tree_ty(&tr)) {
                    (Some(a), Some(b)) => match binop_type_exec(Op::Add, &a, &b) {
                        Some(ty) => match &ty {
                            Type::Ptr(inner) => {
                                let elem = (**inner).clone();
                                let ghost gty = ty;
                                let sum = Tree::BinOp(Op::Add, Box::new(tl), Box::new(tr), ty);
                                assert(ast(sum) == Ast::<Typed>::BinOp(Op::Add, Box::new(ast(tl)), Box::new(ast(tr)), gty));
                                Ok(Tree::Deref(Box::new(sum), elem))
                            },
                            _ => Err(TypeError::IndexNotPointer),
                        },
                        None => Err(TypeError::BinOpNotAllowed(Op::Add, a, b)),
                    },
                    _ => Err(TypeError::NotTyped),
                }
            },
            _ => Err(TypeError::Unexpected),
        }
    }

    fn check_addr(&mut self, tree: &Tree<Parsed>) -> (r: Result<Tree<Typed>, TypeError>)
        requires
            tree is Addr,
        ensures
            checked(r, final(self)@, sc_tree(old(self)@, ast(*tree))),
        decreases tree, 0int,
    {
        match tree {
            Tree::Addr(e, _) => {
                let te = match self.check_tree_result(&**e) {
                    Ok(t) => t,
                    Err(x) => return Err(x),
                };
                if !is_lvalue_exec(&te) {
                    return Err(TypeError::NotLvalue);
                }
                match tree_ty(&te) {
                    Some(ty) => Ok(Tree::Addr(Box::new(te), Type::Ptr(Box::new(ty)))),
                    None => Err(TypeError::NotTyped),
                }
            },
            _ => Err(TypeError::Unexpected),
        }
    }

    fn check_deref(&mut self, tree: &Tree<Parsed>) -> (r: Result<Tree<Typed>, TypeError>)
        requires
            tree is Deref,
        ensures
            checked(r, final(self)@, sc_tree(old(self)@, ast(*tree))),
        decreases tree, 0int,
    {
        match tree {
            Tree::Deref(e, _) => {
                let te = match self.check_tree_result(&**e) {
                    Ok(t) => t,
                    Err(x) => return Err(x),
                };
                match tree_ty(&te) {
                    Some(ty) => match ty {
                        Type::Ptr(inner) => Ok(Tree::Deref(Box::new(te), *inner)),
                        _ => Err(TypeError::NotPointer(ty)),
                    },
                    None => Err(TypeError::NotTyped),
                }
            },
            _ => Err(TypeError::Unexpected),
        }
    }

    #[verifier::loop_isolation(false)]
    fn check_call(&mut self, tree: &Tree<Parsed>) -> (r: Result<Tree<Typed>, TypeError>)
        requires
            tree is Call,
        ensures
            checked(r, final(self)@, sc_tree(old(self)@, ast(*tree))),
        decreases tree, 0int,
    {
        match tree {
            Tree::Call(name, args, _) => {
                proof {
                    lemma_asts(args@);
                }
                let (ret, params) = match self.functions.get(name.as_str()) {
                    Some(sig) => (sig.0.clone(), clone_types(&sig.1)),
                    None => return Err(TypeError::FunctionNotDeclared(name.clone())),
                };
                if params.len() != args.len() {
                    return Err(TypeError::ArgCount(name.clone()));
                }
                let targs = match self.check_seq(args) {
                    Ok(t) => t,
                    Err(x) => return Err(x),
                };
                let ghost ta = asts(targs@);
                proof {
                    lemma_asts(targs@);
                    lemma_sc_seq_len(old(self)@, asts(args@));
                }
                let mut k: usize = 0;
                while k < targs.len()
                    invariant
                        k <= targs@.len(),
                        ta == asts(targs@),
                        ta.len() == targs@.len(),
                        params@.len() == targs@.len(),
                        forall|j: int| 0 <= j < targs@.len() ==> #[trigger] ta[j] == ast(targs@[j]),
                        check_args(ta, params@, name@, 0) == check_args(ta, params@, name@, k as int),
                    decreases targs@.len() - k,
                {
                    match tree_ty(&targs[k]) {
                        Some(t) => if !t.same(&params[k]) {
                            return Err(TypeError::ArgMismatch(k, name.clone()));
                        },
                        None => return Err(TypeError::NotTyped),
                    }
                    k = k + 1;
                }
                Ok(Tree::Call(name.clone(), targs, ret))
            },
            _ => Err(TypeError::Unexpected),
        }
    }

    fn check_return(&mut self, tree: &Tree<Parsed>) -> (r: Result<Tree<Typed>, TypeError>)
        requires
            tree is Return,
        ensures
            checked(r, final(self)@, sc_tree(old(self)@, ast(*tree))),
        decreases tree, 0int,
    {
        match tree {
            Tree::Return(e, _) => {
                let te = match self.check_tree_result(&**e) {
                    Ok(t) => t,
                    Err(x) => return Err(x),
                };
                if self.current_return.is_none() {
                    return Err(TypeError::ReturnOutside);
                }
                match tree_ty(&te) {
                    Some(ty) => Ok(Tree::Return(Box::new(te), ty)),
                    None => Err(TypeError::NotTyped),
                }
            },
            _ => Err(TypeError::Unexpected),
        }
    }

    /// Type-checks a tree that is well typed in the checker's state: the typed tree, with the
    /// state the check leaves.
    pub fn check_tree(&mut self, tree: &Tree<Parsed>) -> (r: Tree<Typed>)
        requires
            sc_tree(old(self)@, ast(*tree)) is Ok,
        ensures
            sc_tree(old(self)@, ast(*tree)) == Ok::<(CheckerState, Ast<Typed>), TypeFault>((final(self)@, ast(r))),
    {
        match self.check_tree_result(tree) {
            Ok(t) => t,
            Err(_) => vstd::pervasive::unreached(),
        }
    }

    /// Type-checks a tree: the typed tree, or the first fault met.
    pub fn check_tree_result(&mut self, tree: &Tree<Parsed>) -> (r: Result<Tree<Typed>, TypeError>)
        ensures
            checked(r, final(self)@, sc_tree(old(self)@, ast(*tree))),
        decreases tree, 1int,
    {
        match tree {
            Tree::Sizeof(_) => self.check_sizeof(tree),
            Tree::BinOp(..) => self.check_binop_tree(tree),
            Tree::Assign(..) => self.check_assign(tree),
            Tree::Block(_) => self.check_block(tree),
            Tree::If(..) => self.check_if(tree),
            Tree::While(..) => self.check_while(tree),
            Tree::For(..) => self.check_for(tree),
            Tree::Integer(n, _) => Ok(Tree::Integer(*n, Type::Int)),
            Tree::String(s, _) => {
                let label = self.add_string_literal(s.as_str());
                Ok(Tree::String(label, Type::Ptr(Box::new(Type::Char))))
            },
            Tree::Var(..) => self.check_var(tree),
            Tree::Indexed(..) => self.check_indexed(tree),
            Tree::VarDeclare(ty, name) => match self.declare_result(name.clone(), ty.clone()) {
                Ok(()) => Ok(Tree::VarDeclare(ty.clone(), name.clone())),
                Err(x) => Err(x),
            },
            Tree::Addr(..) => self.check_addr(tree),
            Tree::Deref(..) => self.check_deref(tree),
            Tree::Call(..) => self.check_call(tree),
            Tree::Return(..) => self.check_return(tree),
            _ => Err(TypeError::Unexpected),
        }
    }

    /// Records the functions of a program that defines no function twice.
    fn collect_functions(&mut self, tree: &Tree<Parsed>)
        requires
            ast(*tree) is Program,
            sc_functions(seq![], ast(*tree)->Program_0) is Ok,
        ensures
            final(self)@ == with_functions(old(self)@, sc_functions(seq![], ast(*tree)->Program_0)->Ok_0),
    {
        match self.collect_functions_result(tree) {
            Ok(()) => {},
            Err(_) => vstd::pervasive::unreached(),
        }
    }

    /// Records the functions of the program `tree`, replacing those recorded before, or gives
    /// the fault when `tree` is no program or defines a function twice.
    #[verifier::loop_isolation(false)]
    fn collect_functions_result(&mut self, tree: &Tree<Parsed>) -> (r: Result<(), TypeError>)
        ensures
            match ast(*tree) {
                Ast::Program(items) => match sc_functions(seq![], items) {
                    Ok(fs) => r is Ok && final(self)@ == with_functions(old(self)@, fs),
                    Err(e) => r matches Err(x) && x@ == e,
                },
                _ => r matches Err(x) && x@ == TypeFault::NotProgram,
            },
    {
        match tree {
            Tree::Program(trees) => {
                let ghost items = asts(trees@);
                proof {
                    lemma_asts(trees@);
                    assert(items.skip(0) =~= items);
                }
                self.functions.clear();
                let mut k: usize = 0;
                while k < trees.len()
                    invariant
                        k <= trees@.len(),
                        items == asts(trees@),
                        items.len() == trees@.len(),
                        forall|j: int| 0 <= j < trees@.len() ==> #[trigger] items[j] == ast(trees@[j]),
                        sc_functions(seq![], items) == sc_functions(self@.functions, items.skip(k as int)),
                        self@ == with_functions(old(self)@, self@.functions),
                    decreases trees@.len() - k,
                {
                    assert(items.skip(k as int)[0] == items[k as int]);
                    assert(items.skip(k as int).drop_first() =~= items.skip(k + 1));
                    match &trees[k] {
                        Tree::FuncDef(ty, name, params, _) => {
                            if self.functions.contains_key(name.as_str()) {
                                return Err(TypeError::DoubleFunction(name.clone()));
                            }
                            let mut types: Vec<Type> = Vec::new();
                            let mut j: usize = 0;
                            while j < params.len()
                                invariant
                                    j <= params@.len(),
                                    types@ == params_view(params@).map_values(|p: (Type, Seq<char>)| p.0).take(j as int),
                                decreases params@.len() - j,
                            {
                                types.push(params[j].0.clone());
                                assert(params_view(params@).map_values(|p: (Type, Seq<char>)| p.0).take(j + 1) =~= params_view(params@).map_values(|p: (Type, Seq<char>)| p.0).take(j as int).push(params@[j as int].0));
                                j = j + 1;
                            }
                            assert(params_view(params@).map_values(|p: (Type, Seq<char>)| p.0).take(j as int) =~= params_view(params@).map_values(|p: (Type, Seq<char>)| p.0));
                            self.functions.push(name.clone(), (ty.clone(), types));
                        },
                        _ => {},
                    }
                    k = k + 1;
                }
                assert(items.skip(k as int) =~= seq![]);
                Ok(())
            },
            _ => Err(TypeError::NotProgram),
        }
    }

    fn clone_params(params: &Vec<(Type, String)>) -> (r: Vec<(Type, String)>)
        ensures
            params_view(r@) == params_view(params@),
    {
        let mut r: Vec<(Type, String)> = Vec::new();
        let mut j: usize = 0;
        while j < params.len()
            invariant
                j <= params@.len(),
                params_view(r@) == params_view(params@).take(j as int),
            decreases params@.len() - j,
        {
            let ghost before = r@;
            r.push((params[j].0.clone(), params[j].1.clone()));
            assert(params_view(r@) =~= params_view(before).push((params@[j as int].0, params@[j as int].1@)));
            assert(params_view(params@).take(j + 1) =~= params_view(params@).take(j as int).push((params@[j as int].0, params@[j as int].1@)));
            j = j + 1;
        }
        assert(params_view(params@).take(j as int) =~= params_view(params@));
        r
    }

    /// Checks one top-level item.
    #[verifier::loop_isolation(false)]
    fn check_top(&mut self, t: &Tree<Parsed>) -> (r: Result<Option<Tree<Typed>>, TypeError>)
        ensures
            match sc_top(old(self)@, ast(*t)) {
                Ok((st, o)) => r matches Ok(w) && final(self)@ == st && match o {
                    Some(a) => w matches Some(x) && ast(x) == a,
                    None => w is None,
                },
                Err(e) => r matches Err(x) && x@ == e,
            },
    {
        match t {
            Tree::FuncDef(ty, name, params, body) => {
                let prev = match &self.current_return {
                    Some(p) => Some(p.clone()),
                    None => None,
                };
                self.current_return = Some(ty.clone());
                self.enter_scope();
                let ghost pv = params_view(params@);
                let ghost s1 = self@;
                assert(pv.skip(0) =~= pv);
                let mut j: usize = 0;
                while j < params.len()
                    invariant
                        j <= params@.len(),
                        pv == params_view(params@),
                        sc_params(s1, pv) == sc_params(self@, pv.skip(j as int)),
                    decreases params@.len() - j,
                {
                    assert(pv.skip(j as int)[0] == (params@[j as int].0, params@[j as int].1@));
                    assert(pv.skip(j as int).drop_first() =~= pv.skip(j + 1));
                    match self.declare_result(params[j].1.clone(), params[j].0.clone()) {
                        Ok(()) => {},
                        Err(x) => {
                            return Err(x);
                        },
                    }
                    j = j + 1;
                }
                let tb = match self.check_tree_result(&**body) {
                    Ok(b) => b,
                    Err(x) => {
                        return Err(x);
                    },
                };
                self.exit_scope();
                self.current_return = prev;
                Ok(Some(Tree::FuncDef(ty.clone(), name.clone(), Self::clone_params(params), Box::new(tb))))
            },
            Tree::VarDeclare(ty, name) => {
                if self.globals.contains_key(name.as_str()) {
                    Err(TypeError::DuplicateGlobal(name.clone()))
                } else {
                    self.globals.push(name.clone(), ty.clone());
                    Ok(None)
                }
            },
            _ => Err(TypeError::InvalidTopLevel),
        }
    }

    /// Checks the items of a program whose items check: its functions, typed, in order; its
    /// globals go to the globals.
    fn check_program(&mut self, tree: &Tree<Parsed>) -> (r: Tree<Typed>)
        requires
            ast(*tree) is Program,
            sc_tops(old(self)@, ast(*tree)->Program_0) is Ok,
        ensures
            sc_tops(old(self)@, ast(*tree)->Program_0) == Ok::<(CheckerState, Seq<Ast<Typed>>), TypeFault>(
                (final(self)@, ast(r)->Program_0),
            ),
            ast(r) is Program,
    {
        match self.check_program_result(tree) {
            Ok(t) => t,
            Err(_) => vstd::pervasive::unreached(),
        }
    }

    /// Checks the items of a program whose functions are recorded, or gives the first fault met.
    #[verifier::loop_isolation(false)]
    fn check_program_result(&mut self, tree: &Tree<Parsed>) -> (r: Result<Tree<Typed>, TypeError>)
        ensures
            match ast(*tree) {
                Ast::Program(items) => match sc_tops(old(self)@, items) {
                    Ok((st, ts)) => r matches Ok(t) && ast(t) == Ast::<Typed>::Program(ts) && final(self)@ == st,
                    Err(e) => r matches Err(x) && x@ == e,
                },
                _ => r matches Err(x) && x@ == TypeFault::InvalidTopLevel,
            },
    {
        match tree {
            Tree::Program(trees) => {
                let ghost items = asts(trees@);
                let ghost start = self@;
                proof {
                    lemma_asts(trees@);
                    assert(items.skip(0) =~= items);
                }
                let mut out: Vec<Tree<Typed>> = Vec::new();
                proof {
                    assert(asts(out@) =~= seq![]);
                }
                let mut k: usize = 0;
                while k < trees.len()
                    invariant
                        k <= trees@.len(),
                        items == asts(trees@),
                        items.len() == trees@.len(),
                        forall|j: int| 0 <= j < trees@.len() ==> #[trigger] items[j] == ast(trees@[j]),
                        sc_tops(start, items) == match sc_tops(self@, items.skip(k as int)) {
                            Ok((st, ts)) => Ok((st, asts(out@) + ts)),
                            Err(e) => Err(e),
                        },
                    decreases trees@.len() - k,
                {
                    let ghost before = self@;
                    let ghost rest = items.skip(k as int);
                    assert(rest[0] == items[k as int]);
                    assert(rest.drop_first() =~= items.skip(k + 1));
                    match self.check_top(&trees[k]) {
                        Ok(o) => {
                            let ghost old_out = asts(out@);
                            match o {
                                Some(t) => {
                                    proof {
                                        lemma_asts_push(out@, t);
                                    }
                                    out.push(t);
                                    proof {
                                        match sc_tops(self@, items.skip(k + 1)) {
                                            Ok((st, ts)) => {
                                                assert(asts(out@) + ts =~= old_out + (seq![ast(t)] + ts));
                                            },
                                            Err(_) => {},
                                        }
                                    }
                                },
                                None => {},
                            }
                        },
                        Err(x) => {
                            return Err(x);
                        },
                    }
                    k = k + 1;
                }
                proof {
                    assert(items.skip(k as int) =~= seq![]);
                    assert(asts(out@) + seq![] =~= asts(out@));
                }
                Ok(Tree::Program(out))
            },
            _ => Err(TypeError::InvalidTopLevel),
        }
    }

    /// Type-checks a program: the typed program, whose items are its functions, or the first
    /// fault met.
    pub fn check_result(&mut self, tree: &Tree<Parsed>) -> (r: Result<Tree<Typed>, TypeError>)
        ensures
            checked(r, final(self)@, sc_check(old(self)@, ast(*tree))),
    {
        match self.collect_functions_result(tree) {
            Ok(()) => self.check_program_result(tree),
            Err(x) => Err(x),
        }
    }

    /// Type-checks a program that is well typed.
    pub fn check(&mut self, tree: &Tree<Parsed>) -> (r: Tree<Typed>)
        requires
            sc_check(old(self)@, ast(*tree)) is Ok,
        ensures
            sc_check(old(self)@, ast(*tree)) == Ok::<(CheckerState, Ast<Typed>), TypeFault>((final(self)@, ast(r))),
    {
        self.collect_functions(tree);
        self.check_program(tree)
    }
}


/// The state after declaring each of `ds` in turn, up to the first declaration refused.
pub open spec fn declare_all(st: CheckerState, ds: Seq<(Seq<char>, Type)>) -> CheckerState
    decreases ds.len(),
{
    if ds.len() == 0 {
        st
    } else {
        match spec_declare(st, ds[0].0, ds[0].1) {
            Ok(s1) => declare_all(s1, ds.drop_first()),
            Err(_) => st,
        }
    }
}

/// Declarations change the innermost scope only.
proof fn lemma_declare_all_inner(st: CheckerState, ds: Seq<(Seq<char>, Type)>)
    requires
        st.scopes.len() > 0,
    ensures
        declare_all(st, ds).scopes.len() == st.scopes.len(),
        declare_all(st, ds).scopes.drop_last() == st.scopes.drop_last(),
        declare_all(st, ds) == (CheckerState { scopes: declare_all(st, ds).scopes, ..st }),
    decreases ds.len(),
{
    if ds.len() > 0 {
        if let Ok(s1) = spec_declare(st, ds[0].0, ds[0].1) {
            assert(s1.scopes.drop_last() =~= st.scopes.drop_last());
            lemma_declare_all_inner(s1, ds.drop_first());
        }
    }
}

/// Leaving a scope undoes entering it and every declaration made in it: whatever was declared
/// inside, every name is looked up afterwards as before, shadowed outer names included.
pub proof fn law_exit_undoes_scope(st: CheckerState, ds: Seq<(Seq<char>, Type)>)
    ensures
        exit(declare_all(enter(st), ds)) == st,
        forall|n: Seq<char>| spec_lookup(exit(declare_all(enter(st), ds)), n) == spec_lookup(st, n),
{
    lemma_declare_all_inner(enter(st), ds);
    let s = declare_all(enter(st), ds);
    assert(s.scopes.drop_last() =~= st.scopes);
}

proof fn lemma_check_args(args: Seq<Ast<Typed>>, params: Seq<Type>, name: Seq<char>, k: int)
    requires
        0 <= k,
        check_args(args, params, name, k) is Ok,
    ensures
        forall|j: int| k <= j < args.len() ==> ty_of(#[trigger] args[j]) == Some(params[j]),
    decreases args.len() - k,
{
    if k < args.len() {
        lemma_check_args(args, params, name, k + 1);
    }
}

/// A checked call names the function it calls, has that function's declared return type, and
/// passes as many arguments as the function has parameters, each of its parameter's type.
pub proof fn law_call_has_declared_type(st: CheckerState, name: Seq<char>, args: Seq<Ast<Parsed>>)
    ensures
        sc_tree(st, Ast::Call(name, args, ())) matches Ok((_, te)) ==> {
            &&& find(st.functions, name) matches Some(sig)
            &&& ty_of(te) == Some(sig.0)
            &&& te matches Ast::Call(n, targs, _)
            &&& n == name
            &&& targs.len() == args.len()
            &&& targs.len() == sig.1.len()
            &&& forall|j: int| 0 <= j < targs.len() ==> ty_of(#[trigger] targs[j]) == Some(sig.1[j])
        },
{
    if let Some((ret, params)) = find(st.functions, name) {
        lemma_sc_seq_len(st, args);
        if let Ok((s1, targs)) = sc_seq(st, args) {
            if check_args(targs, params, name, 0) is Ok {
                lemma_check_args(targs, params, name, 0);
            }
        }
    }
}

/// The functions a program records have the signatures it declares: for each function defined at
/// the top level, its return type and the types of its parameters, in order.
pub proof fn law_functions_recorded(fs: Seq<(Seq<char>, (Type, Seq<Type>))>, items: Seq<Ast<Parsed>>, k: int)
    requires
        0 <= k < items.len(),
        items[k] is FuncDef,
        sc_functions(fs, items) is Ok,
    ensures
        find(sc_functions(fs, items)->Ok_0, items[k]->FuncDef_1) == Some(
            (items[k]->FuncDef_0, items[k]->FuncDef_2.map_values(|p: (Type, Seq<char>)| p.0)),
        ),
    decreases items.len(),
{
    lemma_functions_keep(fs, items);
    if k == 0 {
        let f = fs.push((items[0]->FuncDef_1, signature(items[0]->FuncDef_0, items[0]->FuncDef_2)));
        crate::table::lemma_find_push(fs, (items[0]->FuncDef_1, signature(items[0]->FuncDef_0, items[0]->FuncDef_2)), items[0]->FuncDef_1);
        lemma_functions_keep(f, items.drop_first());
    } else {
        match items[0] {
            Ast::FuncDef(ty, name, params, _) => {
                law_functions_recorded(fs.push((name, signature(ty, params))), items.drop_first(), k - 1);
            },
            _ => {
                law_functions_recorded(fs, items.drop_first(), k - 1);
            },
        }
    }
}

/// Recording functions keeps what was found before.
proof fn lemma_functions_keep(fs: Seq<(Seq<char>, (Type, Seq<Type>))>, items: Seq<Ast<Parsed>>)
    ensures
        sc_functions(fs, items) matches Ok(out) ==> forall|n: Seq<char>|
            #[trigger] find(fs, n) is Some ==> find(out, n) == find(fs, n),
    decreases items.len(),
{
    if items.len() > 0 {
        match items[0] {
            Ast::FuncDef(ty, name, params, _) => {
                let f = fs.push((name, signature(ty, params)));
                lemma_functions_keep(f, items.drop_first());
                assert forall|n: Seq<char>| #[trigger] find(fs, n) is Some implies find(f, n) == find(fs, n) by {
                    crate::table::lemma_find_push(fs, (name, signature(ty, params)), n);
                }
            },
            _ => {
                lemma_functions_keep(fs, items.drop_first());
            },
        }
    }
}

/// The types C gives expressions: a number is an `int`; a string literal a `char *`, labelled
/// with the next literal label; a name its declared type, but an array decays to a pointer to its
/// first element; `&e` a pointer to the type of `e`; `*e` the type `e` points to; `sizeof` of a
/// name the size of its declared type, of another expression the size of its type, as an `int`
/// constant; an assignment the type of its left side.
pub proof fn law_expression_types(st: CheckerState, t: Ast<Parsed>)
    ensures
        sc_tree(st, t) matches Ok((_, te)) ==> match t {
            Ast::Integer(n, _) => te == Ast::<Typed>::Integer(n, Type::Int),
            Ast::String(_, _) => te == Ast::<Typed>::String(string_label(st), Type::Ptr(Box::new(Type::Char))),
            Ast::Var(name, _) => spec_lookup(st, name) matches Some(d) && ty_of(te) == Some(
                match d {
                    Type::Array(inner, _) => Type::Ptr(inner),
                    _ => d,
                },
            ),
            Ast::Addr(e, _) => sc_tree(st, *e) matches Ok((_, x)) && ty_of(x) matches Some(a) && ty_of(te) == Some(
                Type::Ptr(Box::new(a)),
            ),
            Ast::Deref(e, _) => sc_tree(st, *e) matches Ok((_, x)) && ty_of(x) == Some(Type::Ptr(Box::new(ty_of(te)->Some_0)))
                && ty_of(te) is Some,
            Ast::Assign(l, _, _) => sc_tree(st, *l) matches Ok((_, x)) && ty_of(te) == ty_of(x) && ty_of(x) is Some,
            Ast::Sizeof(e) => match *e {
                Ast::Var(name, _) => spec_lookup(st, name) matches Some(d) && te == Ast::<Typed>::Integer(
                    d.spec_size() as usize as i64,
                    Type::Int,
                ),
                _ => sc_tree(st, *e) matches Ok((_, x)) && ty_of(x) matches Some(a) && te == Ast::<Typed>::Integer(
                    a.spec_size() as usize as i64,
                    Type::Int,
                ),
            },
            _ => true,
        },
{
}

/// `+`, `*`, `==` and `!=` take their operands in either order: they accept both orders or
/// neither, and give the same type.
pub proof fn law_binop_type_symmetric(op: Op, a: Type, b: Type)
    requires
        op == Op::Add || op == Op::Mul || op == Op::Eq || op == Op::NotEq,
    ensures
        binop_type(op, a, b) == binop_type(op, b, a),
{
}

/// `-` does not: a pointer less an `int` is that pointer's type, while an `int` less a pointer is
/// refused.
pub proof fn law_sub_of_pointer_one_way(t: Type)
    ensures
        binop_type(Op::Sub, Type::Ptr(Box::new(t)), Type::Int) == Some(Type::Ptr(Box::new(t))),
        binop_type(Op::Sub, Type::Int, Type::Ptr(Box::new(t))) is None,
{
}

/// Looking a name up in scopes whose innermost scope gained one more entry at the end.
proof fn lemma_lookup_scopes_push_last(scopes: Seq<Seq<(Seq<char>, Type)>>, e: (Seq<char>, Type), name: Seq<char>)
    requires
        scopes.len() > 0,
    ensures
        lookup_scopes(scopes.update(scopes.len() - 1, scopes.last().push(e)), name) == match find(scopes.last(), name) {
            Some(t) => Some(t),
            None => if e.0 == name {
                Some(e.1)
            } else {
                lookup_scopes(scopes.drop_last(), name)
            },
        },
{
    let u = scopes.update(scopes.len() - 1, scopes.last().push(e));
    assert(u.drop_last() =~= scopes.drop_last());
    assert(u.last() == scopes.last().push(e));
    lemma_find_push(scopes.last(), e, name);
}

/// A declared name is then looked up as the type it was declared with.
pub proof fn law_lookup_after_declare(st: CheckerState, name: Seq<char>, ty: Type)
    requires
        spec_declare(st, name, ty) is Ok,
    ensures
        spec_lookup(spec_declare(st, name, ty)->Ok_0, name) == Some(ty),
{
    lemma_lookup_scopes_push_last(st.scopes, (name, ty), name);
}

/// Declaring a name leaves every other name as it was.
pub proof fn law_declare_keeps_others(st: CheckerState, name: Seq<char>, ty: Type, other: Seq<char>)
    requires
        spec_declare(st, name, ty) is Ok,
        other != name,
    ensures
        spec_lookup(spec_declare(st, name, ty)->Ok_0, other) == spec_lookup(st, other),
{
    lemma_lookup_scopes_push_last(st.scopes, (name, ty), other);
}

/// A name may be declared only once in a scope: a second declaration is refused.
pub proof fn law_declare_twice_refused(st: CheckerState, name: Seq<char>, ty: Type, ty2: Type)
    requires
        spec_declare(st, name, ty) is Ok,
    ensures
        spec_declare(spec_declare(st, name, ty)->Ok_0, name, ty2) == Err::<CheckerState, TypeFault>(
            TypeFault::DoubleVariable(name),
        ),
{
    let s1 = spec_declare(st, name, ty)->Ok_0;
    assert(s1.scopes.last() == st.scopes.last().push((name, ty)));
    lemma_find_push(st.scopes.last(), (name, ty), name);
}

/// A fresh scope accepts any name, which then denotes the new declaration, whatever an outer
/// scope or a global declared under it.
pub proof fn law_inner_declaration_shadows(st: CheckerState, name: Seq<char>, ty: Type)
    ensures
        spec_declare(enter(st), name, ty) is Ok,
        spec_lookup(spec_declare(enter(st), name, ty)->Ok_0, name) == Some(ty),
{
    law_lookup_after_declare(enter(st), name, ty);
}

/// Leaving a scope just entered gives back the state before it.
pub proof fn law_exit_undoes_enter(st: CheckerState)
    ensures
        exit(enter(st)) == st,
{
    assert(st.scopes.push(seq![]).drop_last() =~= st.scopes);
}

/// What is declared in a scope ends with it: entering a scope, declaring a name in it and
/// leaving it gives back the state before.
pub proof fn law_scope_declarations_end_with_scope(st: CheckerState, name: Seq<char>, ty: Type)
    ensures
        exit(spec_declare(enter(st), name, ty)->Ok_0) == st,
{
    let s1 = spec_declare(enter(st), name, ty)->Ok_0;
    assert(s1.scopes.drop_last() =~= st.scopes);
}


/// The labels of the string literals run `LC0`, `LC1`, ... in order.
pub open spec fn labels_in_order(strings: Seq<(Seq<char>, Seq<char>)>) -> bool {
    forall|k: int| 0 <= k < strings.len() ==> #[trigger] strings[k].0 == seq!['L', 'C'] + decimal_nat(k as nat)
}

/// `b` is where checking an expression or a statement from `a` may end: the same functions,
/// globals, return type and number of scopes, and the literals of `a` followed by more, whose
/// labels stay in order where those of `a` were.
pub open spec fn follows(a: CheckerState, b: CheckerState) -> bool {
    &&& b.functions == a.functions
    &&& b.globals == a.globals
    &&& b.current_return == a.current_return
    &&& b.scopes.len() == a.scopes.len()
    &&& a.strings.len() <= b.strings.len()
    &&& b.strings.subrange(0, a.strings.len() as int) == a.strings
    &&& (labels_in_order(a.strings) ==> labels_in_order(b.strings))
}

proof fn lemma_follows_refl(a: CheckerState)
    ensures
        follows(a, a),
{
    assert(a.strings.subrange(0, a.strings.len() as int) =~= a.strings);
}

proof fn lemma_follows_trans(a: CheckerState, b: CheckerState, c: CheckerState)
    requires
        follows(a, b),
        follows(b, c),
    ensures
        follows(a, c),
{
    assert(c.strings.subrange(0, a.strings.len() as int) =~= c.strings.subrange(0, b.strings.len() as int).subrange(
        0,
        a.strings.len() as int,
    ));
}

proof fn lemma_follows_add_string(st: CheckerState, x: Seq<char>)
    ensures
        follows(st, add_string(st, x)),
{
    let s2 = add_string(st, x);
    assert(s2.strings.subrange(0, st.strings.len() as int) =~= st.strings);
    if labels_in_order(st.strings) {
        assert forall|k: int| 0 <= k < s2.strings.len() implies #[trigger] s2.strings[k].0 == seq!['L', 'C']
            + decimal_nat(k as nat) by {
            if k < st.strings.len() {
                assert(s2.strings[k] == st.strings[k]);
            }
        }
    }
}

proof fn lemma_follows_declare(st: CheckerState, name: Seq<char>, ty: Type)
    requires
        spec_declare(st, name, ty) is Ok,
    ensures
        follows(st, spec_declare(st, name, ty)->Ok_0),
{
    lemma_follows_refl(st);
}

proof fn lemma_follows_block(st: CheckerState, s1: CheckerState)
    requires
        follows(enter(st), s1),
    ensures
        follows(st, exit(s1)),
{
}

/// Checking a tree moves the checker only forward: see `follows`.
proof fn lemma_sc_tree_follows(st: CheckerState, t: Ast<Parsed>)
    ensures
        match sc_tree(st, t) {
            Ok((s2, _)) => follows(st, s2),
            Err(_) => true,
        },
    decreases t,
{
    lemma_follows_refl(st);
    match t {
        Ast::Sizeof(e) => match *e {
            Ast::Var(_, _) => {},
            _ => {
                lemma_sc_tree_follows(st, *e);
            },
        },
        Ast::BinOp(_, l, r, _) | Ast::Assign(l, r, _) | Ast::Indexed(l, r, _) => {
            lemma_sc_tree_follows(st, *l);
            match sc_tree(st, *l) {
                Ok((s1, _)) => {
                    lemma_sc_tree_follows(s1, *r);
                    match sc_tree(s1, *r) {
                        Ok((s2, _)) => lemma_follows_trans(st, s1, s2),
                        Err(_) => {},
                    }
                },
                Err(_) => {},
            }
        },
        Ast::Block(stmts) => {
            lemma_sc_seq_follows(enter(st), stmts);
            match sc_seq(enter(st), stmts) {
                Ok((s1, _)) => lemma_follows_block(st, s1),
                Err(_) => {},
            }
        },
        Ast::If(c, a, b) => {
            lemma_sc_tree_follows(st, *c);
            match sc_tree(st, *c) {
                Ok((s1, _)) => {
                    lemma_sc_tree_follows(s1, *a);
                    match sc_tree(s1, *a) {
                        Ok((s2, _)) => {
                            lemma_follows_trans(st, s1, s2);
                            lemma_sc_opt_follows(s2, b);
                            match sc_opt(s2, b) {
                                Ok((s3, _)) => lemma_follows_trans(st, s2, s3),
                                Err(_) => {},
                            }
                        },
                        Err(_) => {},
                    }
                },
                Err(_) => {},
            }
        },
        Ast::While(c, body) => {
            lemma_sc_tree_follows(st, *c);
            match sc_tree(st, *c) {
                Ok((s1, _)) => {
                    lemma_sc_tree_follows(s1, *body);
                    match sc_tree(s1, *body) {
                        Ok((s2, _)) => lemma_follows_trans(st, s1, s2),
                        Err(_) => {},
                    }
                },
                Err(_) => {},
            }
        },
        Ast::For(init, cond, upd, body) => {
            lemma_sc_opt_follows(st, init);
            match sc_opt(st, init) {
                Ok((s1, _)) => {
                    lemma_sc_opt_follows(s1, cond);
                    match sc_opt(s1, cond) {
                        Ok((s2, _)) => {
                            lemma_follows_trans(st, s1, s2);
                            lemma_sc_opt_follows(s2, upd);
                            match sc_opt(s2, upd) {
                                Ok((s3, _)) => {
                                    lemma_follows_trans(st, s2, s3);
                                    lemma_sc_tree_follows(s3, *body);
                                    match sc_tree(s3, *body) {
                                        Ok((s4, _)) => lemma_follows_trans(st, s3, s4),
                                        Err(_) => {},
                                    }
                                },
                                Err(_) => {},
                            }
                        },
                        Err(_) => {},
                    }
                },
                Err(_) => {},
            }
        },
        Ast::String(x, _) => {
            lemma_follows_add_string(st, x);
        },
        Ast::VarDeclare(ty, name) => {
            if spec_declare(st, name, ty) is Ok {
                lemma_follows_declare(st, name, ty);
            }
        },
        Ast::Addr(e, _) | Ast::Deref(e, _) | Ast::Return(e, _) => {
            lemma_sc_tree_follows(st, *e);
        },
        Ast::Call(_, args, _) => {
            lemma_sc_seq_follows(st, args);
        },
        _ => {},
    }
}

proof fn lemma_sc_seq_follows(st: CheckerState, s: Seq<Ast<Parsed>>)
    ensures
        match sc_seq(st, s) {
            Ok((s2, _)) => follows(st, s2),
            Err(_) => true,
        },
    decreases s,
{
    lemma_follows_refl(st);
    if s.len() > 0 {
        lemma_sc_tree_follows(st, s[0]);
        match sc_tree(st, s[0]) {
            Ok((s1, _)) => {
                lemma_sc_seq_follows(s1, s.drop_first());
                match sc_seq(s1, s.drop_first()) {
                    Ok((s2, _)) => lemma_follows_trans(st, s1, s2),
                    Err(_) => {},
                }
            },
            Err(_) => {},
        }
    }
}

proof fn lemma_sc_opt_follows(st: CheckerState, t: Option<Box<Ast<Parsed>>>)
    ensures
        match sc_opt(st, t) {
            Ok((s2, _)) => follows(st, s2),
            Err(_) => true,
        },
    decreases t,
{
    lemma_follows_refl(st);
    match t {
        Some(b) => lemma_sc_tree_follows(st, *b),
        None => {},
    }
}


/// `b` holds the literals of `a` followed by more, labelled in order where those of `a` were.
pub open spec fn strings_extend(a: CheckerState, b: CheckerState) -> bool {
    &&& a.strings.len() <= b.strings.len()
    &&& b.strings.subrange(0, a.strings.len() as int) == a.strings
    &&& (labels_in_order(a.strings) ==> labels_in_order(b.strings))
}

proof fn lemma_strings_extend_trans(a: CheckerState, b: CheckerState, c: CheckerState)
    requires
        strings_extend(a, b),
        strings_extend(b, c),
    ensures
        strings_extend(a, c),
{
    assert(c.strings.subrange(0, a.strings.len() as int) =~= c.strings.subrange(0, b.strings.len() as int).subrange(
        0,
        a.strings.len() as int,
    ));
}

proof fn lemma_sc_params_follows(st: CheckerState, ps: Seq<(Type, Seq<char>)>)
    ensures
        match sc_params(st, ps) {
            Ok(s2) => follows(st, s2),
            Err(_) => true,
        },
    decreases ps.len(),
{
    lemma_follows_refl(st);
    if ps.len() > 0 {
        match spec_declare(st, ps[0].1, ps[0].0) {
            Ok(s1) => {
                lemma_follows_declare(st, ps[0].1, ps[0].0);
                lemma_sc_params_follows(s1, ps.drop_first());
                match sc_params(s1, ps.drop_first()) {
                    Ok(s2) => lemma_follows_trans(st, s1, s2),
                    Err(_) => {},
                }
            },
            Err(_) => {},
        }
    }
}

proof fn lemma_sc_top_strings(st: CheckerState, t: Ast<Parsed>)
    ensures
        match sc_top(st, t) {
            Ok((s2, _)) => strings_extend(st, s2),
            Err(_) => true,
        },
{
    lemma_follows_refl(st);
    match t {
        Ast::FuncDef(ty, name, params, body) => {
            let s1 = enter(CheckerState { current_return: Some(ty), ..st });
            lemma_sc_params_follows(s1, params);
            match sc_params(s1, params) {
                Ok(s2) => {
                    lemma_sc_tree_follows(s2, *body);
                    match sc_tree(s2, *body) {
                        Ok((s3, _)) => lemma_follows_trans(s1, s2, s3),
                        Err(_) => {},
                    }
                },
                Err(_) => {},
            }
        },
        _ => {},
    }
}

proof fn lemma_sc_tops_strings(st: CheckerState, s: Seq<Ast<Parsed>>)
    ensures
        match sc_tops(st, s) {
            Ok((s2, _)) => strings_extend(st, s2),
            Err(_) => true,
        },
    decreases s.len(),
{
    lemma_follows_refl(st);
    if s.len() > 0 {
        lemma_sc_top_strings(st, s[0]);
        match sc_top(st, s[0]) {
            Ok((s1, _)) => {
                lemma_sc_tops_strings(s1, s.drop_first());
                match sc_tops(s1, s.drop_first()) {
                    Ok((s2, _)) => lemma_strings_extend_trans(st, s1, s2),
                    Err(_) => {},
                }
            },
            Err(_) => {},
        }
    }
}

/// The string literals of a tree, in the order the checker meets them; the operand of a
/// `sizeof` of a name is not checked, and brings none.
pub open spec fn literals(t: Ast<Parsed>) -> Seq<Seq<char>>
    decreases t,
{
    match t {
        Ast::Program(ts) => literals_seq(ts),
        Ast::Sizeof(e) => match *e {
            Ast::Var(_, _) => seq![],
            _ => literals(*e),
        },
        Ast::BinOp(_, l, r, _) => literals(*l) + literals(*r),
        Ast::Assign(l, r, _) => literals(*l) + literals(*r),
        Ast::Indexed(l, r, _) => literals(*l) + literals(*r),
        Ast::Block(ts) => literals_seq(ts),
        Ast::FuncDef(_, _, _, body) => literals(*body),
        Ast::If(c, a, b) => literals(*c) + literals(*a) + literals_opt(b),
        Ast::While(c, b) => literals(*c) + literals(*b),
        Ast::For(i, c, u, b) => literals_opt(i) + literals_opt(c) + literals_opt(u) + literals(*b),
        Ast::String(x, _) => seq![x],
        Ast::Addr(e, _) => literals(*e),
        Ast::Deref(e, _) => literals(*e),
        Ast::Return(e, _) => literals(*e),
        Ast::Call(_, args, _) => literals_seq(args),
        _ => seq![],
    }
}

pub open spec fn literals_seq(s: Seq<Ast<Parsed>>) -> Seq<Seq<char>>
    decreases s,
{
    if s.len() == 0 {
        seq![]
    } else {
        literals(s[0]) + literals_seq(s.drop_first())
    }
}

pub open spec fn literals_opt(o: Option<Box<Ast<Parsed>>>) -> Seq<Seq<char>>
    decreases o,
{
    match o {
        Some(b) => literals(*b),
        None => seq![],
    }
}

/// The table entries of the literals `lits`, labelled `LC{from}`, `LC{from + 1}`, ... in order.
pub open spec fn labeled(lits: Seq<Seq<char>>, from: nat) -> Seq<(Seq<char>, Seq<char>)> {
    Seq::new(lits.len(), |k: int| (seq!['L', 'C'] + decimal_nat((from + k) as nat), lits[k]))
}

/// `b` holds the literals of `a`, then those of `lits`, labelled after them.
pub open spec fn adds_literals(a: CheckerState, b: CheckerState, lits: Seq<Seq<char>>) -> bool {
    b.strings == a.strings + labeled(lits, a.strings.len())
}

proof fn lemma_lits_none(a: CheckerState, b: CheckerState)
    requires
        b.strings == a.strings,
    ensures
        adds_literals(a, b, seq![]),
{
    assert(a.strings + labeled(seq![], a.strings.len()) =~= a.strings);
}

proof fn lemma_lits_trans(a: CheckerState, b: CheckerState, c: CheckerState, x: Seq<Seq<char>>, y: Seq<Seq<char>>)
    requires
        adds_literals(a, b, x),
        adds_literals(b, c, y),
    ensures
        adds_literals(a, c, x + y),
{
    let n = a.strings.len();
    assert(labeled(x, n) + labeled(y, n + x.len()) =~= labeled(x + y, n));
    assert(a.strings + labeled(x, n) + labeled(y, n + x.len()) =~= a.strings + (labeled(x, n) + labeled(y, n + x.len())));
}

proof fn lemma_sc_tree_lits(st: CheckerState, t: Ast<Parsed>)
    ensures
        sc_tree(st, t) matches Ok((s2, _)) ==> adds_literals(st, s2, literals(t)),
    decreases t,
{
    lemma_lits_none(st, st);
    match t {
        Ast::Sizeof(e) => match *e {
            Ast::Var(_, _) => {},
            _ => {
                lemma_sc_tree_lits(st, *e);
            },
        },
        Ast::BinOp(_, l, r, _) | Ast::Assign(l, r, _) | Ast::Indexed(l, r, _) => {
            lemma_sc_tree_lits(st, *l);
            if let Ok((s1, _)) = sc_tree(st, *l) {
                lemma_sc_tree_lits(s1, *r);
                if let Ok((s2, _)) = sc_tree(s1, *r) {
                    lemma_lits_trans(st, s1, s2, literals(*l), literals(*r));
                }
            }
        },
        Ast::Block(stmts) => {
            lemma_sc_seq_lits(enter(st), stmts);
        },
        Ast::If(c, a, b) => {
            lemma_sc_tree_lits(st, *c);
            if let Ok((s1, _)) = sc_tree(st, *c) {
                lemma_sc_tree_lits(s1, *a);
                if let Ok((s2, _)) = sc_tree(s1, *a) {
                    lemma_lits_trans(st, s1, s2, literals(*c), literals(*a));
                    lemma_sc_opt_lits(s2, b);
                    if let Ok((s3, _)) = sc_opt(s2, b) {
                        lemma_lits_trans(st, s2, s3, literals(*c) + literals(*a), literals_opt(b));
                    }
                }
            }
        },
        Ast::While(c, body) => {
            lemma_sc_tree_lits(st, *c);
            if let Ok((s1, _)) = sc_tree(st, *c) {
                lemma_sc_tree_lits(s1, *body);
                if let Ok((s2, _)) = sc_tree(s1, *body) {
                    lemma_lits_trans(st, s1, s2, literals(*c), literals(*body));
                }
            }
        },
        Ast::For(init, cond, upd, body) => {
            lemma_sc_opt_lits(st, init);
            if let Ok((s1, _)) = sc_opt(st, init) {
                lemma_sc_opt_lits(s1, cond);
                if let Ok((s2, _)) = sc_opt(s1, cond) {
                    lemma_lits_trans(st, s1, s2, literals_opt(init), literals_opt(cond));
                    lemma_sc_opt_lits(s2, upd);
                    if let Ok((s3, _)) = sc_opt(s2, upd) {
                        lemma_lits_trans(st, s2, s3, literals_opt(init) + literals_opt(cond), literals_opt(upd));
                        lemma_sc_tree_lits(s3, *body);
                        if let Ok((s4, _)) = sc_tree(s3, *body) {
                            lemma_lits_trans(
                                st,
                                s3,
                                s4,
                                literals_opt(init) + literals_opt(cond) + literals_opt(upd),
                                literals(*body),
                            );
                        }
                    }
                }
            }
        },
        Ast::String(x, _) => {
            assert(add_string(st, x).strings =~= st.strings + labeled(seq![x], st.strings.len()));
        },
        Ast::Addr(e, _) | Ast::Deref(e, _) | Ast::Return(e, _) => {
            lemma_sc_tree_lits(st, *e);
        },
        Ast::Call(_, args, _) => {
            lemma_sc_seq_lits(st, args);
        },
        _ => {},
    }
}

proof fn lemma_sc_seq_lits(st: CheckerState, s: Seq<Ast<Parsed>>)
    ensures
        sc_seq(st, s) matches Ok((s2, _)) ==> adds_literals(st, s2, literals_seq(s)),
    decreases s,
{
    lemma_lits_none(st, st);
    if s.len() > 0 {
        lemma_sc_tree_lits(st, s[0]);
        if let Ok((s1, _)) = sc_tree(st, s[0]) {
            lemma_sc_seq_lits(s1, s.drop_first());
            if let Ok((s2, _)) = sc_seq(s1, s.drop_first()) {
                lemma_lits_trans(st, s1, s2, literals(s[0]), literals_seq(s.drop_first()));
            }
        }
    }
}

proof fn lemma_sc_opt_lits(st: CheckerState, t: Option<Box<Ast<Parsed>>>)
    ensures
        sc_opt(st, t) matches Ok((s2, _)) ==> adds_literals(st, s2, literals_opt(t)),
    decreases t,
{
    lemma_lits_none(st, st);
    if let Some(b) = t {
        lemma_sc_tree_lits(st, *b);
    }
}

proof fn lemma_sc_params_strings(st: CheckerState, ps: Seq<(Type, Seq<char>)>)
    ensures
        sc_params(st, ps) matches Ok(s2) ==> s2.strings == st.strings,
    decreases ps.len(),
{
    if ps.len() > 0 {
        if let Ok(s1) = spec_declare(st, ps[0].1, ps[0].0) {
            lemma_sc_params_strings(s1, ps.drop_first());
        }
    }
}

proof fn lemma_sc_tops_lits(st: CheckerState, s: Seq<Ast<Parsed>>)
    ensures
        sc_tops(st, s) matches Ok((s2, _)) ==> adds_literals(st, s2, literals_seq(s)),
    decreases s.len(),
{
    lemma_lits_none(st, st);
    if s.len() > 0 {
        if let Ok((s1, _)) = sc_top(st, s[0]) {
            match s[0] {
                Ast::FuncDef(ty, name, params, body) => {
                    let e = enter(CheckerState { current_return: Some(ty), ..st });
                    lemma_sc_params_strings(e, params);
                    let p = sc_params(e, params)->Ok_0;
                    lemma_sc_tree_lits(p, *body);
                },
                _ => {
                    lemma_lits_none(st, s1);
                },
            }
            lemma_sc_tops_lits(s1, s.drop_first());
            if let Ok((s2, _)) = sc_tops(s1, s.drop_first()) {
                lemma_lits_trans(st, s1, s2, literals(s[0]), literals_seq(s.drop_first()));
            }
        }
    }
}

/// Checking a program adds to the table of string literals one entry for each literal of the
/// program, in the order the checker meets them, labelled `LC{n}`, `LC{n + 1}`, ... after the
/// `n` entries the table had, and no other entry: equal literals get entries of their own. From
/// a new checker the table is exactly `LC0`, `LC1`, ... for the program's literals.
pub proof fn law_check_literal_table(st: CheckerState, t: Ast<Parsed>)
    ensures
        sc_check(st, t) matches Ok((s2, _)) ==> s2.strings == st.strings + labeled(literals(t), st.strings.len()),
{
    if let Ast::Program(items) = t {
        if let Ok(fs) = sc_functions(seq![], items) {
            lemma_sc_tops_lits(with_functions(st, fs), items);
        }
    }
}

/// The string literals of a program get the labels `LC0`, `LC1`, ... in the order the checker
/// meets them: checking a program from a checker whose labels are in order keeps the literals
/// it had and labels the new ones in order after them.
pub proof fn law_check_labels_in_order(st: CheckerState, t: Ast<Parsed>)
    requires
        labels_in_order(st.strings),
        sc_check(st, t) is Ok,
    ensures
        labels_in_order(sc_check(st, t)->Ok_0.0.strings),
        sc_check(st, t)->Ok_0.0.strings.subrange(0, st.strings.len() as int) == st.strings,
{
    match t {
        Ast::Program(items) => {
            let fs = sc_functions(seq![], items)->Ok_0;
            lemma_sc_tops_strings(with_functions(st, fs), items);
        },
        _ => {},
    }
}

/// Labels in order are distinct: no two string literals share a label.
pub proof fn law_labels_distinct(strings: Seq<(Seq<char>, Seq<char>)>, i: int, j: int)
    requires
        labels_in_order(strings),
        0 <= i < strings.len(),
        0 <= j < strings.len(),
        i != j,
    ensures
        strings[i].0 != strings[j].0,
{
    let a = strings[i].0;
    let b = strings[j].0;
    if a == b {
        assert(a.subrange(2, a.len() as int) =~= decimal_nat(i as nat));
        assert(b.subrange(2, b.len() as int) =~= decimal_nat(j as nat));
        lemma_decimal_nat_injective(i as nat, j as nat);
    }
}


/// Checking an expression gives a tree that carries a type, and a comparison is an `int`.
pub proof fn law_checked_expression_typed(st: CheckerState, t: Ast<Parsed>)
    requires
        t is BinOp || t is Assign || t is Integer || t is String || t is Var || t is Indexed || t is Addr
            || t is Deref || t is Call || t is Sizeof || t is Return,
    ensures
        sc_tree(st, t) matches Ok((_, te)) ==> ty_of(te) is Some,
        sc_tree(st, t) matches Ok((_, te)) ==> (t matches Ast::BinOp(op, _, _, _) && is_comparison(op)) ==> ty_of(
            te,
        ) == Some(Type::Int),
{
}

} // verus!
