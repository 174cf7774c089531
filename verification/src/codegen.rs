//! Code generation: RISC-V assembly text for a lowered program.
use vstd::prelude::*;
use vstd::string::*;
use crate::parser::{Tree, TypedTree, Ast, Lowered, Op, ast, asts, opt_ast, lemma_asts, params_view};
use crate::table::{Table, find, upsert, law_find_after_upsert, lemma_upsert_index};
use crate::text::{decimal, decimal_nat, push_decimal_i64, push_decimal_u64, lemma_decimal_nat_len, lemma_decimal_nat_digits, lemma_decimal_nat_injective};
use crate::types::{Type, Env};

verus! {

/// Where a variable lives: at an offset from the frame pointer, or at a global label.
#[derive(Debug, Clone, PartialEq, Eq)]
pub enum VarLocation {
    Local(i64),
    Global(String),
}

/// Why code could not be generated for a tree.
#[derive(Debug)]
pub enum CodegenError {
    NotProgram,
    TooManyParams(String),
    DoubleFunction(String),
    MissingMain,
    NotFunction,
    NotDeclared(String),
    TooManyArgs(String),
    ArgCount,
    FunctionNotDeclared(String),
    NotExpression,
    NotLvalue,
    NotTyped,
    NoScope,
    BadAccessSize,
    Overflow,
}

/// The value of a `CodegenError`.
pub enum CodegenFault {
    NotProgram,
    TooManyParams(Seq<char>),
    DoubleFunction(Seq<char>),
    MissingMain,
    NotFunction,
    NotDeclared(Seq<char>),
    TooManyArgs(Seq<char>),
    ArgCount,
    FunctionNotDeclared(Seq<char>),
    NotExpression,
    NotLvalue,
    NotTyped,
    NoScope,
    BadAccessSize,
    Overflow,
}

impl View for CodegenError {
    type V = CodegenFault;

    open spec fn view(&self) -> CodegenFault {
        match *self {
            CodegenError::NotProgram => CodegenFault::NotProgram,
            CodegenError::TooManyParams(n) => CodegenFault::TooManyParams(n@),
            CodegenError::DoubleFunction(n) => CodegenFault::DoubleFunction(n@),
            CodegenError::MissingMain => CodegenFault::MissingMain,
            CodegenError::NotFunction => CodegenFault::NotFunction,
            CodegenError::NotDeclared(n) => CodegenFault::NotDeclared(n@),
            CodegenError::TooManyArgs(n) => CodegenFault::TooManyArgs(n@),
            CodegenError::ArgCount => CodegenFault::ArgCount,
            CodegenError::FunctionNotDeclared(n) => CodegenFault::FunctionNotDeclared(n@),
            CodegenError::NotExpression => CodegenFault::NotExpression,
            CodegenError::NotLvalue => CodegenFault::NotLvalue,
            CodegenError::NotTyped => CodegenFault::NotTyped,
            CodegenError::NoScope => CodegenFault::NoScope,
            CodegenError::BadAccessSize => CodegenFault::BadAccessSize,
            CodegenError::Overflow => CodegenFault::Overflow,
        }
    }
}

/// The message of a code generation error.
pub open spec fn codegen_message(e: CodegenFault) -> Seq<char> {
    match e {
        CodegenFault::NotProgram => "top-level tree must be Program"@,
        CodegenFault::TooManyParams(n) => "Too much params: "@ + n,
        CodegenFault::DoubleFunction(n) => "Double Declation of function: "@ + n,
        CodegenFault::MissingMain => "main function is missing"@,
        CodegenFault::NotFunction => "not a function definition"@,
        CodegenFault::NotDeclared(n) => "Not declared variable: "@ + n,
        CodegenFault::TooManyArgs(n) => "Too much args: "@ + n,
        CodegenFault::ArgCount => "Invalid number of args"@,
        CodegenFault::FunctionNotDeclared(n) => n + " is not declared"@,
        CodegenFault::NotExpression => "not an expression"@,
        CodegenFault::NotLvalue => "not an lvalue"@,
        CodegenFault::NotTyped => "Not typed"@,
        CodegenFault::NoScope => "no scope for declaration"@,
        CodegenFault::BadAccessSize => "no load or store of this size"@,
        CodegenFault::Overflow => "arithmetic overflow"@,
    }
}

impl CodegenError {
    /// The message of the error.
    pub fn message(&self) -> (r: String)
        ensures
            r@ == codegen_message(self@),
    {
        match self {
            CodegenError::NotProgram => String::from_str("top-level tree must be Program"),
            CodegenError::TooManyParams(n) => {
                let mut r = String::from_str("Too much params: ");
                r.append(n.as_str());
                r
            },
            CodegenError::DoubleFunction(n) => {
                let mut r = String::from_str("Double Declation of function: ");
                r.append(n.as_str());
                r
            },
            CodegenError::MissingMain => String::from_str("main function is missing"),
            CodegenError::NotFunction => String::from_str("not a function definition"),
            CodegenError::NotDeclared(n) => {
                let mut r = String::from_str("Not declared variable: ");
                r.append(n.as_str());
                r
            },
            CodegenError::TooManyArgs(n) => {
                let mut r = String::from_str("Too much args: ");
                r.append(n.as_str());
                r
            },
            CodegenError::ArgCount => String::from_str("Invalid number of args"),
            CodegenError::FunctionNotDeclared(n) => {
                let mut r = n.clone();
                r.append(" is not declared");
                r
            },
            CodegenError::NotExpression => String::from_str("not an expression"),
            CodegenError::NotLvalue => String::from_str("not an lvalue"),
            CodegenError::NotTyped => String::from_str("Not typed"),
            CodegenError::NoScope => String::from_str("no scope for declaration"),
            CodegenError::BadAccessSize => String::from_str("no load or store of this size"),
            CodegenError::Overflow => String::from_str("arithmetic overflow"),
        }
    }
}

/// The value of a code generator: the scopes of local variables with their types and frame
/// offsets, the globals, the string literals by label, the functions with their number of
/// parameters, the frame size of the current function, the offset of the last local, the next
/// label number, and the lines written so far.
pub struct CodegenState {
    pub scopes: Seq<Seq<(Seq<char>, (Type, i64))>>,
    pub globals: Seq<(Seq<char>, Type)>,
    pub strings: Seq<(Seq<char>, Seq<char>)>,
    pub functions: Seq<(Seq<char>, (Type, usize))>,
    pub frame: usize,
    pub offset: i64,
    pub label: usize,
    pub out: Seq<Seq<char>>,
}

pub type Gen = Result<CodegenState, CodegenFault>;

/// Writes one line.
pub open spec fn emit(st: CodegenState, line: Seq<char>) -> CodegenState {
    CodegenState { out: st.out.push(line), ..st }
}

pub open spec fn emit2(st: CodegenState, a: Seq<char>, b: Seq<char>) -> CodegenState {
    emit(emit(st, a), b)
}

/// `    addi sp, sp, -8` and `    sd {reg}, 0(sp)`.
pub open spec fn sp_push(st: CodegenState, reg: Seq<char>) -> CodegenState {
    emit2(st, "    addi sp, sp, -8"@, "    sd "@ + reg + ", 0(sp)"@)
}

/// `    ld {reg}, 0(sp)` and `    addi sp, sp, 8`.
pub open spec fn sp_pop(st: CodegenState, reg: Seq<char>) -> CodegenState {
    emit2(st, "    ld "@ + reg + ", 0(sp)"@, "    addi sp, sp, 8"@)
}

/// The size of `ty` as an access width, if it fits.
pub open spec fn size_of(ty: Type) -> Option<nat> {
    if ty.size_fits() {
        Some(ty.spec_size())
    } else {
        None
    }
}

/// Loads (`store` false) or stores a value of type `ty` from or to `offset` past `base`.
pub open spec fn access(st: CodegenState, store: bool, reg: Seq<char>, base: Seq<char>, offset: i64, ty: Type) -> Gen {
    let s1 = emit2(st, "    li t2, "@ + decimal(offset as int), "    add t2, t2, "@ + base);
    let op: Seq<char> = match size_of(ty) {
        Some(n) => if n == 1 {
            if store { "sb"@ } else { "lb"@ }
        } else if n == 4 {
            if store { "sw"@ } else { "lw"@ }
        } else if n == 8 {
            if store { "sd"@ } else { "ld"@ }
        } else {
            seq![]
        },
        None => seq![],
    };
    match size_of(ty) {
        None => Err(CodegenFault::Overflow),
        Some(n) => if n == 1 || n == 4 || n == 8 {
            Ok(emit(s1, "    "@ + op + " "@ + reg + ", 0(t2)"@))
        } else {
            Err(CodegenFault::BadAccessSize)
        },
    }
}

pub open spec fn prologue(st: CodegenState, frame: usize) -> CodegenState {
    let s1 = emit2(st, "    addi sp, sp, -16"@, "    sd ra, 8(sp)"@);
    let s2 = emit2(s1, "    sd fp, 0(sp)"@, "    addi fp, sp, 0"@);
    emit2(s2, "    li t0, -"@ + decimal_nat(frame as nat), "    add sp, sp, t0"@)
}

pub open spec fn epilogue(st: CodegenState, frame: usize) -> CodegenState {
    let s1 = emit2(st, "    li t0, "@ + decimal_nat(frame as nat), "    add sp, sp, t0"@);
    let s2 = emit2(s1, "    ld ra, 8(sp)"@, "    ld fp, 0(sp)"@);
    emit2(s2, "    addi sp, sp, 16"@, "    ret"@)
}

/// The offset of a local in the innermost scope that declares it, else `None` for a global of
/// that name, with the declared type; `None` when the name is declared nowhere.
pub open spec fn scope_lookup(scopes: Seq<Seq<(Seq<char>, (Type, i64))>>, name: Seq<char>) -> Option<(Type, i64)>
    decreases scopes.len(),
{
    if scopes.len() == 0 {
        None
    } else {
        match find(scopes.last(), name) {
            Some(x) => Some(x),
            None => scope_lookup(scopes.drop_last(), name),
        }
    }
}

pub open spec fn cg_lookup(st: CodegenState, name: Seq<char>) -> Option<(Type, Option<i64>)> {
    match scope_lookup(st.scopes, name) {
        Some((ty, off)) => Some((ty, Some(off))),
        None => match find(st.globals, name) {
            Some(ty) => Some((ty, None)),
            None => None,
        },
    }
}

/// Declares a local: it takes the size of its type below the last local.
pub open spec fn cg_declare(st: CodegenState, name: Seq<char>, ty: Type) -> Result<(CodegenState, i64), CodegenFault> {
    match size_of(ty) {
        None => Err(CodegenFault::Overflow),
        Some(n) => {
            let off = st.offset - (n as usize as i64);
            if !(i64::MIN <= off <= i64::MAX) {
                Err(CodegenFault::Overflow)
            } else if st.scopes.len() == 0 {
                Err(CodegenFault::NoScope)
            } else {
                let o = off as i64;
                Ok(
                    (
                        CodegenState {
                            offset: o,
                            scopes: st.scopes.update(
                                st.scopes.len() - 1,
                                upsert(st.scopes.last(), name, (ty, o)),
                            ),
                            ..st
                        },
                        o,
                    ),
                )
            }
        },
    }
}

/// The type of a lowered expression.
pub open spec fn lowered_ty(t: Ast<Lowered>) -> Option<Type> {
    match t {
        Ast::BinOp(_, _, _, ty) => Some(ty),
        Ast::Assign(_, _, ty) => Some(ty),
        Ast::Integer(_, ty) => Some(ty),
        Ast::String(_, ty) => Some(ty),
        Ast::Var(_, ty) => Some(ty),
        Ast::Addr(_, ty) => Some(ty),
        Ast::Deref(_, ty) => Some(ty),
        Ast::Indexed(_, _, ty) => Some(ty),
        Ast::Call(_, _, ty) => Some(ty),
        Ast::Return(_, ty) => Some(ty),
        _ => None,
    }
}

impl TypedTree for Tree<Lowered> {
    open spec fn annotation(&self) -> Option<Type> {
        lowered_ty(ast(*self))
    }

    fn ty(&self) -> (r: &Type) {
        match self {
            Tree::BinOp(_, _, _, ty) => ty,
            Tree::Assign(_, _, ty) => ty,
            Tree::Integer(_, ty) => ty,
            Tree::String(_, ty) => ty,
            Tree::Var(_, ty) => ty,
            Tree::Addr(_, ty) => ty,
            Tree::Deref(_, ty) => ty,
            Tree::Indexed(_, _, ty) => ty,
            Tree::Call(_, _, ty) => ty,
            Tree::Return(_, ty) => ty,
            _ => vstd::pervasive::unreached(),
        }
    }
}

/// Scales the integer in `reg` by the size of `inner`, the pointee of a pointer operand.
pub open spec fn scale(st: CodegenState, inner: Type, reg: Seq<char>) -> Gen {
    match size_of(inner) {
        None => Err(CodegenFault::Overflow),
        Some(n) => Ok(
            emit2(st, "    li t2, "@ + decimal_nat(n), "    mul "@ + reg + ", "@ + reg + ", t2"@),
        ),
    }
}

/// The instructions of `op` on the left operand in `t0` and the right one in `t1`, result in
/// `t0`; `+` and `-` scale by the pointee size where one side is a pointer.
pub open spec fn binop_code(st: CodegenState, op: Op, lt: Option<Type>, rt: Option<Type>) -> Gen {
    match op {
        Op::Add => match (lt, rt) {
            (Some(a), Some(b)) => if a is Ptr && b is Int {
                match scale(st, *a->Ptr_0, "t1"@) {
                    Ok(s1) => Ok(emit(s1, "    add t0, t0, t1"@)),
                    Err(e) => Err(e),
                }
            } else if a is Int && b is Ptr {
                match scale(st, *b->Ptr_0, "t0"@) {
                    Ok(s1) => Ok(emit(s1, "    add t0, t1, t0"@)),
                    Err(e) => Err(e),
                }
            } else {
                Ok(emit(st, "    add t0, t1, t0"@))
            },
            _ => Err(CodegenFault::NotTyped),
        },
        Op::Sub => match (lt, rt) {
            (Some(a), Some(b)) => if a is Ptr && b is Int {
                match scale(st, *a->Ptr_0, "t1"@) {
                    Ok(s1) => Ok(emit(s1, "    sub t0, t0, t1"@)),
                    Err(e) => Err(e),
                }
            } else if a is Ptr && b is Ptr {
                match size_of(*a->Ptr_0) {
                    None => Err(CodegenFault::Overflow),
                    Some(n) => Ok(
                        emit(
                            emit2(st, "    sub t0, t0, t1"@, "    li t2, "@ + decimal_nat(n)),
                            "    div t0, t0, t2"@,
                        ),
                    ),
                }
            } else {
                Ok(emit(st, "    sub t0, t0, t1"@))
            },
            _ => Err(CodegenFault::NotTyped),
        },
        Op::Mul => Ok(emit(st, "    mul t0, t1, t0"@)),
        Op::Div => Ok(emit(st, "    div t0, t0, t1"@)),
        Op::Eq => Ok(emit2(st, "    sub t0, t1, t0"@, "    seqz t0, t0"@)),
        Op::NotEq => Ok(emit2(st, "    sub t0, t1, t0"@, "    snez t0, t0"@)),
        Op::Gt => Ok(emit(st, "    slt t0, t1, t0"@)),
        Op::Gte => Ok(emit2(st, "    slt t0, t0, t1"@, "    xori t0, t0, 1"@)),
        Op::Lt => Ok(emit(st, "    slt t0, t0, t1"@)),
        Op::Lte => Ok(emit2(st, "    slt t0, t1, t0"@, "    xori t0, t0, 1"@)),
    }
}

/// Pops the arguments `a{k-1}` down to `a0`.
pub open spec fn pop_args(st: CodegenState, k: nat) -> CodegenState
    decreases k,
{
    if k == 0 {
        st
    } else {
        pop_args(sp_pop(st, "a"@ + decimal_nat((k - 1) as nat)), (k - 1) as nat)
    }
}

/// The code of an expression: it leaves the value of the expression pushed on the stack.
pub open spec fn gen_expr_spec(st: CodegenState, t: Ast<Lowered>) -> Gen
    decreases t,
{
    match t {
        Ast::Integer(n, _) => Ok(sp_push(emit(st, "    li t0, "@ + decimal(n as int)), "t0"@)),
        Ast::Var(name, _) => match cg_lookup(st, name) {
            Some((ty, Some(off))) => match access(st, false, "t0"@, "fp"@, off, ty) {
                Ok(s1) => Ok(sp_push(s1, "t0"@)),
                Err(e) => Err(e),
            },
            Some((ty, None)) => match access(emit(st, "    la t0, "@ + name), false, "t0"@, "t0"@, 0, ty) {
                Ok(s1) => Ok(sp_push(s1, "t0"@)),
                Err(e) => Err(e),
            },
            None => Err(CodegenFault::NotDeclared(name)),
        },
        Ast::String(label, _) => Ok(sp_push(emit(st, "    la t0, "@ + label), "t0"@)),
        Ast::Addr(e, _) => match gen_lvalue_spec(st, *e) {
            Ok((s1, _)) => Ok(s1),
            Err(x) => Err(x),
        },
        Ast::Deref(e, ty) => match gen_expr_spec(st, *e) {
            Ok(s1) => match access(sp_pop(s1, "t0"@), false, "t0"@, "t0"@, 0, ty) {
                Ok(s2) => Ok(sp_push(s2, "t0"@)),
                Err(x) => Err(x),
            },
            Err(x) => Err(x),
        },
        Ast::Call(name, args, _) => if args.len() > 8 {
            Err(CodegenFault::TooManyArgs(name))
        } else {
            match find(st.functions, name) {
                Some((_, n)) => if n == args.len() {
                    match gen_args_spec(st, args) {
                        Ok(s1) => Ok(
                            sp_push(emit(pop_args(s1, args.len()), "    call "@ + name), "a0"@),
                        ),
                        Err(x) => Err(x),
                    }
                } else {
                    Err(CodegenFault::ArgCount)
                },
                None => Err(CodegenFault::FunctionNotDeclared(name)),
            }
        },
        Ast::Assign(l, r, _) => match gen_lvalue_spec(st, *l) {
            Ok((s1, ty)) => match gen_expr_spec(s1, *r) {
                Ok(s2) => match access(sp_pop(sp_pop(s2, "t1"@), "t0"@), true, "t1"@, "t0"@, 0, ty) {
                    Ok(s3) => Ok(sp_push(s3, "t1"@)),
                    Err(x) => Err(x),
                },
                Err(x) => Err(x),
            },
            Err(x) => Err(x),
        },
        Ast::BinOp(op, l, r, _) => match gen_expr_spec(st, *l) {
            Ok(s1) => match gen_expr_spec(s1, *r) {
                Ok(s2) => match binop_code(
                    sp_pop(sp_pop(s2, "t1"@), "t0"@),
                    op,
                    lowered_ty(*l),
                    lowered_ty(*r),
                ) {
                    Ok(s3) => Ok(sp_push(s3, "t0"@)),
                    Err(x) => Err(x),
                },
                Err(x) => Err(x),
            },
            Err(x) => Err(x),
        },
        _ => Err(CodegenFault::NotExpression),
    }
}

/// The code of the arguments of a call, in order.
pub open spec fn gen_args_spec(st: CodegenState, args: Seq<Ast<Lowered>>) -> Gen
    decreases args,
{
    if args.len() == 0 {
        Ok(st)
    } else {
        match gen_expr_spec(st, args[0]) {
            Ok(s1) => gen_args_spec(s1, args.drop_first()),
            Err(x) => Err(x),
        }
    }
}

/// The code of the address of an lvalue: it leaves the address pushed, and gives the type of
/// the place.
pub open spec fn gen_lvalue_spec(st: CodegenState, t: Ast<Lowered>) -> Result<(CodegenState, Type), CodegenFault>
    decreases t,
{
    match t {
        Ast::Var(name, ty) => match cg_lookup(st, name) {
            Some((_, Some(off))) => Ok(
                (sp_push(emit2(st, "    li t1, "@ + decimal(off as int), "    add t0, fp, t1"@), "t0"@), ty),
            ),
            Some((_, None)) => Ok((sp_push(emit(st, "    la t0, "@ + name), "t0"@), ty)),
            None => Err(CodegenFault::NotDeclared(name)),
        },
        Ast::Deref(e, ty) => match gen_expr_spec(st, *e) {
            Ok(s1) => Ok((s1, ty)),
            Err(x) => Err(x),
        },
        _ => Err(CodegenFault::NotLvalue),
    }
}

/// Leaves the innermost scope.
pub open spec fn pop_scope(st: CodegenState) -> CodegenState {
    if st.scopes.len() == 0 {
        st
    } else {
        CodegenState { scopes: st.scopes.drop_last(), ..st }
    }
}

pub open spec fn push_scope(st: CodegenState) -> CodegenState {
    CodegenState { scopes: st.scopes.push(seq![]), ..st }
}

/// Takes a fresh label number.
pub open spec fn next_label(st: CodegenState) -> CodegenState {
    CodegenState { label: (st.label + 1) as usize, ..st }
}

/// The code of an optional expression whose value is dropped.
pub open spec fn gen_opt_spec(st: CodegenState, o: Option<Box<Ast<Lowered>>>) -> Gen
    decreases o,
{
    match o {
        Some(e) => match gen_expr_spec(st, *e) {
            Ok(s1) => Ok(sp_pop(s1, "t0"@)),
            Err(x) => Err(x),
        },
        None => Ok(st),
    }
}

/// `{ ... }`: the statements in a new scope.
pub open spec fn gen_block_spec(st: CodegenState, t: Ast<Lowered>) -> Gen
    decreases t, 0int,
{
    match t {
        Ast::Block(ts) => match gen_stmts_spec(push_scope(st), ts) {
            Ok(s1) => Ok(pop_scope(s1)),
            Err(x) => Err(x),
        },
        _ => Err(CodegenFault::NotExpression),
    }
}

/// `if`: the condition, a jump to `Else{n}` when it is zero, the branch, and the other branch
/// after `Else{n}:` (jumped over to `End{n}:`) where there is one.
pub open spec fn gen_if_spec(st: CodegenState, t: Ast<Lowered>) -> Gen
    decreases t, 0int,
{
    match t {
        Ast::If(c, a, b) => if st.label == usize::MAX {
            Err(CodegenFault::Overflow)
        } else {
            let cur = decimal_nat(st.label as nat);
            match gen_expr_spec(next_label(st), *c) {
                Ok(s1) => match gen_stmt_spec(emit(sp_pop(s1, "t0"@), "    beq t0, x0, Else"@ + cur), *a) {
                    Ok(s2) => match b {
                        Some(b) => match gen_stmt_spec(
                            emit2(s2, "    jal x0, End"@ + cur, "Else"@ + cur + ":"@),
                            *b,
                        ) {
                            Ok(s3) => Ok(emit(s3, "End"@ + cur + ":"@)),
                            Err(x) => Err(x),
                        },
                        None => Ok(emit(s2, "Else"@ + cur + ":"@)),
                    },
                    Err(x) => Err(x),
                },
                Err(x) => Err(x),
            }
        },
        _ => Err(CodegenFault::NotExpression),
    }
}

/// `while`: `Begin{n}:`, the condition, a jump to `End{n}` when it is zero, the body, a jump
/// back to `Begin{n}`, and `End{n}:`.
pub open spec fn gen_while_spec(st: CodegenState, t: Ast<Lowered>) -> Gen
    decreases t, 0int,
{
    match t {
        Ast::While(c, body) => if st.label == usize::MAX {
            Err(CodegenFault::Overflow)
        } else {
            let cur = decimal_nat(st.label as nat);
            match gen_expr_spec(emit(next_label(st), "Begin"@ + cur + ":"@), *c) {
                Ok(s1) => match gen_stmt_spec(emit(sp_pop(s1, "t0"@), "    beq t0, x0, End"@ + cur), *body) {
                    Ok(s2) => Ok(emit2(s2, "    jal x0, Begin"@ + cur, "End"@ + cur + ":"@)),
                    Err(x) => Err(x),
                },
                Err(x) => Err(x),
            }
        },
        _ => Err(CodegenFault::NotExpression),
    }
}

/// The condition of a `for` after `Begin{n}:`, with its jump to `End{n}`, if there is one.
pub open spec fn gen_for_cond(st: CodegenState, c: Option<Box<Ast<Lowered>>>, cur: Seq<char>) -> Gen {
    match c {
        Some(ce) => match gen_expr_spec(st, *ce) {
            Ok(s) => Ok(emit(sp_pop(s, "t0"@), "    beq t0, x0, End"@ + cur)),
            Err(x) => Err(x),
        },
        None => Ok(st),
    }
}

/// `for`: the start, `Begin{n}:`, the condition with its jump to `End{n}`, the body, the
/// update, a jump back to `Begin{n}`, and `End{n}:`.
pub open spec fn gen_for_spec(st: CodegenState, t: Ast<Lowered>) -> Gen
    decreases t, 0int,
{
    match t {
        Ast::For(init, c, u, body) => if st.label == usize::MAX {
            Err(CodegenFault::Overflow)
        } else {
            let cur = decimal_nat(st.label as nat);
            match gen_opt_spec(next_label(st), init) {
                Ok(s1) => match gen_for_cond(emit(s1, "Begin"@ + cur + ":"@), c, cur) {
                    Ok(s3) => match gen_stmt_spec(s3, *body) {
                        Ok(s4) => match gen_opt_spec(s4, u) {
                            Ok(s5) => Ok(emit2(s5, "    jal x0, Begin"@ + cur, "End"@ + cur + ":"@)),
                            Err(x) => Err(x),
                        },
                        Err(x) => Err(x),
                    },
                    Err(x) => Err(x),
                },
                Err(x) => Err(x),
            }
        },
        _ => Err(CodegenFault::NotExpression),
    }
}

/// The code of a statement.
pub open spec fn gen_stmt_spec(st: CodegenState, t: Ast<Lowered>) -> Gen
    decreases t, 1int,
{
    match t {
        Ast::Block(_) => gen_block_spec(st, t),
        Ast::VarDeclare(ty, name) => match cg_declare(st, name, ty) {
            Ok((s1, _)) => Ok(s1),
            Err(x) => Err(x),
        },
        Ast::If(..) => gen_if_spec(st, t),
        Ast::While(..) => gen_while_spec(st, t),
        Ast::For(..) => gen_for_spec(st, t),
        Ast::Return(e, _) => match gen_expr_spec(st, *e) {
            Ok(s1) => Ok(epilogue(sp_pop(s1, "a0"@), st.frame)),
            Err(x) => Err(x),
        },
        _ => match gen_expr_spec(st, t) {
            Ok(s1) => Ok(sp_pop(s1, "t0"@)),
            Err(x) => Err(x),
        },
    }
}

/// The code of statements, in order.
pub open spec fn gen_stmts_spec(st: CodegenState, ts: Seq<Ast<Lowered>>) -> Gen
    decreases ts, 2int,
{
    if ts.len() == 0 {
        Ok(st)
    } else {
        match gen_stmt_spec(st, ts[0]) {
            Ok(s1) => gen_stmts_spec(s1, ts.drop_first()),
            Err(x) => Err(x),
        }
    }
}

/// The locals of a function body: each declared or assigned variable with its type, the last
/// type met for a name replacing the earlier ones.
pub open spec fn collect_spec(t: Ast<Lowered>, locals: Seq<(Seq<char>, Type)>) -> Seq<(Seq<char>, Type)>
    decreases t,
{
    let l1 = match t {
        Ast::Assign(lhs, _, _) => match *lhs {
            Ast::Var(name, ty) => upsert(locals, name, ty),
            _ => locals,
        },
        Ast::VarDeclare(ty, name) => upsert(locals, name, ty),
        _ => locals,
    };
    match t {
        Ast::Program(ts) => collect_seq(ts, l1),
        Ast::Block(ts) => collect_seq(ts, l1),
        Ast::BinOp(_, l, r, _) => collect_spec(*r, collect_spec(*l, l1)),
        Ast::Assign(l, r, _) => collect_spec(*r, collect_spec(*l, l1)),
        Ast::If(c, a, b) => collect_opt(b, collect_spec(*a, collect_spec(*c, l1))),
        Ast::While(c, b) => collect_spec(*b, collect_spec(*c, l1)),
        Ast::For(i, c, u, b) => collect_spec(*b, collect_opt(u, collect_opt(c, collect_opt(i, l1)))),
        Ast::FuncDef(_, _, _, body) => collect_spec(*body, l1),
        Ast::Addr(e, _) => collect_spec(*e, l1),
        Ast::Deref(e, _) => collect_spec(*e, l1),
        Ast::Return(e, _) => collect_spec(*e, l1),
        Ast::Call(_, args, _) => collect_seq(args, l1),
        _ => l1,
    }
}

pub open spec fn collect_opt(o: Option<Box<Ast<Lowered>>>, locals: Seq<(Seq<char>, Type)>) -> Seq<(Seq<char>, Type)>
    decreases o,
{
    match o {
        Some(b) => collect_spec(*b, locals),
        None => locals,
    }
}

pub open spec fn collect_seq(ts: Seq<Ast<Lowered>>, locals: Seq<(Seq<char>, Type)>) -> Seq<(Seq<char>, Type)>
    decreases ts,
{
    if ts.len() == 0 {
        locals
    } else {
        collect_seq(ts.drop_first(), collect_spec(ts[0], locals))
    }
}

/// The sum of the sizes of `tys`.
pub open spec fn total_size(tys: Seq<Type>) -> nat
    decreases tys.len(),
{
    if tys.len() == 0 {
        0
    } else {
        total_size(tys.drop_last()) + tys.last().spec_size()
    }
}

/// The room that values of the types `tys` take together, if it fits in a `usize`.
pub open spec fn frame_bytes(tys: Seq<Type>) -> Option<usize> {
    if (forall|k: int| 0 <= k < tys.len() ==> (#[trigger] tys[k]).size_fits()) && total_size(tys)
        <= usize::MAX {
        Some(total_size(tys) as usize)
    } else {
        None
    }
}

/// The frame of a function whose locals and parameters take `n` bytes: `n` rounded up to a
/// multiple of 16.
pub open spec fn aligned_frame(n: int) -> int {
    (n + 15) / 16 * 16
}

/// Declares the parameters from the `k`-th on and stores each from its argument register.
pub open spec fn store_params(st: CodegenState, params: Seq<(Type, Seq<char>)>, k: int) -> Gen
    decreases params.len() - k,
{
    if !(0 <= k < params.len()) {
        Ok(st)
    } else {
        match cg_declare(st, params[k].1, params[k].0) {
            Ok((s1, off)) => match access(s1, true, "a"@ + decimal_nat(k as nat), "fp"@, off, params[k].0) {
                Ok(s2) => store_params(s2, params, k + 1),
                Err(x) => Err(x),
            },
            Err(x) => Err(x),
        }
    }
}

/// The code of a function: its label, a frame for its locals and parameters rounded up to 16
/// bytes, its parameters stored, its body, and the return.
pub open spec fn gen_func_spec(st: CodegenState, t: Ast<Lowered>) -> Gen {
    match t {
        Ast::FuncDef(_, name, params, body) => {
            let s1 = emit(CodegenState { scopes: seq![seq![]], offset: 0, ..st }, name + ":"@);
            let locals = collect_spec(*body, seq![]);
            match (
                frame_bytes(locals.map_values(|p: (Seq<char>, Type)| p.1)),
                frame_bytes(params.map_values(|p: (Type, Seq<char>)| p.0)),
            ) {
                (Some(a), Some(b)) => if a + b + 15 > usize::MAX {
                    Err(CodegenFault::Overflow)
                } else {
                    let frame = aligned_frame(a + b) as usize;
                    match store_params(prologue(CodegenState { frame: frame, ..s1 }, frame), params, 0) {
                        Ok(s2) => match gen_stmt_spec(s2, *body) {
                            Ok(s3) => Ok(CodegenState { frame: 0, ..epilogue(s3, frame) }),
                            Err(x) => Err(x),
                        },
                        Err(x) => Err(x),
                    }
                },
                _ => Err(CodegenFault::Overflow),
            }
        },
        _ => Err(CodegenFault::NotFunction),
    }
}

/// The data lines of the globals from the `k`-th on: a label and the room for each.
pub open spec fn data_globals(st: CodegenState, gs: Seq<(Seq<char>, Type)>, k: int) -> Gen
    decreases gs.len() - k,
{
    if !(0 <= k < gs.len()) {
        Ok(st)
    } else {
        match size_of(gs[k].1) {
            Some(n) => data_globals(
                emit2(st, gs[k].0 + ":"@, "    .space "@ + decimal_nat(n)),
                gs,
                k + 1,
            ),
            None => Err(CodegenFault::Overflow),
        }
    }
}

/// The data lines of the string literals from the `k`-th on: a label and the text of each.
pub open spec fn data_strings(st: CodegenState, ss: Seq<(Seq<char>, Seq<char>)>, k: int) -> CodegenState
    decreases ss.len() - k,
{
    if !(0 <= k < ss.len()) {
        st
    } else {
        data_strings(emit2(st, ss[k].0 + ":"@, "    .ascii \""@ + ss[k].1 + "\""@), ss, k + 1)
    }
}

/// The functions of the items from the `k`-th on, added to `fs`, and whether `main` is among
/// them or `has_main` already holds.
pub open spec fn collect_fns(fs: Seq<(Seq<char>, (Type, usize))>, has_main: bool, ts: Seq<Ast<Lowered>>, k: int) -> Result<(Seq<(Seq<char>, (Type, usize))>, bool), CodegenFault>
    decreases ts.len() - k,
{
    if !(0 <= k < ts.len()) {
        Ok((fs, has_main))
    } else {
        match ts[k] {
            Ast::FuncDef(ty, name, params, _) => if params.len() > 8 {
                Err(CodegenFault::TooManyParams(name))
            } else if find(fs, name) is Some {
                Err(CodegenFault::DoubleFunction(name))
            } else {
                collect_fns(
                    fs.push((name, (ty, params.len() as usize))),
                    has_main || name == "main"@,
                    ts,
                    k + 1,
                )
            },
            _ => collect_fns(fs, has_main, ts, k + 1),
        }
    }
}

/// The code of the items from the `k`-th on, each a function.
pub open spec fn gen_funcs(st: CodegenState, ts: Seq<Ast<Lowered>>, k: int) -> Gen
    decreases ts.len() - k,
{
    if !(0 <= k < ts.len()) {
        Ok(st)
    } else {
        match gen_func_spec(st, ts[k]) {
            Ok(s1) => gen_funcs(s1, ts, k + 1),
            Err(x) => Err(x),
        }
    }
}

/// The code of a program: the data section with the globals and the string literals, then
/// the text section with every function; the program must define `main`.
pub open spec fn generate_spec(st: CodegenState, t: Ast<Lowered>) -> Gen {
    match t {
        Ast::Program(ts) => match data_globals(emit2(st, ".data"@, ".align 4"@), st.globals, 0) {
            Ok(s1) => {
                let s2 = emit2(data_strings(s1, st.strings, 0), ".text"@, ".globl main"@);
                match collect_fns(seq![], false, ts, 0) {
                    Ok((fs, has_main)) => if !has_main {
                        Err(CodegenFault::MissingMain)
                    } else {
                        gen_funcs(CodegenState { functions: fs, ..s2 }, ts, 0)
                    },
                    Err(x) => Err(x),
                }
            },
            Err(x) => Err(x),
        },
        _ => Err(CodegenFault::NotProgram),
    }
}

/// A prefix takes no more room than the whole.
pub proof fn lemma_total_size_prefix(tys: Seq<Type>, k: int)
    requires
        0 <= k <= tys.len(),
    ensures
        total_size(tys.take(k)) <= total_size(tys),
    decreases tys.len(),
{
    if k < tys.len() {
        assert(tys.drop_last().take(k) =~= tys.take(k));
        lemma_total_size_prefix(tys.drop_last(), k);
    } else {
        assert(tys.take(k) =~= tys);
    }
}

/// `a` followed by `b`.
fn cat(a: &str, b: &str) -> (r: String)
    ensures
        r@ == a@ + b@,
{
    let mut r = String::from_str(a);
    r.append(b);
    r
}

/// `a`, `b` and `c`, in order.
fn cat3(a: &str, b: &str, c: &str) -> (r: String)
    ensures
        r@ == a@ + b@ + c@,
{
    let mut r = String::from_str(a);
    r.append(b);
    r.append(c);
    r
}

/// `a` followed by the decimal numeral of `n`.
fn cat_int(a: &str, n: i64) -> (r: String)
    ensures
        r@ == a@ + decimal(n as int),
{
    let mut r = String::from_str(a);
    push_decimal_i64(&mut r, n);
    r
}

/// `a` followed by the decimal numeral of `n`.
fn cat_nat(a: &str, n: u64) -> (r: String)
    ensures
        r@ == a@ + decimal_nat(n as nat),
{
    let mut r = String::from_str(a);
    push_decimal_u64(&mut r, n);
    r
}

/// `a`, the decimal numeral of `n`, and `c`.
fn cat_nat3(a: &str, n: u64, c: &str) -> (r: String)
    ensures
        r@ == a@ + decimal_nat(n as nat) + c@,
{
    let mut r = String::from_str(a);
    push_decimal_u64(&mut r, n);
    r.append(c);
    r
}

/// Generates assembly text for a lowered program, one line at a time.
pub struct Codegen {
    env: Vec<Table<(Type, i64)>>,
    globals: Env,
    strings: Table<String>,
    functions: Table<(Type, usize)>,
    current_frame_size: usize,
    stack_offset: i64,
    label: usize,
    lines: Vec<String>,
}

impl View for Codegen {
    type V = CodegenState;

    closed spec fn view(&self) -> CodegenState {
        CodegenState {
            scopes: self.env@.map_values(|e: Table<(Type, i64)>| e@),
            globals: self.globals@,
            strings: self.strings@,
            functions: self.functions@,
            frame: self.current_frame_size,
            offset: self.stack_offset,
            label: self.label,
            out: self.lines@.map_values(|l: String| l@),
        }
    }
}

impl Codegen {
    /// A generator for a program with these globals and string literals, nothing written yet.
    pub fn new(globals: Env, strings: Table<String>) -> (r: Self)
        ensures
            r@.scopes.len() == 0,
            r@.globals == globals@,
            r@.strings == strings@,
            r@.functions.len() == 0,
            r@.frame == 0,
            r@.offset == 0,
            r@.label == 0,
            r@.out.len() == 0,
    {
        let r = Codegen {
            env: Vec::new(),
            globals,
            strings,
            functions: Table::new(),
            current_frame_size: 0,
            stack_offset: 0,
            label: 0,
            lines: Vec::new(),
        };
        assert(r@.scopes =~= seq![]);
        assert(r@.out =~= seq![]);
        r
    }

    /// The lines written so far.
    pub fn output(&self) -> (r: &Vec<String>)
        ensures
            r@.map_values(|l: String| l@) == self@.out,
    {
        &self.lines
    }

    fn emit(&mut self, line: String)
        ensures
            final(self)@ == emit(old(self)@, line@),
    {
        let ghost l = line@;
        self.lines.push(line);
        assert(self@.out =~= old(self)@.out.push(l));
        assert(self@.scopes =~= old(self)@.scopes);
    }

    /// Pushes `reg` on the stack.
    pub fn push(&mut self, reg: &str)
        ensures
            final(self)@ == sp_push(old(self)@, reg@),
    {
        self.emit(String::from_str("    addi sp, sp, -8"));
        self.emit(cat3("    sd ", reg, ", 0(sp)"));
    }

    /// Pops the top of the stack into `reg`.
    pub fn pop(&mut self, reg: &str)
        ensures
            final(self)@ == sp_pop(old(self)@, reg@),
    {
        self.emit(cat3("    ld ", reg, ", 0(sp)"));
        self.emit(String::from_str("    addi sp, sp, 8"));
    }

    /// Loads or stores a value of a type whose size is 1, 4 or 8: the lines of `access`.
    fn emit_access(&mut self, store: bool, reg: &str, base: &str, offset: i64, ty: &Type)
        requires
            access(old(self)@, store, reg@, base@, offset, *ty) is Ok,
        ensures
            final(self)@ == access(old(self)@, store, reg@, base@, offset, *ty)->Ok_0,
    {
        let n = ty.size();
        self.emit(cat_int("    li t2, ", offset));
        self.emit(cat("    add t2, t2, ", base));
        let op = if n == 1 {
            if store { "sb" } else { "lb" }
        } else if n == 4 {
            if store { "sw" } else { "lw" }
        } else {
            if store { "sd" } else { "ld" }
        };
        let mut line = cat3("    ", op, " ");
        line.append(reg);
        line.append(", 0(t2)");
        self.emit(line);
    }

    /// Loads the value of type `ty` at `offset` past `base` into `reg`; the size of `ty` must be
    /// 1, 4 or 8.
    fn emit_load(&mut self, reg: &str, base: &str, offset: i64, ty: &Type)
        requires
            access(old(self)@, false, reg@, base@, offset, *ty) is Ok,
        ensures
            final(self)@ == access(old(self)@, false, reg@, base@, offset, *ty)->Ok_0,
    {
        self.emit_access(false, reg, base, offset, ty)
    }

    /// Stores `reg` as a value of type `ty` at `offset` past `base`; the size of `ty` must be
    /// 1, 4 or 8.
    fn emit_store(&mut self, reg: &str, base: &str, offset: i64, ty: &Type)
        requires
            access(old(self)@, true, reg@, base@, offset, *ty) is Ok,
        ensures
            final(self)@ == access(old(self)@, true, reg@, base@, offset, *ty)->Ok_0,
    {
        self.emit_access(true, reg, base, offset, ty)
    }

    /// A load (`store` false) or a store, or the fault when the size of `ty` does not fit or is
    /// not 1, 4 or 8.
    fn access(&mut self, store: bool, reg: &str, base: &str, offset: i64, ty: &Type) -> (r: Result<(), CodegenError>)
        ensures
            match access(old(self)@, store, reg@, base@, offset, *ty) {
                Ok(st) => r is Ok && final(self)@ == st,
                Err(e) => r matches Err(x) && x@ == e,
            },
    {
        let n = match ty.checked_size() {
            Some(n) => n,
            None => return Err(CodegenError::Overflow),
        };
        if !(n == 1 || n == 4 || n == 8) {
            return Err(CodegenError::BadAccessSize);
        }
        if store {
            self.emit_store(reg, base, offset, ty);
        } else {
            self.emit_load(reg, base, offset, ty);
        }
        Ok(())
    }

    /// Saves the return address and the frame pointer and makes room for a frame of `frame_size` bytes.
    pub fn prologue(&mut self, frame_size: usize)
        ensures
            final(self)@ == prologue(old(self)@, frame_size),
    {
        self.emit(String::from_str("    addi sp, sp, -16"));
        self.emit(String::from_str("    sd ra, 8(sp)"));
        self.emit(String::from_str("    sd fp, 0(sp)"));
        self.emit(String::from_str("    addi fp, sp, 0"));
        self.emit(cat_nat("    li t0, -", frame_size as u64));
        self.emit(String::from_str("    add sp, sp, t0"));
    }

    /// Frees a frame of `frame_size` bytes, restores the frame pointer and the return address, and returns.
    pub fn epilogue(&mut self, frame_size: usize)
        ensures
            final(self)@ == epilogue(old(self)@, frame_size),
    {
        self.emit(cat_nat("    li t0, ", frame_size as u64));
        self.emit(String::from_str("    add sp, sp, t0"));
        self.emit(String::from_str("    ld ra, 8(sp)"));
        self.emit(String::from_str("    ld fp, 0(sp)"));
        self.emit(String::from_str("    addi sp, sp, 16"));
        self.emit(String::from_str("    ret"));
    }

    /// Declares a local in the innermost scope, below the last one: its offset from the frame pointer.
    pub fn declare(&mut self, name: String, ty: Type) -> (r: Result<i64, CodegenError>)
        ensures
            match cg_declare(old(self)@, name@, ty) {
                Ok((st, o)) => r == Ok::<i64, CodegenError>(o) && final(self)@ == st,
                Err(e) => r matches Err(x) && x@ == e,
            },
    {
        let n = match ty.checked_size() {
            Some(n) => n,
            None => return Err(CodegenError::Overflow),
        };
        let sz = n as i64;
        let off = match self.stack_offset.checked_sub(sz) {
            Some(o) => o,
            None => return Err(CodegenError::Overflow),
        };
        if self.env.len() == 0 {
            return Err(CodegenError::NoScope);
        }
        let mut scope = self.env.pop().unwrap();
        let ghost n_name = name@;
        let ghost old_last = scope@;
        scope.insert(name, (ty, off));
        self.env.push(scope);
        self.stack_offset = off;
        assert(self@.scopes =~= old(self)@.scopes.update(
            old(self)@.scopes.len() - 1,
            upsert(old(self)@.scopes.last(), n_name, (ty, off)),
        ));
        Ok(off)
    }

    /// Where `name` lives and its type: a local of the innermost scope that declares it, else a global.
    pub fn lookup(&self, name: &str) -> (r: Option<(Type, VarLocation)>)
        ensures
            match cg_lookup(self@, name@) {
                Some((ty, Some(o))) => r == Some((ty, VarLocation::Local(o))),
                Some((ty, None)) => r matches Some((t2, VarLocation::Global(g))) && t2 == ty && g@ == name@,
                None => r is None,
            },
    {
        let ghost scopes = self@.scopes;
        let mut k = self.env.len();
        assert(scopes.take(k as int) =~= scopes);
        while k > 0
            invariant
                k <= scopes.len(),
                scopes == self@.scopes,
                scopes.len() == self.env@.len(),
                scope_lookup(scopes, name@) == scope_lookup(scopes.take(k as int), name@),
            decreases k,
        {
            k = k - 1;
            assert(scopes.take(k + 1).last() == scopes[k as int]);
            assert(scopes.take(k + 1).drop_last() =~= scopes.take(k as int));
            match self.env[k].get(name) {
                Some(entry) => {
                    return Some((entry.0.clone(), VarLocation::Local(entry.1)));
                },
                None => {},
            }
        }
        match self.globals.get(name) {
            Some(t) => Some((t.clone(), VarLocation::Global(String::from_str(name)))),
            None => None,
        }
    }

    fn collect_opt(tree: &Option<Box<Tree<Lowered>>>, locals: &mut Table<Type>)
        ensures
            final(locals)@ == collect_opt(opt_ast(*tree), old(locals)@),
        decreases tree, 1int,
    {
        match tree {
            Some(b) => Self::collect_locals(&**b, locals),
            None => {},
        }
    }

    fn collect_vec(trees: &Vec<Tree<Lowered>>, locals: &mut Table<Type>)
        ensures
            final(locals)@ == collect_seq(asts(trees@), old(locals)@),
        decreases trees, 1int,
    {
        let ghost s = asts(trees@);
        proof {
            lemma_asts(trees@);
            assert(s.skip(0) =~= s);
        }
        let mut k: usize = 0;
        while k < trees.len()
            invariant
                k <= trees@.len(),
                s == asts(trees@),
                s.len() == trees@.len(),
                forall|j: int| 0 <= j < trees@.len() ==> #[trigger] s[j] == ast(trees@[j]),
                collect_seq(s, old(locals)@) == collect_seq(s.skip(k as int), locals@),
            decreases trees@.len() - k,
        {
            assert(s.skip(k as int)[0] == s[k as int]);
            assert(s.skip(k as int).drop_first() =~= s.skip(k + 1));
            assert(decreases_to!(trees => trees@[k as int]));
            Self::collect_locals(&trees[k], locals);
            k = k + 1;
        }
        assert(s.skip(k as int) =~= seq![]);
    }

    /// Records the variables that `tree` declares or assigns, with their types.
    fn collect_locals(tree: &Tree<Lowered>, locals: &mut Table<Type>)
        ensures
            final(locals)@ == collect_spec(ast(*tree), old(locals)@),
        decreases tree, 0int,
    {
        match tree {
            Tree::Assign(lhs, _, _) => {
                match &**lhs {
                    Tree::Var(name, ty) => {
                        assert(ast(**lhs) == Ast::<Lowered>::Var(name@, *ty));
                        locals.insert(name.clone(), ty.clone());
                    },
                    _ => {
                        assert(!(ast(**lhs) is Var));
                    },
                }
            },
            Tree::VarDeclare(ty, name) => {
                locals.insert(name.clone(), ty.clone());
            },
            _ => {},
        }
        match tree {
            Tree::Program(trees) => Self::collect_vec(trees, locals),
            Tree::Block(trees) => Self::collect_vec(trees, locals),
            Tree::BinOp(_, l, r, _) => {
                Self::collect_locals(&**l, locals);
                Self::collect_locals(&**r, locals);
            },
            Tree::Assign(l, r, _) => {
                Self::collect_locals(&**l, locals);
                Self::collect_locals(&**r, locals);
            },
            Tree::If(c, a, b) => {
                Self::collect_locals(&**c, locals);
                Self::collect_locals(&**a, locals);
                Self::collect_opt(b, locals);
            },
            Tree::While(c, b) => {
                Self::collect_locals(&**c, locals);
                Self::collect_locals(&**b, locals);
            },
            Tree::For(i, c, u, b) => {
                Self::collect_opt(i, locals);
                Self::collect_opt(c, locals);
                Self::collect_opt(u, locals);
                Self::collect_locals(&**b, locals);
            },
            Tree::FuncDef(_, _, _, body) => Self::collect_locals(&**body, locals),
            Tree::Addr(e, _) => Self::collect_locals(&**e, locals),
            Tree::Deref(e, _) => Self::collect_locals(&**e, locals),
            Tree::Return(e, _) => Self::collect_locals(&**e, locals),
            Tree::Call(_, args, _) => Self::collect_vec(args, locals),
            _ => {},
        }
    }

    /// The room that values of the types `types` take together.
    pub fn get_frame_size(types: &Vec<Type>) -> (r: Result<usize, CodegenError>)
        ensures
            match frame_bytes(types@) {
                Some(n) => r == Ok::<usize, CodegenError>(n),
                None => r matches Err(x) && x@ == CodegenFault::Overflow,
            },
    {
        let mut sum: usize = 0;
        let mut k: usize = 0;
        assert(types@.take(0) =~= seq![]);
        while k < types.len()
            invariant
                k <= types@.len(),
                sum == total_size(types@.take(k as int)),
                forall|j: int| 0 <= j < k ==> (#[trigger] types@[j]).size_fits(),
            decreases types@.len() - k,
        {
            assert(types@.take(k + 1).drop_last() =~= types@.take(k as int));
            assert(types@.take(k + 1).last() == types@[k as int]);
            let n = match types[k].checked_size() {
                Some(n) => n,
                None => return Err(CodegenError::Overflow),
            };
            sum = match sum.checked_add(n) {
                Some(x) => x,
                None => {
                    proof {
                        lemma_total_size_prefix(types@, k + 1);
                    }
                    return Err(CodegenError::Overflow);
                },
            };
            k = k + 1;
        }
        assert(types@.take(k as int) =~= types@);
        Ok(sum)
    }

    /// The type of a lowered expression, if it has one.
    fn tree_ty(t: &Tree<Lowered>) -> (r: Option<Type>)
        ensures
            r == lowered_ty(ast(*t)),
    {
        match t {
            Tree::BinOp(_, _, _, ty) => Some(ty.clone()),
            Tree::Assign(_, _, ty) => Some(ty.clone()),
            Tree::Integer(_, ty) => Some(ty.clone()),
            Tree::String(_, ty) => Some(ty.clone()),
            Tree::Var(_, ty) => Some(ty.clone()),
            Tree::Addr(_, ty) => Some(ty.clone()),
            Tree::Deref(_, ty) => Some(ty.clone()),
            Tree::Indexed(_, _, ty) => Some(ty.clone()),
            Tree::Call(_, _, ty) => Some(ty.clone()),
            Tree::Return(_, ty) => Some(ty.clone()),
            _ => None,
        }
    }

    fn scale(&mut self, inner: &Type, reg: &str) -> (r: Result<(), CodegenError>)
        ensures
            match scale(old(self)@, *inner, reg@) {
                Ok(st) => r is Ok && final(self)@ == st,
                Err(e) => r matches Err(x) && x@ == e,
            },
    {
        match inner.checked_size() {
            None => Err(CodegenError::Overflow),
            Some(n) => {
                self.emit(cat_nat("    li t2, ", n as u64));
                let mut line = cat3("    mul ", reg, ", ");
                line.append(reg);
                line.append(", t2");
                self.emit(line);
                Ok(())
            },
        }
    }

    fn binop_code(&mut self, op: Op, lt: Option<Type>, rt: Option<Type>) -> (r: Result<(), CodegenError>)
        ensures
            match binop_code(old(self)@, op, lt, rt) {
                Ok(st) => r is Ok && final(self)@ == st,
                Err(e) => r matches Err(x) && x@ == e,
            },
    {
        match op {
            Op::Add => match (&lt, &rt) {
                (Some(a), Some(b)) => match (a, b) {
                    (Type::Ptr(inner), Type::Int) => {
                        match self.scale(&**inner, "t1") {
                            Ok(()) => {},
                            Err(x) => return Err(x),
                        }
                        self.emit(String::from_str("    add t0, t0, t1"));
                        Ok(())
                    },
                    (Type::Int, Type::Ptr(inner)) => {
                        match self.scale(&**inner, "t0") {
                            Ok(()) => {},
                            Err(x) => return Err(x),
                        }
                        self.emit(String::from_str("    add t0, t1, t0"));
                        Ok(())
                    },
                    _ => {
                        self.emit(String::from_str("    add t0, t1, t0"));
                        Ok(())
                    },
                },
                _ => Err(CodegenError::NotTyped),
            },
            Op::Sub => match (&lt, &rt) {
                (Some(a), Some(b)) => match (a, b) {
                    (Type::Ptr(inner), Type::Int) => {
                        match self.scale(&**inner, "t1") {
                            Ok(()) => {},
                            Err(x) => return Err(x),
                        }
                        self.emit(String::from_str("    sub t0, t0, t1"));
                        Ok(())
                    },
                    (Type::Ptr(inner), Type::Ptr(_)) => match inner.checked_size() {
                        None => Err(CodegenError::Overflow),
                        Some(n) => {
                            self.emit(String::from_str("    sub t0, t0, t1"));
                            self.emit(cat_nat("    li t2, ", n as u64));
                            self.emit(String::from_str("    div t0, t0, t2"));
                            Ok(())
                        },
                    },
                    _ => {
                        self.emit(String::from_str("    sub t0, t0, t1"));
                        Ok(())
                    },
                },
                _ => Err(CodegenError::NotTyped),
            },
            Op::Mul => {
                self.emit(String::from_str("    mul t0, t1, t0"));
                Ok(())
            },
            Op::Div => {
                self.emit(String::from_str("    div t0, t0, t1"));
                Ok(())
            },
            Op::Eq => {
                self.emit(String::from_str("    sub t0, t1, t0"));
                self.emit(String::from_str("    seqz t0, t0"));
                Ok(())
            },
            Op::NotEq => {
                self.emit(String::from_str("    sub t0, t1, t0"));
                self.emit(String::from_str("    snez t0, t0"));
                Ok(())
            },
            Op::Gt => {
                self.emit(String::from_str("    slt t0, t1, t0"));
                Ok(())
            },
            Op::Gte => {
                self.emit(String::from_str("    slt t0, t0, t1"));
                self.emit(String::from_str("    xori t0, t0, 1"));
                Ok(())
            },
            Op::Lt => {
                self.emit(String::from_str("    slt t0, t0, t1"));
                Ok(())
            },
            Op::Lte => {
                self.emit(String::from_str("    slt t0, t1, t0"));
                self.emit(String::from_str("    xori t0, t0, 1"));
                Ok(())
            },
        }
    }

    fn gen_args(&mut self, args: &Vec<Tree<Lowered>>) -> (r: Result<(), CodegenError>)
        ensures
            match gen_args_spec(old(self)@, asts(args@)) {
                Ok(st) => r is Ok && final(self)@ == st,
                Err(e) => r matches Err(x) && x@ == e,
            },
        decreases args, 1int,
    {
        let ghost s = asts(args@);
        proof {
            lemma_asts(args@);
            assert(s.skip(0) =~= s);
        }
        let mut k: usize = 0;
        while k < args.len()
            invariant
                k <= args@.len(),
                s == asts(args@),
                s.len() == args@.len(),
                forall|j: int| 0 <= j < args@.len() ==> #[trigger] s[j] == ast(args@[j]),
                gen_args_spec(old(self)@, s) == gen_args_spec(self@, s.skip(k as int)),
            decreases args@.len() - k,
        {
            assert(s.skip(k as int)[0] == s[k as int]);
            assert(s.skip(k as int).drop_first() =~= s.skip(k + 1));
            assert(decreases_to!(args => args@[k as int]));
            match self.gen_expr(&args[k]) {
                Ok(()) => {},
                Err(x) => return Err(x),
            }
            k = k + 1;
        }
        assert(s.skip(k as int) =~= seq![]);
        Ok(())
    }

    /// Generates the code of an expression, which leaves its value pushed.
    pub fn gen_expr(&mut self, tree: &Tree<Lowered>) -> (r: Result<(), CodegenError>)
        ensures
            match gen_expr_spec(old(self)@, ast(*tree)) {
                Ok(st) => r is Ok && final(self)@ == st,
                Err(e) => r matches Err(x) && x@ == e,
            },
        decreases tree, 0int,
    {
        match tree {
            Tree::Integer(n, _) => {
                self.emit(cat_int("    li t0, ", *n));
                self.push("t0");
                Ok(())
            },
            Tree::Var(name, _) => match self.lookup(name.as_str()) {
                Some((ty, VarLocation::Local(offset))) => {
                    match self.access(false, "t0", "fp", offset, &ty) {
                        Ok(()) => {},
                        Err(x) => return Err(x),
                    }
                    self.push("t0");
                    Ok(())
                },
                Some((ty, VarLocation::Global(g))) => {
                    self.emit(cat("    la t0, ", g.as_str()));
                    match self.access(false, "t0", "t0", 0, &ty) {
                        Ok(()) => {},
                        Err(x) => return Err(x),
                    }
                    self.push("t0");
                    Ok(())
                },
                None => Err(CodegenError::NotDeclared(name.clone())),
            },
            Tree::String(label, _) => {
                self.emit(cat("    la t0, ", label.as_str()));
                self.push("t0");
                Ok(())
            },
            Tree::Addr(e, _) => match self.gen_lvalue(&**e) {
                Ok(_) => Ok(()),
                Err(x) => Err(x),
            },
            Tree::Deref(e, ty) => {
                match self.gen_expr(&**e) {
                    Ok(()) => {},
                    Err(x) => return Err(x),
                }
                self.pop("t0");
                match self.access(false, "t0", "t0", 0, ty) {
                    Ok(()) => {},
                    Err(x) => return Err(x),
                }
                self.push("t0");
                Ok(())
            },
            Tree::Call(name, args, _) => {
                proof {
                    lemma_asts(args@);
                }
                if args.len() > 8 {
                    return Err(CodegenError::TooManyArgs(name.clone()));
                }
                let n = match self.functions.get(name.as_str()) {
                    Some(f) => f.1,
                    None => return Err(CodegenError::FunctionNotDeclared(name.clone())),
                };
                if n != args.len() {
                    return Err(CodegenError::ArgCount);
                }
                match self.gen_args(args) {
                    Ok(()) => {},
                    Err(x) => return Err(x),
                }
                let ghost after_args = self@;
                let mut i = args.len();
                while i > 0
                    invariant
                        i <= args@.len(),
                        pop_args(after_args, args@.len()) == pop_args(self@, i as nat),
                    decreases i,
                {
                    let reg = cat_nat("a", (i - 1) as u64);
                    self.pop(reg.as_str());
                    i = i - 1;
                }
                self.emit(cat("    call ", name.as_str()));
                self.push("a0");
                Ok(())
            },
            Tree::Assign(l, r, _) => {
                let ty = match self.gen_lvalue(&**l) {
                    Ok(t) => t,
                    Err(x) => return Err(x),
                };
                match self.gen_expr(&**r) {
                    Ok(()) => {},
                    Err(x) => return Err(x),
                }
                self.pop("t1");
                self.pop("t0");
                match self.access(true, "t1", "t0", 0, &ty) {
                    Ok(()) => {},
                    Err(x) => return Err(x),
                }
                self.push("t1");
                Ok(())
            },
            Tree::BinOp(op, l, r, _) => {
                match self.gen_expr(&**l) {
                    Ok(()) => {},
                    Err(x) => return Err(x),
                }
                match self.gen_expr(&**r) {
                    Ok(()) => {},
                    Err(x) => return Err(x),
                }
                self.pop("t1");
                self.pop("t0");
                match self.binop_code(*op, Self::tree_ty(&**l), Self::tree_ty(&**r)) {
                    Ok(()) => {},
                    Err(x) => return Err(x),
                }
                self.push("t0");
                Ok(())
            },
            _ => Err(CodegenError::NotExpression),
        }
    }

    /// Generates the code of the address of an lvalue, which leaves the address pushed; gives
    /// the type of the place.
    fn gen_lvalue(&mut self, tree: &Tree<Lowered>) -> (r: Result<Type, CodegenError>)
        ensures
            match gen_lvalue_spec(old(self)@, ast(*tree)) {
                Ok((st, ty)) => r == Ok::<Type, CodegenError>(ty) && final(self)@ == st,
                Err(e) => r matches Err(x) && x@ == e,
            },
        decreases tree, 0int,
    {
        match tree {
            Tree::Var(name, ty) => match self.lookup(name.as_str()) {
                Some((_, VarLocation::Local(offset))) => {
                    self.emit(cat_int("    li t1, ", offset));
                    self.emit(String::from_str("    add t0, fp, t1"));
                    self.push("t0");
                    Ok(ty.clone())
                },
                Some((_, VarLocation::Global(g))) => {
                    self.emit(cat("    la t0, ", g.as_str()));
                    self.push("t0");
                    Ok(ty.clone())
                },
                None => Err(CodegenError::NotDeclared(name.clone())),
            },
            Tree::Deref(e, ty) => match self.gen_expr(&**e) {
                Ok(()) => Ok(ty.clone()),
                Err(x) => Err(x),
            },
            _ => Err(CodegenError::NotLvalue),
        }
    }

    fn gen_opt(&mut self, o: &Option<Box<Tree<Lowered>>>) -> (r: Result<(), CodegenError>)
        ensures
            match gen_opt_spec(old(self)@, opt_ast(*o)) {
                Ok(st) => r is Ok && final(self)@ == st,
                Err(e) => r matches Err(x) && x@ == e,
            },
    {
        match o {
            Some(e) => {
                match self.gen_expr(&**e) {
                    Ok(()) => {},
                    Err(x) => return Err(x),
                }
                self.pop("t0");
                Ok(())
            },
            None => Ok(()),
        }
    }

    fn gen_stmts(&mut self, trees: &Vec<Tree<Lowered>>) -> (r: Result<(), CodegenError>)
        ensures
            match gen_stmts_spec(old(self)@, asts(trees@)) {
                Ok(st) => r is Ok && final(self)@ == st,
                Err(e) => r matches Err(x) && x@ == e,
            },
        decreases trees, 1int,
    {
        let ghost s = asts(trees@);
        proof {
            lemma_asts(trees@);
            assert(s.skip(0) =~= s);
        }
        let mut k: usize = 0;
        while k < trees.len()
            invariant
                k <= trees@.len(),
                s == asts(trees@),
                s.len() == trees@.len(),
                forall|j: int| 0 <= j < trees@.len() ==> #[trigger] s[j] == ast(trees@[j]),
                gen_stmts_spec(old(self)@, s) == gen_stmts_spec(self@, s.skip(k as int)),
            decreases trees@.len() - k,
        {
            assert(s.skip(k as int)[0] == s[k as int]);
            assert(s.skip(k as int).drop_first() =~= s.skip(k + 1));
            assert(decreases_to!(trees => trees@[k as int]));
            match self.gen_stmt(&trees[k]) {
                Ok(()) => {},
                Err(x) => return Err(x),
            }
            k = k + 1;
        }
        assert(s.skip(k as int) =~= seq![]);
        Ok(())
    }

    #[verifier::rlimit(50)]
    #[verifier::spinoff_prover]
    fn gen_block(&mut self, tree: &Tree<Lowered>) -> (r: Result<(), CodegenError>)
        ensures
            match gen_block_spec(old(self)@, ast(*tree)) {
                Ok(st) => r is Ok && final(self)@ == st,
                Err(e) => r matches Err(x) && x@ == e,
            },
        decreases tree, 0int,
    {
        match tree {
            Tree::Block(trees) => {
                self.env.push(Table::new());
                assert(self@ == push_scope(old(self)@)) by {
                    assert(self@.scopes =~= old(self)@.scopes.push(seq![]));
                }
                match self.gen_stmts(trees) {
                    Ok(()) => {},
                    Err(x) => return Err(x),
                }
                let ghost before = self@;
                if self.env.len() > 0 {
                    self.env.pop();
                    assert(self@.scopes =~= before.scopes.drop_last());
                }
                assert(self@ == pop_scope(before));
                Ok(())
            },
            _ => Err(CodegenError::NotExpression),
        }
    }

    #[verifier::rlimit(50)]
    #[verifier::spinoff_prover]
    fn gen_if(&mut self, tree: &Tree<Lowered>) -> (r: Result<(), CodegenError>)
        ensures
            match gen_if_spec(old(self)@, ast(*tree)) {
                Ok(st) => r is Ok && final(self)@ == st,
                Err(e) => r matches Err(x) && x@ == e,
            },
        decreases tree, 0int,
    {
        match tree {
            Tree::If(cond, a, b) => {
                if self.label == usize::MAX {
                    return Err(CodegenError::Overflow);
                }
                let current = self.label as u64;
                self.label = self.label + 1;
                match self.gen_expr(&**cond) {
                    Ok(()) => {},
                    Err(x) => return Err(x),
                }
                self.pop("t0");
                self.emit(cat_nat("    beq t0, x0, Else", current));
                match self.gen_stmt(&**a) {
                    Ok(()) => {},
                    Err(x) => return Err(x),
                }
                match b {
                    Some(eb) => {
                        assert(opt_ast(*b) == Some(Box::new(ast(**eb))));
                        self.emit(cat_nat("    jal x0, End", current));
                        self.emit(cat_nat3("Else", current, ":"));
                        match self.gen_stmt(&**eb) {
                            Ok(()) => {},
                            Err(x) => return Err(x),
                        }
                        self.emit(cat_nat3("End", current, ":"));
                    },
                    None => {
                        assert(opt_ast::<Lowered>(None) == None::<Box<Ast<Lowered>>>);
                        self.emit(cat_nat3("Else", current, ":"));
                    },
                }
                Ok(())
            },
            _ => Err(CodegenError::NotExpression),
        }
    }

    fn gen_for_cond(&mut self, cond: &Option<Box<Tree<Lowered>>>, current: u64) -> (r: Result<(), CodegenError>)
        ensures
            match gen_for_cond(old(self)@, opt_ast(*cond), decimal_nat(current as nat)) {
                Ok(st) => r is Ok && final(self)@ == st,
                Err(e) => r matches Err(x) && x@ == e,
            },
    {
        match cond {
            Some(c) => {
                match self.gen_expr(&**c) {
                    Ok(()) => {},
                    Err(x) => return Err(x),
                }
                self.pop("t0");
                self.emit(cat_nat("    beq t0, x0, End", current));
                Ok(())
            },
            None => Ok(()),
        }
    }

    #[verifier::rlimit(50)]
    #[verifier::spinoff_prover]
    fn gen_while(&mut self, tree: &Tree<Lowered>) -> (r: Result<(), CodegenError>)
        ensures
            match gen_while_spec(old(self)@, ast(*tree)) {
                Ok(st) => r is Ok && final(self)@ == st,
                Err(e) => r matches Err(x) && x@ == e,
            },
        decreases tree, 0int,
    {
        match tree {
            Tree::While(cond, body) => {
                if self.label == usize::MAX {
                    return Err(CodegenError::Overflow);
                }
                let current = self.label as u64;
                self.label = self.label + 1;
                self.emit(cat_nat3("Begin", current, ":"));
                match self.gen_expr(&**cond) {
                    Ok(()) => {},
                    Err(x) => return Err(x),
                }
                self.pop("t0");
                self.emit(cat_nat("    beq t0, x0, End", current));
                match self.gen_stmt(&**body) {
                    Ok(()) => {},
                    Err(x) => return Err(x),
                }
                self.emit(cat_nat("    jal x0, Begin", current));
                self.emit(cat_nat3("End", current, ":"));
                Ok(())
            },
            _ => Err(CodegenError::NotExpression),
        }
    }

    #[verifier::rlimit(50)]
    #[verifier::spinoff_prover]
    fn gen_for(&mut self, tree: &Tree<Lowered>) -> (r: Result<(), CodegenError>)
        ensures
            match gen_for_spec(old(self)@, ast(*tree)) {
                Ok(st) => r is Ok && final(self)@ == st,
                Err(e) => r matches Err(x) && x@ == e,
            },
        decreases tree, 0int,
    {
        match tree {
            Tree::For(init, cond, update, body) => {
                if self.label == usize::MAX {
                    return Err(CodegenError::Overflow);
                }
                let current = self.label as u64;
                self.label = self.label + 1;
                match self.gen_opt(init) {
                    Ok(()) => {},
                    Err(x) => return Err(x),
                }
                self.emit(cat_nat3("Begin", current, ":"));
                match self.gen_for_cond(cond, current) {
                    Ok(()) => {},
                    Err(x) => return Err(x),
                }
                match self.gen_stmt(&**body) {
                    Ok(()) => {},
                    Err(x) => return Err(x),
                }
                match self.gen_opt(update) {
                    Ok(()) => {},
                    Err(x) => return Err(x),
                }
                self.emit(cat_nat("    jal x0, Begin", current));
                self.emit(cat_nat3("End", current, ":"));
                Ok(())
            },
            _ => Err(CodegenError::NotExpression),
        }
    }

    /// Generates the code of a statement.
    #[verifier::rlimit(50)]
    #[verifier::spinoff_prover]
    pub fn gen_stmt(&mut self, tree: &Tree<Lowered>) -> (r: Result<(), CodegenError>)
        ensures
            match gen_stmt_spec(old(self)@, ast(*tree)) {
                Ok(st) => r is Ok && final(self)@ == st,
                Err(e) => r matches Err(x) && x@ == e,
            },
        decreases tree, 1int,
    {
        match tree {
            Tree::Block(_) => self.gen_block(tree),
            Tree::VarDeclare(ty, name) => match self.declare(name.clone(), ty.clone()) {
                Ok(_) => Ok(()),
                Err(x) => Err(x),
            },
            Tree::If(..) => self.gen_if(tree),
            Tree::While(..) => self.gen_while(tree),
            Tree::For(..) => self.gen_for(tree),
            Tree::Return(e, _) => {
                let frame = self.current_frame_size;
                match self.gen_expr(&**e) {
                    Ok(()) => {},
                    Err(x) => return Err(x),
                }
                self.pop("a0");
                self.epilogue(frame);
                Ok(())
            },
            _ => {
                match self.gen_expr(tree) {
                    Ok(()) => {},
                    Err(x) => return Err(x),
                }
                self.pop("t0");
                Ok(())
            },
        }
    }

    /// The types of the entries of a table, in order.
    fn table_types(t: &Table<Type>) -> (r: Vec<Type>)
        ensures
            r@ == t@.map_values(|p: (Seq<char>, Type)| p.1),
    {
        let entries = t.entries();
        let mut r: Vec<Type> = Vec::new();
        let mut k: usize = 0;
        while k < entries.len()
            invariant
                k <= entries@.len(),
                entries@.len() == t@.len(),
                forall|j: int| 0 <= j < entries@.len() ==> (#[trigger] entries@[j]).0@ == t@[j].0 && entries@[j].1@ == t@[j].1,
                r@ == t@.map_values(|p: (Seq<char>, Type)| p.1).take(k as int),
            decreases entries@.len() - k,
        {
            r.push(entries[k].1.clone());
            assert(t@.map_values(|p: (Seq<char>, Type)| p.1).take(k + 1) =~= t@.map_values(|p: (Seq<char>, Type)| p.1).take(k as int).push(t@[k as int].1));
            k = k + 1;
        }
        assert(t@.map_values(|p: (Seq<char>, Type)| p.1).take(k as int) =~= t@.map_values(|p: (Seq<char>, Type)| p.1));
        r
    }

    /// The types of parameters, in order.
    fn param_types(params: &Vec<(Type, String)>) -> (r: Vec<Type>)
        ensures
            r@ == params_view(params@).map_values(|p: (Type, Seq<char>)| p.0),
    {
        let mut r: Vec<Type> = Vec::new();
        let mut k: usize = 0;
        while k < params.len()
            invariant
                k <= params@.len(),
                r@ == params_view(params@).map_values(|p: (Type, Seq<char>)| p.0).take(k as int),
            decreases params@.len() - k,
        {
            r.push(params[k].0.clone());
            assert(params_view(params@).map_values(|p: (Type, Seq<char>)| p.0).take(k + 1) =~= params_view(params@).map_values(|p: (Type, Seq<char>)| p.0).take(k as int).push(params@[k as int].0));
            k = k + 1;
        }
        assert(params_view(params@).map_values(|p: (Type, Seq<char>)| p.0).take(k as int) =~= params_view(params@).map_values(|p: (Type, Seq<char>)| p.0));
        r
    }

    /// Generates the code of a function.
    #[verifier::loop_isolation(false)]
    fn gen_func(&mut self, tree: &Tree<Lowered>) -> (r: Result<(), CodegenError>)
        ensures
            match gen_func_spec(old(self)@, ast(*tree)) {
                Ok(st) => r is Ok && final(self)@ == st,
                Err(e) => r matches Err(x) && x@ == e,
            },
    {
        match tree {
            Tree::FuncDef(_, name, params, body) => {
                let mut env: Vec<Table<(Type, i64)>> = Vec::new();
                env.push(Table::new());
                self.env = env;
                self.stack_offset = 0;
                assert(self@.scopes =~= seq![seq![]]);
                self.emit(cat(name.as_str(), ":"));
                let mut locals: Table<Type> = Table::new();
                Self::collect_locals(&**body, &mut locals);
                let locals_size = match Self::get_frame_size(&Self::table_types(&locals)) {
                    Ok(n) => n,
                    Err(x) => return Err(x),
                };
                let params_size = match Self::get_frame_size(&Self::param_types(params)) {
                    Ok(n) => n,
                    Err(x) => return Err(x),
                };
                if locals_size > usize::MAX - 15 || params_size > usize::MAX - 15 - locals_size {
                    return Err(CodegenError::Overflow);
                }
                let frame_size = (locals_size + params_size + 15) / 16 * 16;
                self.current_frame_size = frame_size;
                self.prologue(frame_size);
                let ghost pv = params_view(params@);
                let ghost start = self@;
                let mut k: usize = 0;
                while k < params.len()
                    invariant
                        k <= params@.len(),
                        pv == params_view(params@),
                        store_params(start, pv, 0) == store_params(self@, pv, k as int),
                    decreases params@.len() - k,
                {
                    let offset = match self.declare(params[k].1.clone(), params[k].0.clone()) {
                        Ok(o) => o,
                        Err(x) => return Err(x),
                    };
                    let reg = cat_nat("a", k as u64);
                    match self.access(true, reg.as_str(), "fp", offset, &params[k].0) {
                        Ok(()) => {},
                        Err(x) => return Err(x),
                    }
                    k = k + 1;
                }
                match self.gen_stmt(&**body) {
                    Ok(()) => {},
                    Err(x) => return Err(x),
                }
                self.epilogue(frame_size);
                self.current_frame_size = 0;
                Ok(())
            },
            _ => Err(CodegenError::NotFunction),
        }
    }

    /// The data lines of the globals.
    #[verifier::loop_isolation(false)]
    fn gen_globals(&mut self) -> (r: Result<(), CodegenError>)
        ensures
            match data_globals(old(self)@, old(self)@.globals, 0) {
                Ok(st) => r is Ok && final(self)@ == st,
                Err(e) => r matches Err(x) && x@ == e,
            },
            final(self)@.strings == old(self)@.strings,
    {
        let ghost gs = self@.globals;
        let mut globals: Vec<(String, Type)> = Vec::new();
        let entries = self.globals.entries();
        let mut k: usize = 0;
        while k < entries.len()
            invariant
                k <= entries@.len(),
                entries@.len() == gs.len(),
                forall|j: int| 0 <= j < entries@.len() ==> (#[trigger] entries@[j]).0@ == gs[j].0 && entries@[j].1@ == gs[j].1,
                globals@.len() == k,
                forall|j: int| 0 <= j < k ==> (#[trigger] globals@[j]).0@ == gs[j].0 && globals@[j].1 == gs[j].1,
            decreases entries@.len() - k,
        {
            globals.push((entries[k].0.clone(), entries[k].1.clone()));
            k = k + 1;
        }
        let mut k: usize = 0;
        let ghost s1 = self@;
        while k < globals.len()
            invariant
                k <= globals@.len(),
                globals@.len() == gs.len(),
                forall|j: int| 0 <= j < globals@.len() ==> (#[trigger] globals@[j]).0@ == gs[j].0 && globals@[j].1 == gs[j].1,
                data_globals(s1, gs, 0) == data_globals(self@, gs, k as int),
                self@.strings == s1.strings,
            decreases globals@.len() - k,
        {
            let n = match globals[k].1.checked_size() {
                Some(n) => n,
                None => return Err(CodegenError::Overflow),
            };
            self.emit(cat(globals[k].0.as_str(), ":"));
            self.emit(cat_nat("    .space ", n as u64));
            k = k + 1;
        }
        Ok(())
    }

    /// The data lines of the string literals.
    fn gen_strings(&mut self)
        ensures
            final(self)@ == data_strings(old(self)@, old(self)@.strings, 0),
    {
        let ghost ss = self@.strings;
        let mut strings: Vec<(String, String)> = Vec::new();
        let entries = self.strings.entries();
        let mut k: usize = 0;
        while k < entries.len()
            invariant
                k <= entries@.len(),
                entries@.len() == ss.len(),
                forall|j: int| 0 <= j < entries@.len() ==> (#[trigger] entries@[j]).0@ == ss[j].0 && entries@[j].1@ == ss[j].1,
                strings@.len() == k,
                forall|j: int| 0 <= j < k ==> (#[trigger] strings@[j]).0@ == ss[j].0 && strings@[j].1@ == ss[j].1,
            decreases entries@.len() - k,
        {
            strings.push((entries[k].0.clone(), entries[k].1.clone()));
            k = k + 1;
        }
        let ghost s2 = self@;
        let mut k: usize = 0;
        while k < strings.len()
            invariant
                k <= strings@.len(),
                strings@.len() == ss.len(),
                forall|j: int| 0 <= j < strings@.len() ==> (#[trigger] strings@[j]).0@ == ss[j].0 && strings@[j].1@ == ss[j].1,
                data_strings(s2, ss, 0) == data_strings(self@, ss, k as int),
            decreases strings@.len() - k,
        {
            self.emit(cat(strings[k].0.as_str(), ":"));
            self.emit(cat3("    .ascii \"", strings[k].1.as_str(), "\""));
            k = k + 1;
        }
    }

    /// Records the functions of the items `trees`; tells whether `main` is among them.
    fn register_functions(&mut self, trees: &Vec<Tree<Lowered>>) -> (r: Result<bool, CodegenError>)
        ensures
            match collect_fns(seq![], false, asts(trees@), 0) {
                Ok((fs, has_main)) => r == Ok::<bool, CodegenError>(has_main) && final(self)@ == (
                CodegenState { functions: fs, ..old(self)@ }),
                Err(e) => r matches Err(x) && x@ == e,
            },
    {
        let ghost ts = asts(trees@);
        proof {
            lemma_asts(trees@);
        }
        self.functions.clear();
        let mut has_main = false;
        let mut k: usize = 0;
        while k < trees.len()
            invariant
                k <= trees@.len(),
                ts == asts(trees@),
                ts.len() == trees@.len(),
                forall|j: int| 0 <= j < trees@.len() ==> #[trigger] ts[j] == ast(trees@[j]),
                collect_fns(seq![], false, ts, 0) == collect_fns(self@.functions, has_main, ts, k as int),
                self@ == (CodegenState { functions: self@.functions, ..old(self)@ }),
            decreases trees@.len() - k,
        {
            match &trees[k] {
                Tree::FuncDef(ty, name, params, _) => {
                    if params.len() > 8 {
                        return Err(CodegenError::TooManyParams(name.clone()));
                    }
                    if self.functions.contains_key(name.as_str()) {
                        return Err(CodegenError::DoubleFunction(name.clone()));
                    }
                    if crate::text::str_eq(name.as_str(), "main") {
                        has_main = true;
                    }
                    self.functions.push(name.clone(), (ty.clone(), params.len()));
                },
                _ => {},
            }
            k = k + 1;
        }
        Ok(has_main)
    }

    /// The code of every item, each a function.
    fn gen_all(&mut self, trees: &Vec<Tree<Lowered>>) -> (r: Result<(), CodegenError>)
        ensures
            match gen_funcs(old(self)@, asts(trees@), 0) {
                Ok(st) => r is Ok && final(self)@ == st,
                Err(e) => r matches Err(x) && x@ == e,
            },
    {
        let ghost ts = asts(trees@);
        proof {
            lemma_asts(trees@);
        }
        let mut k: usize = 0;
        while k < trees.len()
            invariant
                k <= trees@.len(),
                ts == asts(trees@),
                ts.len() == trees@.len(),
                forall|j: int| 0 <= j < trees@.len() ==> #[trigger] ts[j] == ast(trees@[j]),
                gen_funcs(old(self)@, ts, 0) == gen_funcs(self@, ts, k as int),
            decreases trees@.len() - k,
        {
            match self.gen_func(&trees[k]) {
                Ok(()) => {},
                Err(x) => return Err(x),
            }
            k = k + 1;
        }
        Ok(())
    }

    /// Generates the code of a program that code can be generated for: one that is a `Program`
    /// whose functions have at most 8 parameters, are named once each and include `main`, and
    /// whose code needs no impossible load, store or size. The data section with the globals and
    /// the string literals comes first, then the text section with every function; the lines are
    /// those of `output`.
    pub fn generate(&mut self, tree: &Tree<Lowered>)
        requires
            generate_spec(old(self)@, ast(*tree)) is Ok,
        ensures
            final(self)@ == generate_spec(old(self)@, ast(*tree))->Ok_0,
    {
        match self.generate_result(tree) {
            Ok(()) => {},
            Err(_) => vstd::pervasive::unreached(),
        }
    }

    /// Generates the code of a program, or gives the fault that stops it.
    pub fn generate_result(&mut self, tree: &Tree<Lowered>) -> (r: Result<(), CodegenError>)
        ensures
            match generate_spec(old(self)@, ast(*tree)) {
                Ok(st) => r is Ok && final(self)@ == st,
                Err(e) => r matches Err(x) && x@ == e,
            },
    {
        let trees = match tree {
            Tree::Program(trees) => trees,
            _ => return Err(CodegenError::NotProgram),
        };
        self.emit(String::from_str(".data"));
        self.emit(String::from_str(".align 4"));
        match self.gen_globals() {
            Ok(()) => {},
            Err(x) => return Err(x),
        }
        self.gen_strings();
        self.emit(String::from_str(".text"));
        self.emit(String::from_str(".globl main"));
        let has_main = match self.register_functions(trees) {
            Ok(h) => h,
            Err(x) => return Err(x),
        };
        if !has_main {
            return Err(CodegenError::MissingMain);
        }
        self.gen_all(trees)
    }
}


/// `b` is where generating code from `a` may end: the lines written stay and more may follow,
/// the label counter does not go back, and the globals, literals and functions are as they were.
pub open spec fn cg_follows(a: CodegenState, b: CodegenState) -> bool {
    &&& a.out.len() <= b.out.len()
    &&& b.out.subrange(0, a.out.len() as int) == a.out
    &&& a.label <= b.label
    &&& b.globals == a.globals
    &&& b.strings == a.strings
    &&& b.functions == a.functions
}

/// The line that pushes a value on the stack.
pub open spec fn push_line() -> Seq<char> {
    "    addi sp, sp, -8"@
}

/// The line that pops a value from the stack.
pub open spec fn pop_line() -> Seq<char> {
    "    addi sp, sp, 8"@
}

/// What a line does to the number of values on the stack.
pub open spec fn line_effect(l: Seq<char>) -> int {
    if l == push_line() {
        1
    } else if l == pop_line() {
        -1
    } else {
        0
    }
}

/// How many more values than it found lines leave on the stack: their pushes less their pops.
pub open spec fn stack_effect(ls: Seq<Seq<char>>) -> int
    decreases ls.len(),
{
    if ls.len() == 0 {
        0
    } else {
        stack_effect(ls.drop_last()) + line_effect(ls.last())
    }
}

/// What the lines written from `a` to `b` leave on the stack.
pub open spec fn pushed(a: CodegenState, b: CodegenState) -> int {
    stack_effect(b.out.skip(a.out.len() as int))
}

/// A line that defines a label: one that does not start with a space, as instructions do.
pub open spec fn is_label_line(l: Seq<char>) -> bool {
    !(l.len() > 0 && l[0] == ' ')
}

/// How many of the lines define a label.
pub open spec fn label_count(ls: Seq<Seq<char>>) -> int
    decreases ls.len(),
{
    if ls.len() == 0 {
        0
    } else {
        label_count(ls.drop_last()) + if is_label_line(ls.last()) { 1int } else { 0int }
    }
}

/// How many label lines were written from `a` to `b`.
pub open spec fn labels_written(a: CodegenState, b: CodegenState) -> int {
    label_count(b.out.skip(a.out.len() as int))
}

/// A line that jumps: in the code written here, the lines whose fifth character is `b` or `j`
/// are the indented `beq` and `jal` lines.
pub open spec fn is_jump_line(l: Seq<char>) -> bool {
    l.len() > 4 && (l[4] == 'b' || l[4] == 'j')
}

/// How many of the lines jump.
pub open spec fn jump_count(ls: Seq<Seq<char>>) -> int
    decreases ls.len(),
{
    if ls.len() == 0 {
        0
    } else {
        jump_count(ls.drop_last()) + if is_jump_line(ls.last()) { 1int } else { 0int }
    }
}

/// How many jump lines were written from `a` to `b`.
pub open spec fn jumps_written(a: CodegenState, b: CodegenState) -> int {
    jump_count(b.out.skip(a.out.len() as int))
}

proof fn lemma_effect_add(x: Seq<Seq<char>>, y: Seq<Seq<char>>)
    ensures
        stack_effect(x + y) == stack_effect(x) + stack_effect(y),
        label_count(x + y) == label_count(x) + label_count(y),
        jump_count(x + y) == jump_count(x) + jump_count(y),
    decreases y.len(),
{
    if y.len() == 0 {
        assert(x + y =~= x);
    } else {
        lemma_effect_add(x, y.drop_last());
        assert((x + y).drop_last() =~= x + y.drop_last());
        assert((x + y).last() == y.last());
    }
}

/// A line shorter than the pop line, or that differs from both stack lines where they hold
/// `a` and `i`, leaves the stack alone.
proof fn lemma_quiet(l: Seq<char>)
    requires
        l.len() < 18 || (l.len() > 7 && (l[4] != 'a' || l[7] != 'i')),
    ensures
        line_effect(l) == 0,
{
    reveal_strlit("    addi sp, sp, -8");
    reveal_strlit("    addi sp, sp, 8");
}

/// The label line of the label whose number is `key.0` and whose kind is `key.1`: 0 for
/// `Else`, 1 for `End`, 2 for `Begin`.
pub open spec fn label_line(key: (nat, int)) -> Seq<char> {
    (if key.1 == 0 {
        "Else"@
    } else if key.1 == 1 {
        "End"@
    } else {
        "Begin"@
    }) + decimal_nat(key.0) + ":"@
}

/// A number with one of the three kinds of label.
pub open spec fn is_key(key: (nat, int)) -> bool {
    0 <= key.1 < 3
}

/// The key whose label line `l` is, where it is one.
pub open spec fn label_key(l: Seq<char>) -> (nat, int) {
    choose|k: (nat, int)| is_key(k) && label_line(k) == l
}

/// The label lines among `ls` are the lines of keys in `keys`, and none of them is there twice.
pub open spec fn labels_once(ls: Seq<Seq<char>>, keys: Set<(nat, int)>) -> bool {
    &&& forall|i: int|
        0 <= i < ls.len() && is_label_line(#[trigger] ls[i]) ==> is_key(label_key(ls[i])) && label_line(
            label_key(ls[i]),
        ) == ls[i] && keys.contains(label_key(ls[i]))
    &&& forall|i: int, j: int|
        #![trigger ls[i], ls[j]]
        0 <= i < ls.len() && 0 <= j < ls.len() && i != j && is_label_line(ls[i]) ==> ls[i] != ls[j]
}

/// The label lines written from `a` to `b` are lines of keys in `keys`, each written once.
pub open spec fn labels_between(a: CodegenState, b: CodegenState, keys: Set<(nat, int)>) -> bool {
    labels_once(b.out.skip(a.out.len() as int), keys)
}

/// The keys of the label numbers from `lo` up to `hi`, `hi` left out.
pub open spec fn label_keys(lo: nat, hi: nat) -> Set<(nat, int)> {
    Set::new(|k: (nat, int)| lo <= k.0 < hi)
}

/// Two keys with the same label line are the same key.
proof fn lemma_label_line_injective(k1: (nat, int), k2: (nat, int))
    requires
        is_key(k1),
        is_key(k2),
        label_line(k1) == label_line(k2),
    ensures
        k1 == k2,
{
    reveal_strlit("Else");
    reveal_strlit("End");
    reveal_strlit("Begin");
    reveal_strlit(":");
    let l = label_line(k1);
    let p1 = if k1.1 == 0 { "Else"@ } else if k1.1 == 1 { "End"@ } else { "Begin"@ };
    let p2 = if k2.1 == 0 { "Else"@ } else if k2.1 == 1 { "End"@ } else { "Begin"@ };
    lemma_decimal_nat_len(k1.0);
    lemma_decimal_nat_len(k2.0);
    assert(l[0] == p1[0] && l[1] == p1[1]);
    assert(label_line(k2)[0] == p2[0] && label_line(k2)[1] == p2[1]);
    assert(k1.1 == k2.1);
    assert(p1 == p2);
    let d1 = decimal_nat(k1.0);
    let d2 = decimal_nat(k2.0);
    assert(l.subrange(p1.len() as int, l.len() - 1) =~= d1);
    assert(label_line(k2).subrange(p2.len() as int, label_line(k2).len() - 1) =~= d2);
    lemma_decimal_nat_injective(k1.0, k2.0);
}

/// The key of the label line of a key is that key.
proof fn lemma_label_key(k: (nat, int))
    requires
        is_key(k),
    ensures
        label_key(label_line(k)) == k,
{
    let c = label_key(label_line(k));
    assert(is_key(k) && label_line(k) == label_line(k));
    assert(is_key(c) && label_line(c) == label_line(k));
    lemma_label_line_injective(c, k);
}

/// Lines none of which defines a label.
proof fn lemma_label_count_zero(ls: Seq<Seq<char>>)
    requires
        label_count(ls) == 0,
    ensures
        forall|i: int| 0 <= i < ls.len() ==> !is_label_line(#[trigger] ls[i]),
    decreases ls.len(),
{
    if ls.len() > 0 {
        lemma_label_count_nonneg(ls.drop_last());
        lemma_label_count_zero(ls.drop_last());
        assert forall|i: int| 0 <= i < ls.len() implies !is_label_line(#[trigger] ls[i]) by {
            if i < ls.len() - 1 {
                assert(ls[i] == ls.drop_last()[i]);
            }
        }
    }
}

proof fn lemma_label_count_nonneg(ls: Seq<Seq<char>>)
    ensures
        label_count(ls) >= 0,
    decreases ls.len(),
{
    if ls.len() > 0 {
        lemma_label_count_nonneg(ls.drop_last());
    }
}

/// Code that writes no label line writes the label lines of any keys.
proof fn lemma_labels_none(a: CodegenState, b: CodegenState, keys: Set<(nat, int)>)
    requires
        labels_written(a, b) == 0,
    ensures
        labels_between(a, b, keys),
{
    lemma_label_count_zero(b.out.skip(a.out.len() as int));
}

/// Writing the label line of a key.
proof fn lemma_labels_own(a: CodegenState, k: (nat, int))
    requires
        is_key(k),
    ensures
        labels_between(a, emit(a, label_line(k)), set![k]),
        cg_follows(a, emit(a, label_line(k))),
{
    lemma_cg_emit(a, label_line(k));
    lemma_label_key(k);
    assert(emit(a, label_line(k)).out.skip(a.out.len() as int) =~= seq![label_line(k)]);
}

/// The label lines of two pieces of code, one after the other, whose keys do not meet.
proof fn lemma_labels_join(
    a: CodegenState,
    b: CodegenState,
    c: CodegenState,
    k1: Set<(nat, int)>,
    k2: Set<(nat, int)>,
)
    requires
        cg_follows(a, b),
        cg_follows(b, c),
        labels_between(a, b, k1),
        labels_between(b, c, k2),
        k1.disjoint(k2),
    ensures
        labels_between(a, c, k1 + k2),
        cg_follows(a, c),
{
    lemma_cg_trans(a, b, c);
    let x = b.out.skip(a.out.len() as int);
    let y = c.out.skip(b.out.len() as int);
    let z = c.out.skip(a.out.len() as int);
    assert(z =~= x + y);
    assert forall|i: int| 0 <= i < z.len() && is_label_line(#[trigger] z[i]) implies is_key(label_key(z[i]))
        && label_line(label_key(z[i])) == z[i] && (k1 + k2).contains(label_key(z[i])) by {
        if i < x.len() {
            assert(z[i] == x[i]);
        } else {
            assert(z[i] == y[i - x.len()]);
        }
    }
    assert forall|i: int, j: int|
        #![trigger z[i], z[j]]
        0 <= i < z.len() && 0 <= j < z.len() && i != j && is_label_line(z[i]) implies z[i] != z[j] by {
        if i < x.len() {
            assert(z[i] == x[i]);
        } else {
            assert(z[i] == y[i - x.len()]);
        }
        if j < x.len() {
            assert(z[j] == x[j]);
        } else {
            assert(z[j] == y[j - x.len()]);
        }
        if i < x.len() && j >= x.len() && z[i] == z[j] {
            assert(k1.contains(label_key(x[i])));
            assert(k2.contains(label_key(y[j - x.len()])));
        }
        if j < x.len() && i >= x.len() && z[i] == z[j] {
            assert(k2.contains(label_key(y[i - x.len()])));
            assert(k1.contains(label_key(x[j])));
        }
    }
}

/// Label lines of some keys are label lines of any more keys.
proof fn lemma_labels_weaken(a: CodegenState, b: CodegenState, k1: Set<(nat, int)>, k2: Set<(nat, int)>)
    requires
        labels_between(a, b, k1),
        k1.subset_of(k2),
    ensures
        labels_between(a, b, k2),
{
}

/// The name of the label of a key, as the jumps to it write it.
pub open spec fn label_name(key: (nat, int)) -> Seq<char> {
    (if key.1 == 0 {
        "Else"@
    } else if key.1 == 1 {
        "End"@
    } else {
        "Begin"@
    }) + decimal_nat(key.0)
}

/// A line that jumps to the label of `key`, when a value is zero or always.
pub open spec fn jumps_to(l: Seq<char>, key: (nat, int)) -> bool {
    l == "    beq t0, x0, "@ + label_name(key) || l == "    jal x0, "@ + label_name(key)
}

/// The key of the label a jump line jumps to.
pub open spec fn jump_key(l: Seq<char>) -> (nat, int) {
    choose|k: (nat, int)| is_key(k) && jumps_to(l, k)
}

/// Every jump line written from `a` to `b` jumps to the label of a key whose label line is
/// written from `c` to `d`.
pub open spec fn jumps_land(a: CodegenState, b: CodegenState, c: CodegenState, d: CodegenState) -> bool {
    forall|i: int|
        0 <= i < b.out.len() - a.out.len() && is_jump_line(#[trigger] b.out[a.out.len() + i]) ==> {
            let k = jump_key(b.out[a.out.len() + i]);
            &&& is_key(k)
            &&& jumps_to(b.out[a.out.len() + i], k)
            &&& d.out.skip(c.out.len() as int).contains(label_line(k))
        }
}

/// The jump lines of the code of `if`, `while` and `for` jump to the labels of their number.
proof fn lemma_jump_forms(n: nat)
    ensures
        jumps_to("    beq t0, x0, Else"@ + decimal_nat(n), (n, 0)),
        jumps_to("    beq t0, x0, End"@ + decimal_nat(n), (n, 1)),
        jumps_to("    jal x0, End"@ + decimal_nat(n), (n, 1)),
        jumps_to("    jal x0, Begin"@ + decimal_nat(n), (n, 2)),
{
    reveal_strlit("    beq t0, x0, Else");
    reveal_strlit("    beq t0, x0, End");
    reveal_strlit("    jal x0, End");
    reveal_strlit("    jal x0, Begin");
    reveal_strlit("    beq t0, x0, ");
    reveal_strlit("    jal x0, ");
    reveal_strlit("Else");
    reveal_strlit("End");
    reveal_strlit("Begin");
    let d = decimal_nat(n);
    assert("    beq t0, x0, Else"@ + d =~= "    beq t0, x0, "@ + ("Else"@ + d));
    assert("    beq t0, x0, End"@ + d =~= "    beq t0, x0, "@ + ("End"@ + d));
    assert("    jal x0, End"@ + d =~= "    jal x0, "@ + ("End"@ + d));
    assert("    jal x0, Begin"@ + d =~= "    jal x0, "@ + ("Begin"@ + d));
}

/// A jump line jumps to the label of one key only.
proof fn lemma_jump_key(l: Seq<char>, k: (nat, int))
    requires
        is_key(k),
        jumps_to(l, k),
    ensures
        jump_key(l) == k,
{
    reveal_strlit("    beq t0, x0, ");
    reveal_strlit("    jal x0, ");
    let c = jump_key(l);
    assert(is_key(k) && jumps_to(l, k));
    assert(is_key(c) && jumps_to(l, c));
    let pb = "    beq t0, x0, "@;
    let pj = "    jal x0, "@;
    let (p1, p2) = (if l == pb + label_name(k) { pb } else { pj }, if l == pb + label_name(c) { pb } else { pj });
    assert(l[4] == p1[4] && l[4] == p2[4]);
    assert(p1 == p2);
    assert(l.subrange(p1.len() as int, l.len() as int) =~= label_name(k));
    assert(l.subrange(p2.len() as int, l.len() as int) =~= label_name(c));
    assert(label_line(k) == label_name(k) + ":"@);
    assert(label_line(c) == label_name(c) + ":"@);
    lemma_label_line_injective(c, k);
}

proof fn lemma_jump_count_zero(ls: Seq<Seq<char>>)
    requires
        jump_count(ls) == 0,
    ensures
        forall|i: int| 0 <= i < ls.len() ==> !is_jump_line(#[trigger] ls[i]),
    decreases ls.len(),
{
    if ls.len() > 0 {
        lemma_jump_count_nonneg(ls.drop_last());
        lemma_jump_count_zero(ls.drop_last());
        assert forall|i: int| 0 <= i < ls.len() implies !is_jump_line(#[trigger] ls[i]) by {
            if i < ls.len() - 1 {
                assert(ls[i] == ls.drop_last()[i]);
            }
        }
    }
}

proof fn lemma_jump_count_nonneg(ls: Seq<Seq<char>>)
    ensures
        jump_count(ls) >= 0,
    decreases ls.len(),
{
    if ls.len() > 0 {
        lemma_jump_count_nonneg(ls.drop_last());
    }
}

/// Code that writes no jump line.
proof fn lemma_jumps_none(a: CodegenState, b: CodegenState, c: CodegenState, d: CodegenState)
    requires
        out_follows(a, b),
        jumps_written(a, b) == 0,
    ensures
        jumps_land(a, b, c, d),
{
    let ls = b.out.skip(a.out.len() as int);
    lemma_jump_count_zero(ls);
    assert forall|i: int| 0 <= i < b.out.len() - a.out.len() implies !is_jump_line(#[trigger] b.out[a.out.len() + i]) by {
        assert(b.out[a.out.len() + i] == ls[i]);
    }
}

/// One jump line to the label of a key whose label line is written from `x` to `y`.
proof fn lemma_jumps_own(a: CodegenState, l: Seq<char>, k: (nat, int), x: CodegenState, y: CodegenState)
    requires
        is_key(k),
        jumps_to(l, k),
        y.out.skip(x.out.len() as int).contains(label_line(k)),
    ensures
        jumps_land(a, emit(a, l), x, y),
{
    lemma_jump_key(l, k);
    assert(emit(a, l).out[a.out.len() as int] == l);
}

/// A line written between `x` and `y`.
proof fn lemma_line_between(x: CodegenState, c: CodegenState, l: Seq<char>, y: CodegenState)
    requires
        out_follows(x, c),
        out_follows(emit(c, l), y),
    ensures
        y.out.skip(x.out.len() as int).contains(l),
{
    let i = c.out.len() - x.out.len();
    assert(y.out[c.out.len() as int] == emit(c, l).out[c.out.len() as int]);
    assert(y.out.skip(x.out.len() as int)[i] == l);
}

/// The jumps of two pieces of code, one after the other.
proof fn lemma_jumps_join(a: CodegenState, b: CodegenState, c: CodegenState, x: CodegenState, y: CodegenState)
    requires
        out_follows(a, b),
        out_follows(b, c),
        jumps_land(a, b, x, y),
        jumps_land(b, c, x, y),
    ensures
        jumps_land(a, c, x, y),
        out_follows(a, c),
{
    assert(c.out.subrange(0, a.out.len() as int) =~= c.out.subrange(0, b.out.len() as int).subrange(
        0,
        a.out.len() as int,
    ));
    assert forall|i: int| 0 <= i < c.out.len() - a.out.len() && is_jump_line(#[trigger] c.out[a.out.len() + i]) implies {
        let k = jump_key(c.out[a.out.len() + i]);
        &&& is_key(k)
        &&& jumps_to(c.out[a.out.len() + i], k)
        &&& y.out.skip(x.out.len() as int).contains(label_line(k))
    } by {
        if a.out.len() + i < b.out.len() {
            assert(c.out[a.out.len() + i] == c.out.subrange(0, b.out.len() as int)[a.out.len() + i]);
            assert(c.out[a.out.len() + i] == b.out[a.out.len() + i]);
        } else {
            let j = i - (b.out.len() - a.out.len());
            assert(c.out[a.out.len() + i] == c.out[b.out.len() + j]);
        }
    }
}

/// Jumps that land in a piece of code land in any code around it.
proof fn lemma_jumps_widen(
    a: CodegenState,
    b: CodegenState,
    c: CodegenState,
    d: CodegenState,
    x: CodegenState,
    y: CodegenState,
)
    requires
        jumps_land(a, b, c, d),
        out_follows(x, c),
        out_follows(c, d),
        out_follows(d, y),
    ensures
        jumps_land(a, b, x, y),
{
    let small = d.out.skip(c.out.len() as int);
    let big = y.out.skip(x.out.len() as int);
    assert forall|m: int| 0 <= m < small.len() implies big[m + (c.out.len() - x.out.len())] == #[trigger] small[m] by {
        assert(small[m] == d.out[c.out.len() + m]);
        assert(d.out[c.out.len() + m] == y.out.subrange(0, d.out.len() as int)[c.out.len() + m]);
    }
    assert forall|l: Seq<char>| small.contains(l) implies big.contains(l) by {
        let m = choose|m: int| 0 <= m < small.len() && small[m] == l;
        assert(big[m + (c.out.len() - x.out.len())] == small[m]);
    }
}

proof fn lemma_cg_refl(a: CodegenState)
    ensures
        cg_follows(a, a),
        pushed(a, a) == 0,
        labels_written(a, a) == 0,
        jumps_written(a, a) == 0,
{
    assert(a.out.subrange(0, a.out.len() as int) =~= a.out);
    assert(a.out.skip(a.out.len() as int) =~= Seq::<Seq<char>>::empty());
}

proof fn lemma_cg_trans(a: CodegenState, b: CodegenState, c: CodegenState)
    requires
        cg_follows(a, b),
        cg_follows(b, c),
    ensures
        cg_follows(a, c),
        pushed(a, c) == pushed(a, b) + pushed(b, c),
        labels_written(a, c) == labels_written(a, b) + labels_written(b, c),
        jumps_written(a, c) == jumps_written(a, b) + jumps_written(b, c),
{
    assert(c.out.subrange(0, a.out.len() as int) =~= c.out.subrange(0, b.out.len() as int).subrange(
        0,
        a.out.len() as int,
    ));
    assert(c.out.skip(a.out.len() as int) =~= b.out.skip(a.out.len() as int) + c.out.skip(b.out.len() as int));
    lemma_effect_add(b.out.skip(a.out.len() as int), c.out.skip(b.out.len() as int));
}

proof fn lemma_cg_emit(st: CodegenState, l: Seq<char>)
    ensures
        cg_follows(st, emit(st, l)),
        pushed(st, emit(st, l)) == line_effect(l),
        labels_written(st, emit(st, l)) == if is_label_line(l) { 1int } else { 0int },
        jumps_written(st, emit(st, l)) == if is_jump_line(l) { 1int } else { 0int },
{
    assert(emit(st, l).out.subrange(0, st.out.len() as int) =~= st.out);
    let d = emit(st, l).out.skip(st.out.len() as int);
    assert(d =~= seq![l]);
    assert(d.drop_last() =~= Seq::<Seq<char>>::empty());
    assert(stack_effect(d.drop_last()) == 0);
    assert(label_count(d.drop_last()) == 0);
    assert(jump_count(d.drop_last()) == 0);
    assert(d.last() == l);
}

proof fn lemma_stack_lines()
    ensures
        line_effect(push_line()) == 1,
        line_effect(pop_line()) == -1,
        !is_label_line(push_line()),
        !is_label_line(pop_line()),
        !is_jump_line(push_line()),
        !is_jump_line(pop_line()),
{
    reveal_strlit("    addi sp, sp, -8");
    reveal_strlit("    addi sp, sp, 8");
    assert(push_line().len() == 19);
    assert(pop_line().len() == 18);
}

proof fn lemma_cg_emit2(st: CodegenState, a: Seq<char>, b: Seq<char>)
    ensures
        cg_follows(st, emit2(st, a, b)),
        cg_follows(st, sp_push(st, a)),
        cg_follows(st, sp_pop(st, a)),
        pushed(st, emit2(st, a, b)) == line_effect(a) + line_effect(b),
        pushed(st, sp_push(st, a)) == 1,
        pushed(st, sp_pop(st, a)) == -1,
        labels_written(st, emit2(st, a, b)) == (if is_label_line(a) { 1int } else { 0int }) + (if is_label_line(b) {
            1int
        } else {
            0int
        }),
        labels_written(st, sp_push(st, a)) == 0,
        labels_written(st, sp_pop(st, a)) == 0,
        jumps_written(st, emit2(st, a, b)) == (if is_jump_line(a) { 1int } else { 0int }) + (if is_jump_line(b) {
            1int
        } else {
            0int
        }),
        jumps_written(st, sp_push(st, a)) == 0,
        jumps_written(st, sp_pop(st, a)) == 0,
{
    lemma_stack_lines();
    lemma_cg_emit(st, a);
    lemma_cg_emit(emit(st, a), b);
    lemma_cg_trans(st, emit(st, a), emit2(st, a, b));
    let sd = "    sd "@ + a + ", 0(sp)"@;
    let ld = "    ld "@ + a + ", 0(sp)"@;
    reveal_strlit("    sd ");
    reveal_strlit("    ld ");
    lemma_quiet(sd);
    lemma_quiet(ld);
    lemma_cg_emit(emit(st, push_line()), sd);
    lemma_cg_emit(st, push_line());
    lemma_cg_trans(st, emit(st, push_line()), sp_push(st, a));
    lemma_cg_emit(st, ld);
    lemma_cg_emit(emit(st, ld), pop_line());
    lemma_cg_trans(st, emit(st, ld), sp_pop(st, a));
}

proof fn lemma_cg_access(st: CodegenState, store: bool, reg: Seq<char>, base: Seq<char>, offset: i64, ty: Type)
    ensures
        access(st, store, reg, base, offset, ty) matches Ok(s2) ==> s2.scopes == st.scopes && cg_follows(st, s2) && s2.label == st.label
            && pushed(st, s2) == 0 && labels_written(st, s2) == 0 && jumps_written(st, s2) == 0,
{
    let l1 = "    li t2, "@ + decimal(offset as int);
    let l2 = "    add t2, t2, "@ + base;
    let s1 = emit2(st, l1, l2);
    reveal_strlit("    li t2, ");
    reveal_strlit("    add t2, t2, ");
    lemma_quiet(l1);
    lemma_quiet(l2);
    lemma_cg_emit2(st, l1, l2);
    if let Ok(s2) = access(st, store, reg, base, offset, ty) {
        let l = s2.out.last();
        assert(s2 == emit(s1, l));
        reveal_strlit("    ");
        reveal_strlit(" ");
        reveal_strlit(", 0(t2)");
        reveal_strlit("sb");
        reveal_strlit("lb");
        reveal_strlit("sw");
        reveal_strlit("lw");
        reveal_strlit("sd");
        reveal_strlit("ld");
        assert(l[4] == 's' || l[4] == 'l');
        lemma_quiet(l);
        lemma_cg_emit(s1, l);
        lemma_cg_trans(st, s1, s2);
    }
}

proof fn lemma_cg_scale(st: CodegenState, inner: Type, reg: Seq<char>)
    ensures
        scale(st, inner, reg) matches Ok(s2) ==> s2.scopes == st.scopes && cg_follows(st, s2) && pushed(st, s2) == 0 && labels_written(st, s2)
            == 0 && jumps_written(st, s2) == 0,
{
    if let Some(n) = size_of(inner) {
        let l1 = "    li t2, "@ + decimal_nat(n);
        let l2 = "    mul "@ + reg + ", "@ + reg + ", t2"@;
        reveal_strlit("    li t2, ");
        reveal_strlit("    mul ");
        lemma_quiet(l1);
        lemma_quiet(l2);
        lemma_cg_emit2(st, l1, l2);
    }
}

/// Scaling, then one more line.
proof fn lemma_cg_scale_then(st: CodegenState, inner: Type, reg: Seq<char>, l: Seq<char>)
    ensures
        scale(st, inner, reg) matches Ok(s1) ==> s1.scopes == st.scopes && cg_follows(st, emit(s1, l)) && pushed(st, emit(s1, l))
            == line_effect(l) && labels_written(st, emit(s1, l)) == (if is_label_line(l) { 1int } else { 0int }) && jumps_written(st, emit(s1, l)) == if is_jump_line(l) { 1int } else { 0int },
{
    lemma_cg_scale(st, inner, reg);
    if let Ok(s1) = scale(st, inner, reg) {
        lemma_cg_emit(s1, l);
        lemma_cg_trans(st, s1, emit(s1, l));
    }
}

/// The lines of arithmetic and comparisons leave the stack alone.
proof fn lemma_binop_lines_quiet()
    ensures
        line_effect("    add t0, t1, t0"@) == 0,
        !is_jump_line("    add t0, t1, t0"@),
        !is_label_line("    add t0, t1, t0"@),
        line_effect("    add t0, t0, t1"@) == 0,
        !is_jump_line("    add t0, t0, t1"@),
        !is_label_line("    add t0, t0, t1"@),
        line_effect("    sub t0, t0, t1"@) == 0,
        !is_jump_line("    sub t0, t0, t1"@),
        !is_label_line("    sub t0, t0, t1"@),
        line_effect("    sub t0, t1, t0"@) == 0,
        !is_jump_line("    sub t0, t1, t0"@),
        !is_label_line("    sub t0, t1, t0"@),
        line_effect("    mul t0, t1, t0"@) == 0,
        !is_jump_line("    mul t0, t1, t0"@),
        !is_label_line("    mul t0, t1, t0"@),
        line_effect("    div t0, t0, t1"@) == 0,
        !is_jump_line("    div t0, t0, t1"@),
        !is_label_line("    div t0, t0, t1"@),
        line_effect("    div t0, t0, t2"@) == 0,
        !is_jump_line("    div t0, t0, t2"@),
        !is_label_line("    div t0, t0, t2"@),
        line_effect("    slt t0, t1, t0"@) == 0,
        !is_jump_line("    slt t0, t1, t0"@),
        !is_label_line("    slt t0, t1, t0"@),
        line_effect("    slt t0, t0, t1"@) == 0,
        !is_jump_line("    slt t0, t0, t1"@),
        !is_label_line("    slt t0, t0, t1"@),
        line_effect("    seqz t0, t0"@) == 0,
        !is_jump_line("    seqz t0, t0"@),
        !is_label_line("    seqz t0, t0"@),
        line_effect("    snez t0, t0"@) == 0,
        !is_jump_line("    snez t0, t0"@),
        !is_label_line("    snez t0, t0"@),
        line_effect("    xori t0, t0, 1"@) == 0,
        !is_jump_line("    xori t0, t0, 1"@),
        !is_label_line("    xori t0, t0, 1"@),
{
    reveal_strlit("    add t0, t1, t0");
    reveal_strlit("    add t0, t0, t1");
    reveal_strlit("    sub t0, t0, t1");
    reveal_strlit("    sub t0, t1, t0");
    reveal_strlit("    mul t0, t1, t0");
    reveal_strlit("    div t0, t0, t1");
    reveal_strlit("    div t0, t0, t2");
    reveal_strlit("    slt t0, t1, t0");
    reveal_strlit("    slt t0, t0, t1");
    reveal_strlit("    seqz t0, t0");
    reveal_strlit("    snez t0, t0");
    reveal_strlit("    xori t0, t0, 1");
    lemma_quiet("    add t0, t1, t0"@);
    lemma_quiet("    add t0, t0, t1"@);
    lemma_quiet("    sub t0, t0, t1"@);
    lemma_quiet("    sub t0, t1, t0"@);
    lemma_quiet("    mul t0, t1, t0"@);
    lemma_quiet("    div t0, t0, t1"@);
    lemma_quiet("    div t0, t0, t2"@);
    lemma_quiet("    slt t0, t1, t0"@);
    lemma_quiet("    slt t0, t0, t1"@);
    lemma_quiet("    seqz t0, t0"@);
    lemma_quiet("    snez t0, t0"@);
    lemma_quiet("    xori t0, t0, 1"@);
}

proof fn lemma_cg_binop(st: CodegenState, op: Op, lt: Option<Type>, rt: Option<Type>)
    ensures
        binop_code(st, op, lt, rt) matches Ok(s2) ==> s2.scopes == st.scopes && cg_follows(st, s2) && s2.label == st.label && pushed(
            st,
            s2,
        ) == 0 && labels_written(st, s2) == 0 && jumps_written(st, s2) == 0,
{
    lemma_binop_lines_quiet();
    match (lt, rt) {
        (Some(a), Some(b)) => {
            if a is Ptr {
                lemma_cg_scale_then(st, *a->Ptr_0, "t1"@, "    add t0, t0, t1"@);
                lemma_cg_scale_then(st, *a->Ptr_0, "t1"@, "    sub t0, t0, t1"@);
                if let Some(n) = size_of(*a->Ptr_0) {
                    let l2 = "    li t2, "@ + decimal_nat(n);
                    reveal_strlit("    li t2, ");
                    lemma_quiet(l2);
                    let s3 = emit2(st, "    sub t0, t0, t1"@, l2);
                    lemma_cg_emit2(st, "    sub t0, t0, t1"@, l2);
                    lemma_cg_emit(s3, "    div t0, t0, t2"@);
                    lemma_cg_trans(st, s3, emit(s3, "    div t0, t0, t2"@));
                }
            }
            if b is Ptr {
                lemma_cg_scale_then(st, *b->Ptr_0, "t0"@, "    add t0, t1, t0"@);
            }
        },
        _ => {},
    }
    lemma_cg_emit(st, "    add t0, t1, t0"@);
    lemma_cg_emit(st, "    sub t0, t0, t1"@);
    lemma_cg_emit(st, "    mul t0, t1, t0"@);
    lemma_cg_emit(st, "    div t0, t0, t1"@);
    lemma_cg_emit(st, "    slt t0, t1, t0"@);
    lemma_cg_emit(st, "    slt t0, t0, t1"@);
    lemma_cg_emit2(st, "    sub t0, t1, t0"@, "    seqz t0, t0"@);
    lemma_cg_emit2(st, "    sub t0, t1, t0"@, "    snez t0, t0"@);
    lemma_cg_emit2(st, "    slt t0, t0, t1"@, "    xori t0, t0, 1"@);
    lemma_cg_emit2(st, "    slt t0, t1, t0"@, "    xori t0, t0, 1"@);
}

proof fn lemma_cg_pop_args(st: CodegenState, k: nat)
    ensures
        cg_follows(st, pop_args(st, k)),
        pop_args(st, k).label == st.label,
        pop_args(st, k).scopes == st.scopes,
        pushed(st, pop_args(st, k)) == -k,
        labels_written(st, pop_args(st, k)) == 0 && jumps_written(st, pop_args(st, k)) == 0,
    decreases k,
{
    if k == 0 {
        lemma_cg_refl(st);
    } else {
        let s1 = sp_pop(st, "a"@ + decimal_nat((k - 1) as nat));
        lemma_cg_emit2(st, "a"@ + decimal_nat((k - 1) as nat), seq![]);
        lemma_cg_pop_args(s1, (k - 1) as nat);
        lemma_cg_trans(st, s1, pop_args(s1, (k - 1) as nat));
    }
}

/// An access, then a push.
proof fn lemma_cg_access_push(st: CodegenState, store: bool, reg: Seq<char>, base: Seq<char>, offset: i64, ty: Type, r: Seq<char>)
    ensures
        access(st, store, reg, base, offset, ty) matches Ok(s1) ==> s1.scopes == st.scopes && cg_follows(st, sp_push(s1, r)) && sp_push(
            s1,
            r,
        ).label == st.label && pushed(st, sp_push(s1, r)) == 1 && labels_written(st, sp_push(s1, r)) == 0 && jumps_written(st, sp_push(s1, r)) == 0,
{
    lemma_cg_access(st, store, reg, base, offset, ty);
    if let Ok(s1) = access(st, store, reg, base, offset, ty) {
        lemma_cg_emit2(s1, r, seq![]);
        lemma_cg_trans(st, s1, sp_push(s1, r));
    }
}

/// The lines that load values and addresses and call functions leave the stack alone.
proof fn lemma_expr_lines_quiet(x: Seq<char>)
    ensures
        line_effect("    li t0, "@ + x) == 0,
        !is_jump_line("    li t0, "@ + x),
        !is_label_line("    li t0, "@ + x),
        line_effect("    li t1, "@ + x) == 0,
        !is_jump_line("    li t1, "@ + x),
        !is_label_line("    li t1, "@ + x),
        line_effect("    la t0, "@ + x) == 0,
        !is_jump_line("    la t0, "@ + x),
        !is_label_line("    la t0, "@ + x),
        line_effect("    call "@ + x) == 0,
        !is_jump_line("    call "@ + x),
        !is_label_line("    call "@ + x),
        line_effect("    add t0, fp, t1"@) == 0,
        !is_jump_line("    add t0, fp, t1"@),
        !is_label_line("    add t0, fp, t1"@),
{
    reveal_strlit("    li t0, ");
    reveal_strlit("    li t1, ");
    reveal_strlit("    la t0, ");
    reveal_strlit("    call ");
    reveal_strlit("    add t0, fp, t1");
    lemma_quiet("    li t0, "@ + x);
    lemma_quiet("    li t1, "@ + x);
    lemma_quiet("    la t0, "@ + x);
    lemma_quiet("    call "@ + x);
    lemma_quiet("    add t0, fp, t1"@);
}

/// Generating an expression only adds lines and moves the label counter forward.
proof fn lemma_cg_expr(st: CodegenState, t: Ast<Lowered>)
    ensures
        gen_expr_spec(st, t) matches Ok(s2) ==> s2.scopes == st.scopes && cg_follows(st, s2) && s2.label == st.label && pushed(st, s2)
            == 1 && labels_written(st, s2) == 0 && jumps_written(st, s2) == 0,
    decreases t,
{
    lemma_expr_lines_quiet(decimal(match t { Ast::Integer(n, _) => n as int, _ => 0 }));
    lemma_expr_lines_quiet(match t { Ast::Var(name, _) => name, Ast::String(l, _) => l, Ast::Call(name, _, _) => name, _ => seq![] });
    match t {
        Ast::Integer(n, _) => {
            let s1 = emit(st, "    li t0, "@ + decimal(n as int));
            lemma_cg_emit(st, "    li t0, "@ + decimal(n as int));
            lemma_cg_emit2(s1, "t0"@, seq![]);
            lemma_cg_trans(st, s1, sp_push(s1, "t0"@));
        },
        Ast::Var(name, _) => match cg_lookup(st, name) {
            Some((ty, Some(off))) => {
                lemma_cg_access_push(st, false, "t0"@, "fp"@, off, ty, "t0"@);
            },
            Some((ty, None)) => {
                let s1 = emit(st, "    la t0, "@ + name);
                lemma_cg_emit(st, "    la t0, "@ + name);
                lemma_cg_access_push(s1, false, "t0"@, "t0"@, 0, ty, "t0"@);
                if let Ok(s2) = gen_expr_spec(st, t) {
                    lemma_cg_trans(st, s1, s2);
                }
            },
            None => {},
        },
        Ast::String(label, _) => {
            let s1 = emit(st, "    la t0, "@ + label);
            lemma_cg_emit(st, "    la t0, "@ + label);
            lemma_cg_emit2(s1, "t0"@, seq![]);
            lemma_cg_trans(st, s1, sp_push(s1, "t0"@));
        },
        Ast::Addr(e, _) => {
            lemma_cg_lvalue(st, *e);
        },
        Ast::Deref(e, ty) => {
            lemma_cg_expr(st, *e);
            if let Ok(s1) = gen_expr_spec(st, *e) {
                let s2 = sp_pop(s1, "t0"@);
                lemma_cg_emit2(s1, "t0"@, seq![]);
                lemma_cg_access_push(s2, false, "t0"@, "t0"@, 0, ty, "t0"@);
                lemma_cg_trans(st, s1, s2);
                if let Ok(s3) = gen_expr_spec(st, t) {
                    lemma_cg_trans(st, s2, s3);
                }
            }
        },
        Ast::Call(name, args, _) => {
            lemma_cg_args(st, args);
            if let Ok(s1) = gen_args_spec(st, args) {
                let s2 = pop_args(s1, args.len());
                let s3 = emit(s2, "    call "@ + name);
                lemma_cg_pop_args(s1, args.len());
                lemma_cg_emit(s2, "    call "@ + name);
                lemma_cg_emit2(s3, "a0"@, seq![]);
                lemma_cg_trans(st, s1, s2);
                lemma_cg_trans(st, s2, s3);
                lemma_cg_trans(st, s3, sp_push(s3, "a0"@));
            }
        },
        Ast::Assign(l, r, _) => {
            lemma_cg_lvalue(st, *l);
            if let Ok((s1, ty)) = gen_lvalue_spec(st, *l) {
                lemma_cg_expr(s1, *r);
                if let Ok(s2) = gen_expr_spec(s1, *r) {
                    lemma_cg_trans(st, s1, s2);
                    let s3 = sp_pop(s2, "t1"@);
                    let s4 = sp_pop(s3, "t0"@);
                    lemma_cg_emit2(s2, "t1"@, seq![]);
                    lemma_cg_emit2(s3, "t0"@, seq![]);
                    lemma_cg_trans(st, s2, s3);
                    lemma_cg_trans(st, s3, s4);
                    lemma_cg_access_push(s4, true, "t1"@, "t0"@, 0, ty, "t1"@);
                    if let Ok(s5) = gen_expr_spec(st, t) {
                        lemma_cg_trans(st, s4, s5);
                    }
                }
            }
        },
        Ast::BinOp(op, l, r, _) => {
            lemma_cg_expr(st, *l);
            if let Ok(s1) = gen_expr_spec(st, *l) {
                lemma_cg_expr(s1, *r);
                if let Ok(s2) = gen_expr_spec(s1, *r) {
                    lemma_cg_trans(st, s1, s2);
                    let s3 = sp_pop(s2, "t1"@);
                    let s4 = sp_pop(s3, "t0"@);
                    lemma_cg_emit2(s2, "t1"@, seq![]);
                    lemma_cg_emit2(s3, "t0"@, seq![]);
                    lemma_cg_trans(st, s2, s3);
                    lemma_cg_trans(st, s3, s4);
                    lemma_cg_binop(s4, op, lowered_ty(*l), lowered_ty(*r));
                    if let Ok(s5) = binop_code(s4, op, lowered_ty(*l), lowered_ty(*r)) {
                        lemma_cg_trans(st, s4, s5);
                        lemma_cg_emit2(s5, "t0"@, seq![]);
                        lemma_cg_trans(st, s5, sp_push(s5, "t0"@));
                    }
                }
            }
        },
        _ => {},
    }
}

proof fn lemma_cg_args(st: CodegenState, args: Seq<Ast<Lowered>>)
    ensures
        gen_args_spec(st, args) matches Ok(s2) ==> s2.scopes == st.scopes && cg_follows(st, s2) && s2.label == st.label && pushed(st, s2)
            == args.len() && labels_written(st, s2) == 0 && jumps_written(st, s2) == 0,
    decreases args,
{
    if args.len() == 0 {
        lemma_cg_refl(st);
    } else {
        lemma_cg_expr(st, args[0]);
        if let Ok(s1) = gen_expr_spec(st, args[0]) {
            lemma_cg_args(s1, args.drop_first());
            if let Ok(s2) = gen_args_spec(s1, args.drop_first()) {
                lemma_cg_trans(st, s1, s2);
            }
        }
    }
}

proof fn lemma_cg_lvalue(st: CodegenState, t: Ast<Lowered>)
    ensures
        gen_lvalue_spec(st, t) matches Ok((s2, _)) ==> s2.scopes == st.scopes && cg_follows(st, s2) && s2.label == st.label && pushed(
            st,
            s2,
        ) == 1 && labels_written(st, s2) == 0 && jumps_written(st, s2) == 0,
    decreases t,
{
    lemma_expr_lines_quiet(match t { Ast::Var(name, _) => name, _ => seq![] });
    if let Ast::Var(name, _) = t {
        if let Some((_, Some(off))) = cg_lookup(st, name) {
            lemma_expr_lines_quiet(decimal(off as int));
        }
    }
    match t {
        Ast::Var(name, _) => {
            match cg_lookup(st, name) {
                Some((_, Some(off))) => {
                    let s1 = emit2(st, "    li t1, "@ + decimal(off as int), "    add t0, fp, t1"@);
                    lemma_cg_emit2(st, "    li t1, "@ + decimal(off as int), "    add t0, fp, t1"@);
                    lemma_cg_emit2(s1, "t0"@, seq![]);
                    lemma_cg_trans(st, s1, sp_push(s1, "t0"@));
                },
                Some((_, None)) => {
                    let s1 = emit(st, "    la t0, "@ + name);
                    lemma_cg_emit(st, "    la t0, "@ + name);
                    lemma_cg_emit2(s1, "t0"@, seq![]);
                    lemma_cg_trans(st, s1, sp_push(s1, "t0"@));
                },
                None => {},
            }
        },
        Ast::Deref(e, _) => {
            lemma_cg_expr(st, *e);
        },
        _ => {},
    }
}


/// The lines of function exits and of jumps and labels leave the stack alone.
proof fn lemma_stmt_lines_quiet(n: nat, x: Seq<char>)
    ensures
        line_effect("    add sp, sp, t0"@) == 0,
        !is_jump_line("    add sp, sp, t0"@),
        !is_label_line("    add sp, sp, t0"@),
        line_effect("    ld ra, 8(sp)"@) == 0,
        !is_jump_line("    ld ra, 8(sp)"@),
        !is_label_line("    ld ra, 8(sp)"@),
        line_effect("    ld fp, 0(sp)"@) == 0,
        !is_jump_line("    ld fp, 0(sp)"@),
        !is_label_line("    ld fp, 0(sp)"@),
        line_effect("    addi sp, sp, 16"@) == 0,
        !is_jump_line("    addi sp, sp, 16"@),
        !is_label_line("    addi sp, sp, 16"@),
        line_effect("    ret"@) == 0,
        !is_jump_line("    ret"@),
        !is_label_line("    ret"@),
        line_effect("    beq t0, x0, Else"@ + x) == 0,
        is_jump_line("    beq t0, x0, Else"@ + x),
        !is_label_line("    beq t0, x0, Else"@ + x),
        line_effect("    beq t0, x0, End"@ + x) == 0,
        is_jump_line("    beq t0, x0, End"@ + x),
        !is_label_line("    beq t0, x0, End"@ + x),
        line_effect("    jal x0, End"@ + x) == 0,
        is_jump_line("    jal x0, End"@ + x),
        !is_label_line("    jal x0, End"@ + x),
        line_effect("    jal x0, Begin"@ + x) == 0,
        is_jump_line("    jal x0, Begin"@ + x),
        !is_label_line("    jal x0, Begin"@ + x),
        line_effect("Begin"@ + decimal_nat(n) + ":"@) == 0,
        !is_jump_line("Begin"@ + decimal_nat(n) + ":"@),
        is_label_line("Begin"@ + decimal_nat(n) + ":"@),
        line_effect("Else"@ + decimal_nat(n) + ":"@) == 0,
        !is_jump_line("Else"@ + decimal_nat(n) + ":"@),
        is_label_line("Else"@ + decimal_nat(n) + ":"@),
        line_effect("End"@ + decimal_nat(n) + ":"@) == 0,
        !is_jump_line("End"@ + decimal_nat(n) + ":"@),
        is_label_line("End"@ + decimal_nat(n) + ":"@),
{
    reveal_strlit("    add sp, sp, t0");
    reveal_strlit("    ld ra, 8(sp)");
    reveal_strlit("    ld fp, 0(sp)");
    reveal_strlit("    addi sp, sp, 16");
    reveal_strlit("    ret");
    reveal_strlit("    beq t0, x0, Else");
    reveal_strlit("    beq t0, x0, End");
    reveal_strlit("    jal x0, End");
    reveal_strlit("    jal x0, Begin");
    reveal_strlit("Begin");
    reveal_strlit("Else");
    reveal_strlit("End");
    reveal_strlit(":");
    reveal_strlit("    addi sp, sp, -8");
    reveal_strlit("    addi sp, sp, 8");
    lemma_quiet("    add sp, sp, t0"@);
    lemma_quiet("    ld ra, 8(sp)"@);
    lemma_quiet("    ld fp, 0(sp)"@);
    lemma_quiet("    ret"@);
    lemma_quiet("    beq t0, x0, Else"@ + x);
    lemma_quiet("    beq t0, x0, End"@ + x);
    lemma_quiet("    jal x0, End"@ + x);
    lemma_quiet("    jal x0, Begin"@ + x);
    assert("    addi sp, sp, 16"@[17] != push_line()[17]);
    assert("    addi sp, sp, 16"@.len() != pop_line().len());
    let d = decimal_nat(n);
    lemma_decimal_nat_len(n);
    lemma_decimal_nat_digits(n);
    lemma_quiet("Begin"@ + d + ":"@);
    assert(d[0] != 'a');
    lemma_quiet("Else"@ + d + ":"@);
    if d.len() >= 2 {
        assert(d[1] != 'a');
    }
    lemma_quiet("End"@ + d + ":"@);
}

proof fn lemma_cg_epilogue(st: CodegenState, frame: usize)
    ensures
        cg_follows(st, epilogue(st, frame)),
        pushed(st, epilogue(st, frame)) == 0,
        labels_written(st, epilogue(st, frame)) == 0 && jumps_written(st, epilogue(st, frame)) == 0,
{
    lemma_stmt_lines_quiet(0, seq![]);
    lemma_expr_lines_quiet(decimal_nat(frame as nat));
    let s1 = emit2(st, "    li t0, "@ + decimal_nat(frame as nat), "    add sp, sp, t0"@);
    let s2 = emit2(s1, "    ld ra, 8(sp)"@, "    ld fp, 0(sp)"@);
    lemma_cg_emit2(st, "    li t0, "@ + decimal_nat(frame as nat), "    add sp, sp, t0"@);
    lemma_cg_emit2(s1, "    ld ra, 8(sp)"@, "    ld fp, 0(sp)"@);
    lemma_cg_emit2(s2, "    addi sp, sp, 16"@, "    ret"@);
    lemma_cg_trans(st, s1, s2);
    lemma_cg_trans(st, s2, epilogue(st, frame));
}

proof fn lemma_cg_opt(st: CodegenState, o: Option<Box<Ast<Lowered>>>)
    ensures
        gen_opt_spec(st, o) matches Ok(s2) ==> s2.scopes == st.scopes && cg_follows(st, s2) && pushed(st, s2) == 0 && labels_written(st, s2)
            == 0 && jumps_written(st, s2) == 0 && s2.label == st.label,
{
    lemma_cg_refl(st);
    if let Some(e) = o {
        lemma_cg_expr(st, *e);
        if let Ok(s1) = gen_expr_spec(st, *e) {
            lemma_cg_emit2(s1, "t0"@, seq![]);
            lemma_cg_trans(st, s1, sp_pop(s1, "t0"@));
        }
    }
}

proof fn lemma_cg_for_cond(st: CodegenState, c: Option<Box<Ast<Lowered>>>, cur: Seq<char>)
    ensures
        gen_for_cond(st, c, cur) matches Ok(s2) ==> s2.scopes == st.scopes && cg_follows(st, s2) && pushed(st, s2) == 0 && labels_written(
            st,
            s2,
        ) == 0 && jumps_written(st, s2) == (if c is Some { 1int } else { 0int }) && s2.label == st.label,
{
    lemma_stmt_lines_quiet(0, cur);
    lemma_cg_refl(st);
    if let Some(e) = c {
        lemma_cg_expr(st, *e);
        if let Ok(s1) = gen_expr_spec(st, *e) {
            let s2 = sp_pop(s1, "t0"@);
            lemma_cg_emit2(s1, "t0"@, seq![]);
            lemma_cg_emit(s2, "    beq t0, x0, End"@ + cur);
            lemma_cg_trans(st, s1, s2);
            lemma_cg_trans(st, s2, emit(s2, "    beq t0, x0, End"@ + cur));
        }
    }
}

/// The jump of the condition of a `for`, if there is one, goes to its `End{n}`.
proof fn lemma_jumps_for_cond(
    st: CodegenState,
    c: Option<Box<Ast<Lowered>>>,
    cur: Seq<char>,
    x: CodegenState,
    y: CodegenState,
    n: nat,
)
    requires
        cur == decimal_nat(n),
        y.out.skip(x.out.len() as int).contains(label_line((n, 1))),
    ensures
        gen_for_cond(st, c, cur) matches Ok(s2) ==> jumps_land(st, s2, x, y),
{
    lemma_cg_for_cond(st, c, cur);
    lemma_jump_forms(n);
    lemma_stmt_lines_quiet(n, cur);
    if let Ok(s2) = gen_for_cond(st, c, cur) {
        match c {
            Some(ce) => {
                let s1 = gen_expr_spec(st, *ce)->Ok_0;
                let p = sp_pop(s1, "t0"@);
                lemma_cg_expr(st, *ce);
                lemma_cg_emit2(s1, "t0"@, seq![]);
                lemma_cg_trans(st, s1, p);
                lemma_jumps_none(st, p, x, y);
                lemma_cg_emit(p, "    beq t0, x0, End"@ + cur);
                lemma_jumps_own(p, "    beq t0, x0, End"@ + cur, (n, 1), x, y);
                lemma_jumps_join(st, p, s2, x, y);
            },
            None => {
                lemma_cg_refl(st);
                lemma_jumps_none(st, s2, x, y);
            },
        }
    }
}

/// Whether a statement declares a local in the scope it stands in: a declaration, or an `if`,
/// `while` or `for` whose body, not a block, does.
pub open spec fn declares_in_place(t: Ast<Lowered>) -> bool
    decreases t,
{
    match t {
        Ast::VarDeclare(_, _) => true,
        Ast::If(_, a, b) => declares_in_place(*a) || match b {
            Some(b) => declares_in_place(*b),
            None => false,
        },
        Ast::While(_, b) => declares_in_place(*b),
        Ast::For(_, _, _, b) => declares_in_place(*b),
        _ => false,
    }
}

/// `b` has the scopes of `a`, but for what the innermost one declares.
pub open spec fn outer_scopes_kept(a: CodegenState, b: CodegenState) -> bool {
    &&& b.scopes.len() == a.scopes.len()
    &&& a.scopes.len() > 0 ==> b.scopes.drop_last() == a.scopes.drop_last()
}

/// What the code of a statement leaves of the scopes.
pub open spec fn scopes_after(st: CodegenState, t: Ast<Lowered>, s2: CodegenState) -> bool {
    &&& outer_scopes_kept(st, s2)
    &&& !declares_in_place(t) ==> s2.scopes == st.scopes
}

/// Generating a statement only adds lines and moves the label counter forward; a control
/// statement takes a label number of its own.
proof fn lemma_cg_stmt(st: CodegenState, t: Ast<Lowered>)
    ensures
        gen_stmt_spec(st, t) matches Ok(s2) ==> cg_follows(st, s2) && pushed(st, s2) == 0 && ((t is If
            || t is While || t is For) ==> st.label < s2.label) && labels_between(
            st,
            s2,
            label_keys(st.label as nat, s2.label as nat),
        ) && jumps_land(st, s2, st, s2) && scopes_after(st, t, s2),
    decreases t, 1int,
{
    match t {
        Ast::Block(_) => lemma_cg_block(st, t),
        Ast::VarDeclare(ty, name) => {
            lemma_cg_refl(st);
            if let Ok((s1, _)) = cg_declare(st, name, ty) {
                assert(s1.scopes.drop_last() =~= st.scopes.drop_last());
            }
        },
        Ast::If(..) => lemma_cg_if(st, t),
        Ast::While(..) => lemma_cg_while(st, t),
        Ast::For(..) => lemma_cg_for(st, t),
        Ast::Return(e, _) => {
            lemma_cg_expr(st, *e);
            if let Ok(s1) = gen_expr_spec(st, *e) {
                let s2 = sp_pop(s1, "a0"@);
                lemma_cg_emit2(s1, "a0"@, seq![]);
                lemma_cg_epilogue(s2, st.frame);
                lemma_cg_trans(st, s1, s2);
                lemma_cg_trans(st, s2, epilogue(s2, st.frame));
            }
        },
        _ => {
            lemma_cg_expr(st, t);
            if let Ok(s1) = gen_expr_spec(st, t) {
                lemma_cg_emit2(s1, "t0"@, seq![]);
                lemma_cg_trans(st, s1, sp_pop(s1, "t0"@));
            }
        },
    }
    if let Ok(s2) = gen_stmt_spec(st, t) {
        if !(t is Block || t is If || t is While || t is For) {
            lemma_labels_none(st, s2, label_keys(st.label as nat, s2.label as nat));
            lemma_jumps_none(st, s2, st, s2);
        }
    }
}

proof fn lemma_cg_block(st: CodegenState, t: Ast<Lowered>)
    ensures
        gen_block_spec(st, t) matches Ok(s2) ==> cg_follows(st, s2) && pushed(st, s2) == 0 && labels_between(
            st,
            s2,
            label_keys(st.label as nat, s2.label as nat),
        ) && jumps_land(st, s2, st, s2) && s2.scopes == st.scopes,
    decreases t, 0int,
{
    if let Ast::Block(ts) = t {
        let s0 = push_scope(st);
        lemma_cg_refl(st);
        lemma_cg_stmts(s0, ts);
        if let Ok(s1) = gen_stmts_spec(s0, ts) {
            assert(pop_scope(s1).out == s1.out && pop_scope(s1).label == s1.label);
        }
    }
}

#[verifier::spinoff_prover]
#[verifier::rlimit(40)]
proof fn lemma_cg_if(st: CodegenState, t: Ast<Lowered>)
    ensures
        gen_if_spec(st, t) matches Ok(s2) ==> cg_follows(st, s2) && pushed(st, s2) == 0 && st.label < s2.label
            && labels_between(st, s2, label_keys(st.label as nat, s2.label as nat)) && jumps_land(st, s2, st, s2)
            && scopes_after(st, t, s2),
    decreases t, 0int,
{
    lemma_stmt_lines_quiet(st.label as nat, decimal_nat(st.label as nat));
    lemma_jump_forms(st.label as nat);
    if let Ast::If(c, a, b) = t {
        if st.label < usize::MAX {
            let cur = decimal_nat(st.label as nat);
            let s0 = next_label(st);
            lemma_cg_refl(st);
            lemma_cg_expr(s0, *c);
            if let Ok(s1) = gen_expr_spec(s0, *c) {
                lemma_cg_trans(st, s0, s1);
                let p1 = sp_pop(s1, "t0"@);
                let p2 = emit(p1, "    beq t0, x0, Else"@ + cur);
                lemma_cg_emit2(s1, "t0"@, seq![]);
                lemma_cg_emit(p1, "    beq t0, x0, Else"@ + cur);
                lemma_cg_trans(st, s1, p1);
                lemma_cg_trans(st, p1, p2);
                lemma_cg_stmt(p2, *a);
                if let Ok(s2) = gen_stmt_spec(p2, *a) {
                    lemma_cg_trans(st, p2, s2);
                    match b {
                        Some(b) => {
                            let q = emit2(s2, "    jal x0, End"@ + cur, "Else"@ + cur + ":"@);
                            lemma_cg_emit2(s2, "    jal x0, End"@ + cur, "Else"@ + cur + ":"@);
                            lemma_cg_trans(st, s2, q);
                            lemma_cg_stmt(q, *b);
                            if let Ok(s3) = gen_stmt_spec(q, *b) {
                                lemma_cg_trans(st, q, s3);
                                lemma_cg_emit(s3, "End"@ + cur + ":"@);
                                lemma_cg_trans(st, s3, emit(s3, "End"@ + cur + ":"@));
                                let n = st.label as nat;
                                let j = emit(s2, "    jal x0, End"@ + cur);
                                let e = emit(s3, "End"@ + cur + ":"@);
                                lemma_cg_emit(s2, "    jal x0, End"@ + cur);
                                let k0 = Set::<(nat, int)>::empty();
                                lemma_labels_none(st, p2, k0);
                                let k1 = k0 + label_keys(n + 1, s2.label as nat);
                                lemma_labels_join(st, p2, s2, k0, label_keys(n + 1, s2.label as nat));
                                lemma_labels_none(s2, j, k0);
                                let k2 = k1 + k0;
                                lemma_labels_join(st, s2, j, k1, k0);
                                lemma_labels_own(j, (n, 0));
                                let k3 = k2 + set![(n, 0)];
                                lemma_labels_join(st, j, q, k2, set![(n, 0)]);
                                let k4 = k3 + label_keys(s2.label as nat, s3.label as nat);
                                lemma_labels_join(st, q, s3, k3, label_keys(s2.label as nat, s3.label as nat));
                                lemma_labels_own(s3, (n, 1));
                                lemma_labels_join(st, s3, e, k4, set![(n, 1)]);
                                lemma_labels_weaken(st, e, k4 + set![(n, 1)], label_keys(n, s3.label as nat));
                                let beq = "    beq t0, x0, Else"@ + cur;
                                let jal = "    jal x0, End"@ + cur;
                                lemma_cg_refl(e);
                                lemma_cg_trans(st, s2, j);
                                lemma_cg_trans(q, s3, e);
                                lemma_cg_trans(s2, q, s3);
                                lemma_cg_trans(s2, s3, e);
                                lemma_cg_emit(j, "Else"@ + cur + ":"@);
                                lemma_jumps_none(st, p1, st, e);
                                lemma_line_between(st, j, "Else"@ + cur + ":"@, e);
                                lemma_jumps_own(p1, beq, (n, 0), st, e);
                                lemma_jumps_join(st, p1, p2, st, e);
                                lemma_jumps_widen(p2, s2, p2, s2, st, e);
                                lemma_jumps_join(st, p2, s2, st, e);
                                lemma_line_between(st, s3, "End"@ + cur + ":"@, e);
                                lemma_jumps_own(s2, jal, (n, 1), st, e);
                                lemma_jumps_join(st, s2, j, st, e);
                                lemma_jumps_none(j, q, st, e);
                                lemma_jumps_join(st, j, q, st, e);
                                lemma_jumps_widen(q, s3, q, s3, st, e);
                                lemma_jumps_join(st, q, s3, st, e);
                                lemma_jumps_none(s3, e, st, e);
                                lemma_jumps_join(st, s3, e, st, e);
                            }
                        },
                        None => {
                            lemma_cg_emit(s2, "Else"@ + cur + ":"@);
                            lemma_cg_trans(st, s2, emit(s2, "Else"@ + cur + ":"@));
                            let n = st.label as nat;
                            let e = emit(s2, "Else"@ + cur + ":"@);
                            let k0 = Set::<(nat, int)>::empty();
                            lemma_labels_none(st, p2, k0);
                            let k1 = k0 + label_keys(n + 1, s2.label as nat);
                            lemma_labels_join(st, p2, s2, k0, label_keys(n + 1, s2.label as nat));
                            lemma_labels_own(s2, (n, 0));
                            lemma_labels_join(st, s2, e, k1, set![(n, 0)]);
                            lemma_labels_weaken(st, e, k1 + set![(n, 0)], label_keys(n, s2.label as nat));
                            let beq = "    beq t0, x0, Else"@ + cur;
                            lemma_cg_refl(e);
                            lemma_jumps_none(st, p1, st, e);
                            lemma_line_between(st, s2, "Else"@ + cur + ":"@, e);
                            lemma_jumps_own(p1, beq, (n, 0), st, e);
                            lemma_jumps_join(st, p1, p2, st, e);
                            lemma_jumps_widen(p2, s2, p2, s2, st, e);
                            lemma_jumps_join(st, p2, s2, st, e);
                            lemma_jumps_none(s2, e, st, e);
                            lemma_jumps_join(st, s2, e, st, e);
                        },
                    }
                }
            }
        }
    }
}

#[verifier::spinoff_prover]
#[verifier::rlimit(40)]
proof fn lemma_cg_while(st: CodegenState, t: Ast<Lowered>)
    ensures
        gen_while_spec(st, t) matches Ok(s2) ==> cg_follows(st, s2) && pushed(st, s2) == 0 && st.label
            < s2.label && labels_between(st, s2, label_keys(st.label as nat, s2.label as nat)) && jumps_land(
            st,
            s2,
            st,
            s2,
        ) && scopes_after(st, t, s2),
    decreases t, 0int,
{
    lemma_stmt_lines_quiet(st.label as nat, decimal_nat(st.label as nat));
    lemma_jump_forms(st.label as nat);
    if let Ast::While(c, body) = t {
        if st.label < usize::MAX {
            let cur = decimal_nat(st.label as nat);
            let s0 = emit(next_label(st), "Begin"@ + cur + ":"@);
            lemma_cg_refl(st);
            lemma_cg_emit(next_label(st), "Begin"@ + cur + ":"@);
            lemma_cg_trans(st, next_label(st), s0);
            lemma_cg_expr(s0, *c);
            if let Ok(s1) = gen_expr_spec(s0, *c) {
                lemma_cg_trans(st, s0, s1);
                let p1 = sp_pop(s1, "t0"@);
                let p2 = emit(p1, "    beq t0, x0, End"@ + cur);
                lemma_cg_emit2(s1, "t0"@, seq![]);
                lemma_cg_emit(p1, "    beq t0, x0, End"@ + cur);
                lemma_cg_trans(st, s1, p1);
                lemma_cg_trans(st, p1, p2);
                lemma_cg_stmt(p2, *body);
                if let Ok(s2) = gen_stmt_spec(p2, *body) {
                    lemma_cg_trans(st, p2, s2);
                    lemma_cg_emit2(s2, "    jal x0, Begin"@ + cur, "End"@ + cur + ":"@);
                    lemma_cg_trans(st, s2, emit2(s2, "    jal x0, Begin"@ + cur, "End"@ + cur + ":"@));
                    let n = st.label as nat;
                    let nl = next_label(st);
                    let f1 = emit(s2, "    jal x0, Begin"@ + cur);
                    let f2 = emit(f1, "End"@ + cur + ":"@);
                    lemma_cg_emit(s2, "    jal x0, Begin"@ + cur);
                    lemma_cg_trans(s0, s1, p1);
                    lemma_cg_trans(s0, p1, p2);
                    let k0 = Set::<(nat, int)>::empty();
                    lemma_labels_none(st, nl, k0);
                    lemma_labels_own(nl, (n, 2));
                    let k1 = k0 + set![(n, 2)];
                    lemma_labels_join(st, nl, s0, k0, set![(n, 2)]);
                    lemma_labels_none(s0, p2, k0);
                    let k2 = k1 + k0;
                    lemma_labels_join(st, s0, p2, k1, k0);
                    let k3 = k2 + label_keys(n + 1, s2.label as nat);
                    lemma_labels_join(st, p2, s2, k2, label_keys(n + 1, s2.label as nat));
                    lemma_labels_none(s2, f1, k0);
                    let k4 = k3 + k0;
                    lemma_labels_join(st, s2, f1, k3, k0);
                    lemma_labels_own(f1, (n, 1));
                    lemma_labels_join(st, f1, f2, k4, set![(n, 1)]);
                    lemma_labels_weaken(st, f2, k4 + set![(n, 1)], label_keys(n, s2.label as nat));
                    let beq = "    beq t0, x0, End"@ + cur;
                    let jal = "    jal x0, Begin"@ + cur;
                    lemma_cg_refl(f2);
                    lemma_cg_emit(f1, "End"@ + cur + ":"@);
                    lemma_cg_trans(nl, s0, s1);
                    lemma_cg_trans(nl, s1, p1);
                    lemma_cg_trans(nl, p1, p2);
                    lemma_cg_trans(nl, p2, s2);
                    lemma_cg_trans(nl, s2, f1);
                    lemma_cg_trans(nl, f1, f2);
                    lemma_cg_trans(s2, f1, f2);
                    lemma_cg_trans(p2, s2, f2);
                    lemma_cg_trans(s0, p2, s2);
                    lemma_cg_trans(s0, s2, f1);
                    lemma_cg_trans(s0, f1, f2);
                    lemma_jumps_none(st, s0, st, f2);
                    lemma_jumps_none(s0, p1, st, f2);
                    lemma_jumps_join(st, s0, p1, st, f2);
                    lemma_line_between(st, f1, "End"@ + cur + ":"@, f2);
                    lemma_jumps_own(p1, beq, (n, 1), st, f2);
                    lemma_jumps_join(st, p1, p2, st, f2);
                    lemma_jumps_widen(p2, s2, p2, s2, st, f2);
                    lemma_jumps_join(st, p2, s2, st, f2);
                    lemma_line_between(st, nl, "Begin"@ + cur + ":"@, f2);
                    lemma_jumps_own(s2, jal, (n, 2), st, f2);
                    lemma_jumps_join(st, s2, f1, st, f2);
                    lemma_jumps_none(f1, f2, st, f2);
                    lemma_jumps_join(st, f1, f2, st, f2);
                }
            }
        }
    }
}

#[verifier::spinoff_prover]
#[verifier::rlimit(40)]
proof fn lemma_cg_for(st: CodegenState, t: Ast<Lowered>)
    ensures
        gen_for_spec(st, t) matches Ok(s2) ==> cg_follows(st, s2) && pushed(st, s2) == 0 && st.label < s2.label
            && labels_between(st, s2, label_keys(st.label as nat, s2.label as nat)) && jumps_land(st, s2, st, s2)
            && scopes_after(st, t, s2),
    decreases t, 0int,
{
    lemma_stmt_lines_quiet(st.label as nat, decimal_nat(st.label as nat));
    lemma_jump_forms(st.label as nat);
    if let Ast::For(init, c, u, body) = t {
        if st.label < usize::MAX {
            let cur = decimal_nat(st.label as nat);
            let s0 = next_label(st);
            lemma_cg_refl(st);
            lemma_cg_opt(s0, init);
            if let Ok(s1) = gen_opt_spec(s0, init) {
                lemma_cg_trans(st, s0, s1);
                let p1 = emit(s1, "Begin"@ + cur + ":"@);
                lemma_cg_emit(s1, "Begin"@ + cur + ":"@);
                lemma_cg_trans(st, s1, p1);
                lemma_cg_for_cond(p1, c, cur);
                if let Ok(s3) = gen_for_cond(p1, c, cur) {
                    lemma_cg_trans(st, p1, s3);
                    lemma_cg_stmt(s3, *body);
                    if let Ok(s4) = gen_stmt_spec(s3, *body) {
                        lemma_cg_trans(st, s3, s4);
                        lemma_cg_opt(s4, u);
                        if let Ok(s5) = gen_opt_spec(s4, u) {
                            lemma_cg_trans(st, s4, s5);
                            lemma_cg_emit2(s5, "    jal x0, Begin"@ + cur, "End"@ + cur + ":"@);
                            lemma_cg_trans(st, s5, emit2(s5, "    jal x0, Begin"@ + cur, "End"@ + cur + ":"@));
                            let n = st.label as nat;
                            let f1 = emit(s5, "    jal x0, Begin"@ + cur);
                            let f2 = emit(f1, "End"@ + cur + ":"@);
                            lemma_cg_emit(s5, "    jal x0, Begin"@ + cur);
                            let k0 = Set::<(nat, int)>::empty();
                            lemma_labels_none(st, s1, k0);
                            lemma_labels_own(s1, (n, 2));
                            let k1 = k0 + set![(n, 2)];
                            lemma_labels_join(st, s1, p1, k0, set![(n, 2)]);
                            lemma_labels_none(p1, s3, k0);
                            let k2 = k1 + k0;
                            lemma_labels_join(st, p1, s3, k1, k0);
                            let k3 = k2 + label_keys(n + 1, s4.label as nat);
                            lemma_labels_join(st, s3, s4, k2, label_keys(n + 1, s4.label as nat));
                            lemma_labels_none(s4, s5, k0);
                            let k4 = k3 + k0;
                            lemma_labels_join(st, s4, s5, k3, k0);
                            lemma_labels_none(s5, f1, k0);
                            let k5 = k4 + k0;
                            lemma_labels_join(st, s5, f1, k4, k0);
                            lemma_labels_own(f1, (n, 1));
                            lemma_labels_join(st, f1, f2, k5, set![(n, 1)]);
                            lemma_labels_weaken(st, f2, k5 + set![(n, 1)], label_keys(n, s4.label as nat));
                            let jal = "    jal x0, Begin"@ + cur;
                            lemma_cg_refl(f2);
                            lemma_cg_emit(f1, "End"@ + cur + ":"@);
                            lemma_cg_trans(s1, p1, s3);
                            lemma_cg_trans(s1, s3, s4);
                            lemma_cg_trans(s1, s4, s5);
                            lemma_cg_trans(s1, s5, f1);
                            lemma_cg_trans(s1, f1, f2);
                            lemma_cg_trans(s3, s4, s5);
                            lemma_cg_trans(s3, s5, f1);
                            lemma_cg_trans(s3, f1, f2);
                            lemma_cg_trans(s4, s5, f1);
                            lemma_cg_trans(s4, f1, f2);
                            lemma_cg_trans(p1, s3, s4);
                            lemma_cg_trans(p1, s4, s5);
                            lemma_cg_trans(p1, s5, f1);
                            lemma_cg_trans(p1, f1, f2);
                            lemma_jumps_none(st, s1, st, f2);
                            lemma_jumps_none(s1, p1, st, f2);
                            lemma_jumps_join(st, s1, p1, st, f2);
                            lemma_line_between(st, f1, "End"@ + cur + ":"@, f2);
                            lemma_line_between(st, s1, "Begin"@ + cur + ":"@, f2);
                            lemma_jumps_for_cond(p1, c, cur, st, f2, n);
                            lemma_jumps_join(st, p1, s3, st, f2);
                            lemma_jumps_widen(s3, s4, s3, s4, st, f2);
                            lemma_jumps_join(st, s3, s4, st, f2);
                            lemma_jumps_none(s4, s5, st, f2);
                            lemma_jumps_join(st, s4, s5, st, f2);
                            lemma_jumps_own(s5, jal, (n, 2), st, f2);
                            lemma_jumps_join(st, s5, f1, st, f2);
                            lemma_jumps_none(f1, f2, st, f2);
                            lemma_jumps_join(st, f1, f2, st, f2);
                        }
                    }
                }
            }
        }
    }
}

proof fn lemma_cg_stmts(st: CodegenState, ts: Seq<Ast<Lowered>>)
    ensures
        gen_stmts_spec(st, ts) matches Ok(s2) ==> cg_follows(st, s2) && pushed(st, s2) == 0 && labels_between(
            st,
            s2,
            label_keys(st.label as nat, s2.label as nat),
        ) && jumps_land(st, s2, st, s2) && outer_scopes_kept(st, s2),
    decreases ts, 2int,
{
    if ts.len() == 0 {
        lemma_cg_refl(st);
        lemma_labels_none(st, st, label_keys(st.label as nat, st.label as nat));
        lemma_jumps_none(st, st, st, st);
    } else {
        lemma_cg_stmt(st, ts[0]);
        if let Ok(s1) = gen_stmt_spec(st, ts[0]) {
            lemma_cg_stmts(s1, ts.drop_first());
            if let Ok(s2) = gen_stmts_spec(s1, ts.drop_first()) {
                lemma_cg_trans(st, s1, s2);
                let k1 = label_keys(st.label as nat, s1.label as nat);
                let k2 = label_keys(s1.label as nat, s2.label as nat);
                lemma_labels_join(st, s1, s2, k1, k2);
                lemma_labels_weaken(st, s2, k1 + k2, label_keys(st.label as nat, s2.label as nat));
                lemma_cg_refl(s2);
                lemma_cg_refl(st);
                lemma_jumps_widen(st, s1, st, s1, st, s2);
                lemma_jumps_widen(s1, s2, s1, s2, st, s2);
                lemma_jumps_join(st, s1, s2, st, s2);
            }
        }
    }
}

/// The code of a statement goes after what was written, which stays as it is, and leaves the
/// stack as it found it: it pops as often as it pushes. The label counter never goes back, and
/// each `if`, `while` and `for` takes a label number that no statement generated before it took.
pub proof fn law_stmt_code(st: CodegenState, t: Ast<Lowered>)
    ensures
        gen_stmt_spec(st, t) matches Ok(s2) ==> {
            &&& st.out.len() <= s2.out.len()
            &&& s2.out.subrange(0, st.out.len() as int) == st.out
            &&& stack_effect(s2.out.skip(st.out.len() as int)) == 0
            &&& st.label <= s2.label
            &&& (t is If || t is While || t is For) ==> st.label < s2.label
        },
{
    lemma_cg_stmt(st, t);
}

/// The label lines in the code of a statement are those of the label numbers it takes, from
/// the counter before it up to the counter after it, and none is written twice: for each number,
/// `Else{n}:`, `End{n}:` and `Begin{n}:` each come at most once, and every other line of the code
/// is an instruction, indented.
pub proof fn law_stmt_labels_once(st: CodegenState, t: Ast<Lowered>)
    ensures
        gen_stmt_spec(st, t) matches Ok(s2) ==> labels_between(st, s2, label_keys(st.label as nat, s2.label as nat)),
{
    lemma_cg_stmt(st, t);
}

/// The code of a statement leaves the scopes as it found them, but for the locals it declares
/// in the scope it stands in: the outer scopes never change, a block ends the scope it opened,
/// and after a statement that declares nothing in place every name is looked up as before.
pub proof fn law_stmt_scopes(st: CodegenState, t: Ast<Lowered>)
    ensures
        gen_stmt_spec(st, t) matches Ok(s2) ==> {
            &&& outer_scopes_kept(st, s2)
            &&& !declares_in_place(t) ==> s2.scopes == st.scopes && forall|n: Seq<char>|
                cg_lookup(s2, n) == cg_lookup(st, n)
        },
{
    lemma_cg_stmt(st, t);
}

/// Every jump in the code of a statement goes to a label of that statement's own code: each
/// `beq` (to `Else{n}` or `End{n}`) and `jal` (to `End{n}` or `Begin{n}`) written for it jumps to
/// a label whose line `Else{n}:`, `End{n}:` or `Begin{n}:` is written for it too.
pub proof fn law_stmt_jumps_land(st: CodegenState, t: Ast<Lowered>)
    ensures
        gen_stmt_spec(st, t) matches Ok(s2) ==> jumps_land(st, s2, st, s2),
{
    lemma_cg_stmt(st, t);
}

/// The code of an expression writes no label line: every line of it is an indented instruction.
pub proof fn law_expr_writes_no_label(st: CodegenState, t: Ast<Lowered>)
    ensures
        gen_expr_spec(st, t) matches Ok(s2) ==> forall|i: int|
            st.out.len() <= i < s2.out.len() ==> !is_label_line(#[trigger] s2.out[i]),
{
    lemma_cg_expr(st, t);
    if let Ok(s2) = gen_expr_spec(st, t) {
        let d = s2.out.skip(st.out.len() as int);
        lemma_label_count_zero(d);
        assert forall|i: int| st.out.len() <= i < s2.out.len() implies !is_label_line(#[trigger] s2.out[i]) by {
            assert(s2.out[i] == d[i - st.out.len()]);
        }
    }
}

/// A line that is the label line of a key.
pub open spec fn is_key_line(l: Seq<char>) -> bool {
    is_key(label_key(l)) && label_line(label_key(l)) == l
}

/// The lines among `ls` that are label lines of keys are those of keys in `keys`, and none of
/// them is there twice.
pub open spec fn key_lines_once(ls: Seq<Seq<char>>, keys: Set<(nat, int)>) -> bool {
    &&& forall|i: int| 0 <= i < ls.len() && is_key_line(#[trigger] ls[i]) ==> keys.contains(label_key(ls[i]))
    &&& forall|i: int, j: int|
        #![trigger ls[i], ls[j]]
        0 <= i < ls.len() && 0 <= j < ls.len() && i != j && is_key_line(ls[i]) ==> ls[i] != ls[j]
}

/// The label lines of keys written from `a` to `b` are those of keys in `keys`, each once.
pub open spec fn key_lines_between(a: CodegenState, b: CodegenState, keys: Set<(nat, int)>) -> bool {
    key_lines_once(b.out.skip(a.out.len() as int), keys)
}

/// A line that starts with neither `E` nor `B` is the label line of no key.
proof fn lemma_not_key_line(l: Seq<char>)
    requires
        l.len() == 0 || (l[0] != 'E' && l[0] != 'B'),
    ensures
        !is_key_line(l),
{
    reveal_strlit("Else");
    reveal_strlit("End");
    reveal_strlit("Begin");
    let k = label_key(l);
    if is_key_line(l) {
        lemma_decimal_nat_len(k.0);
        assert(label_line(k)[0] == 'E' || label_line(k)[0] == 'B');
    }
}

/// Code whose label lines are written once is code whose key lines are.
proof fn lemma_key_lines_from_labels(a: CodegenState, b: CodegenState, keys: Set<(nat, int)>)
    requires
        labels_between(a, b, keys),
    ensures
        key_lines_between(a, b, keys),
{
    let ls = b.out.skip(a.out.len() as int);
    assert forall|i: int| 0 <= i < ls.len() && is_key_line(#[trigger] ls[i]) implies is_label_line(ls[i]) by {
        if !is_label_line(ls[i]) {
            lemma_not_key_line(ls[i]);
        }
    }
}

/// One line that is the label line of no key.
proof fn lemma_key_lines_emit(a: CodegenState, l: Seq<char>, keys: Set<(nat, int)>)
    requires
        !is_key_line(l),
    ensures
        key_lines_between(a, emit(a, l), keys),
        cg_follows(a, emit(a, l)),
{
    lemma_cg_emit(a, l);
    assert(emit(a, l).out.skip(a.out.len() as int) =~= seq![l]);
}

/// Code that writes no label line writes no key line.
proof fn lemma_key_lines_none(a: CodegenState, b: CodegenState, keys: Set<(nat, int)>)
    requires
        labels_written(a, b) == 0,
    ensures
        key_lines_between(a, b, keys),
{
    lemma_labels_none(a, b, keys);
    lemma_key_lines_from_labels(a, b, keys);
}

/// The lines of `b` are those of `a` and possibly more after them.
pub open spec fn out_follows(a: CodegenState, b: CodegenState) -> bool {
    a.out.len() <= b.out.len() && b.out.subrange(0, a.out.len() as int) == a.out
}

/// The key lines of two pieces of code, one after the other, whose keys do not meet.
proof fn lemma_key_lines_join(
    a: CodegenState,
    b: CodegenState,
    c: CodegenState,
    k1: Set<(nat, int)>,
    k2: Set<(nat, int)>,
)
    requires
        out_follows(a, b),
        out_follows(b, c),
        key_lines_between(a, b, k1),
        key_lines_between(b, c, k2),
        k1.disjoint(k2),
    ensures
        key_lines_between(a, c, k1 + k2),
        out_follows(a, c),
{
    assert(c.out.subrange(0, a.out.len() as int) =~= c.out.subrange(0, b.out.len() as int).subrange(
        0,
        a.out.len() as int,
    ));
    let x = b.out.skip(a.out.len() as int);
    let y = c.out.skip(b.out.len() as int);
    let z = c.out.skip(a.out.len() as int);
    assert(z =~= x + y);
    assert forall|i: int| 0 <= i < z.len() && is_key_line(#[trigger] z[i]) implies (k1 + k2).contains(
        label_key(z[i]),
    ) by {
        if i < x.len() {
            assert(z[i] == x[i]);
        } else {
            assert(z[i] == y[i - x.len()]);
        }
    }
    assert forall|i: int, j: int|
        #![trigger z[i], z[j]]
        0 <= i < z.len() && 0 <= j < z.len() && i != j && is_key_line(z[i]) implies z[i] != z[j] by {
        if i < x.len() {
            assert(z[i] == x[i]);
        } else {
            assert(z[i] == y[i - x.len()]);
        }
        if j < x.len() {
            assert(z[j] == x[j]);
        } else {
            assert(z[j] == y[j - x.len()]);
        }
        if i < x.len() && j >= x.len() && z[i] == z[j] {
            assert(k1.contains(label_key(x[i])));
            assert(k2.contains(label_key(y[j - x.len()])));
        }
        if j < x.len() && i >= x.len() && z[i] == z[j] {
            assert(k2.contains(label_key(y[i - x.len()])));
            assert(k1.contains(label_key(x[j])));
        }
    }
}

proof fn lemma_key_lines_weaken(a: CodegenState, b: CodegenState, k1: Set<(nat, int)>, k2: Set<(nat, int)>)
    requires
        key_lines_between(a, b, k1),
        k1.subset_of(k2),
    ensures
        key_lines_between(a, b, k2),
{
}

proof fn lemma_cg_prologue(st: CodegenState, frame: usize)
    ensures
        cg_follows(st, prologue(st, frame)),
        labels_written(st, prologue(st, frame)) == 0 && jumps_written(st, prologue(st, frame)) == 0,
        prologue(st, frame).label == st.label,
{
    reveal_strlit("    addi sp, sp, -16");
    reveal_strlit("    sd ra, 8(sp)");
    reveal_strlit("    sd fp, 0(sp)");
    reveal_strlit("    addi fp, sp, 0");
    reveal_strlit("    li t0, -");
    reveal_strlit("    add sp, sp, t0");
    let s1 = emit2(st, "    addi sp, sp, -16"@, "    sd ra, 8(sp)"@);
    let s2 = emit2(s1, "    sd fp, 0(sp)"@, "    addi fp, sp, 0"@);
    lemma_cg_emit2(st, "    addi sp, sp, -16"@, "    sd ra, 8(sp)"@);
    lemma_cg_emit2(s1, "    sd fp, 0(sp)"@, "    addi fp, sp, 0"@);
    lemma_cg_emit2(s2, "    li t0, -"@ + decimal_nat(frame as nat), "    add sp, sp, t0"@);
    lemma_cg_trans(st, s1, s2);
    lemma_cg_trans(st, s2, prologue(st, frame));
}

proof fn lemma_cg_store_params(st: CodegenState, params: Seq<(Type, Seq<char>)>, k: int)
    ensures
        store_params(st, params, k) matches Ok(s2) ==> cg_follows(st, s2) && labels_written(st, s2) == 0 && jumps_written(st, s2) == 0
            && s2.label == st.label,
    decreases params.len() - k,
{
    if 0 <= k < params.len() {
        if let Ok((s1, off)) = cg_declare(st, params[k].1, params[k].0) {
            lemma_cg_refl(st);
            let r = "a"@ + decimal_nat(k as nat);
            lemma_cg_access(s1, true, r, "fp"@, off, params[k].0);
            if let Ok(s2) = access(s1, true, r, "fp"@, off, params[k].0) {
                lemma_cg_store_params(s2, params, k + 1);
                lemma_cg_trans(st, s1, s2);
                if let Ok(s3) = store_params(s2, params, k + 1) {
                    lemma_cg_trans(st, s2, s3);
                }
            }
        }
    } else {
        lemma_cg_refl(st);
    }
}

/// A function whose name is the label of no key writes the label lines of the numbers it takes,
/// each once.
proof fn lemma_cg_func(st: CodegenState, t: Ast<Lowered>)
    requires
        t is FuncDef ==> !is_key_line(t->FuncDef_1 + ":"@),
    ensures
        gen_func_spec(st, t) matches Ok(s2) ==> cg_follows(st, s2) && key_lines_between(
            st,
            s2,
            label_keys(st.label as nat, s2.label as nat),
        ),
{
    if let Ast::FuncDef(_, name, params, body) = t {
        if let Ok(s4) = gen_func_spec(st, t) {
            let s0 = CodegenState { scopes: seq![seq![]], offset: 0, ..st };
            let s1 = emit(s0, name + ":"@);
            let locals = collect_spec(*body, seq![]);
            let a = frame_bytes(locals.map_values(|p: (Seq<char>, Type)| p.1))->Some_0;
            let b = frame_bytes(params.map_values(|p: (Type, Seq<char>)| p.0))->Some_0;
            let frame = aligned_frame(a + b) as usize;
            let f = CodegenState { frame: frame, ..s1 };
            let pr = prologue(f, frame);
            let s2 = store_params(pr, params, 0)->Ok_0;
            let s3 = gen_stmt_spec(s2, *body)->Ok_0;
            let k0 = Set::<(nat, int)>::empty();
            lemma_cg_refl(st);
            lemma_key_lines_none(st, s0, k0);
            lemma_key_lines_emit(s0, name + ":"@, k0);
            lemma_key_lines_join(st, s0, s1, k0, k0);
            lemma_cg_prologue(f, frame);
            lemma_key_lines_none(f, pr, k0);
            lemma_key_lines_join(st, f, pr, k0 + k0, k0);
            lemma_cg_store_params(pr, params, 0);
            lemma_key_lines_none(pr, s2, k0);
            lemma_key_lines_join(st, pr, s2, k0 + k0 + k0, k0);
            lemma_cg_stmt(s2, *body);
            let kb = label_keys(s2.label as nat, s3.label as nat);
            lemma_key_lines_from_labels(s2, s3, kb);
            lemma_key_lines_join(st, s2, s3, k0 + k0 + k0 + k0, kb);
            lemma_cg_epilogue(s3, frame);
            lemma_key_lines_none(s3, epilogue(s3, frame), k0);
            lemma_key_lines_join(st, s3, epilogue(s3, frame), k0 + k0 + k0 + k0 + kb, k0);
            lemma_key_lines_weaken(st, s4, k0 + k0 + k0 + k0 + kb + k0, label_keys(st.label as nat, s4.label as nat));
            lemma_cg_emit(s0, name + ":"@);
            lemma_cg_trans(st, s1, pr);
            lemma_cg_trans(st, pr, s2);
            lemma_cg_trans(st, s2, s3);
            lemma_cg_trans(st, s3, epilogue(s3, frame));
        }
    }
}

/// The frame a function's code makes holds its parameters and its locals: the prologue, the
/// fifth line after the function's label, moves the stack pointer down by a multiple of 16 that
/// is at least the room of the parameters' types and the locals' types together, and less than
/// 16 bytes more.
pub proof fn law_frame_holds_params_and_locals(st: CodegenState, t: Ast<Lowered>)
    ensures
        gen_func_spec(st, t) matches Ok(s4) ==> t matches Ast::FuncDef(_, name, params, body) && {
            let need = total_size(params.map_values(|p: (Type, Seq<char>)| p.0)) + total_size(
                collect_spec(*body, seq![]).map_values(|p: (Seq<char>, Type)| p.1),
            );
            &&& s4.out[st.out.len() as int] == name + ":"@
            &&& exists|f: nat|
                #![trigger decimal_nat(f)]
                s4.out[st.out.len() + 5int] == "    li t0, -"@ + decimal_nat(f) && f % 16 == 0 && need <= f < need
                    + 16
        },
{
    if let Ast::FuncDef(_, name, params, body) = t {
        if let Ok(s4) = gen_func_spec(st, t) {
            let s0 = CodegenState { scopes: seq![seq![]], offset: 0, ..st };
            let s1 = emit(s0, name + ":"@);
            let pt = params.map_values(|p: (Type, Seq<char>)| p.0);
            let lt = collect_spec(*body, seq![]).map_values(|p: (Seq<char>, Type)| p.1);
            let need = total_size(pt) + total_size(lt);
            let frame = aligned_frame(need as int) as usize;
            law_frame_aligned(need);
            let f = CodegenState { frame: frame, ..s1 };
            let pr = prologue(f, frame);
            let s2 = store_params(pr, params, 0)->Ok_0;
            let s3 = gen_stmt_spec(s2, *body)->Ok_0;
            lemma_cg_refl(st);
            lemma_cg_emit(s0, name + ":"@);
            lemma_cg_prologue(f, frame);
            lemma_cg_store_params(pr, params, 0);
            lemma_cg_stmt(s2, *body);
            lemma_cg_epilogue(s3, frame);
            lemma_cg_trans(pr, s2, s3);
            lemma_cg_trans(pr, s3, epilogue(s3, frame));
            let n = st.out.len() as int;
            assert(pr.out[n + 5] == "    li t0, -"@ + decimal_nat(frame as nat));
            assert(pr.out[n] == name + ":"@);
            assert(s4.out == epilogue(s3, frame).out);
            assert(s4.out.subrange(0, pr.out.len() as int) == pr.out);
            assert(s4.out[n + 5] == pr.out[n + 5]);
            assert(s4.out[n] == pr.out[n]);
            let w = frame as nat;
            assert(s4.out[n + 5] == "    li t0, -"@ + decimal_nat(w) && w % 16 == 0 && need <= w < need + 16);
        }
    }
}

/// Functions none of which is named like a label of a key write the label lines of the numbers
/// they take, each once.
proof fn lemma_cg_funcs(st: CodegenState, ts: Seq<Ast<Lowered>>, k: int)
    requires
        forall|i: int| 0 <= i < ts.len() && (#[trigger] ts[i]) is FuncDef ==> !is_key_line(ts[i]->FuncDef_1 + ":"@),
    ensures
        gen_funcs(st, ts, k) matches Ok(s2) ==> cg_follows(st, s2) && key_lines_between(
            st,
            s2,
            label_keys(st.label as nat, s2.label as nat),
        ),
    decreases ts.len() - k,
{
    if 0 <= k < ts.len() {
        lemma_cg_func(st, ts[k]);
        if let Ok(s1) = gen_func_spec(st, ts[k]) {
            lemma_cg_funcs(s1, ts, k + 1);
            if let Ok(s2) = gen_funcs(s1, ts, k + 1) {
                let k1 = label_keys(st.label as nat, s1.label as nat);
                let k2 = label_keys(s1.label as nat, s2.label as nat);
                lemma_cg_trans(st, s1, s2);
                lemma_key_lines_join(st, s1, s2, k1, k2);
                lemma_key_lines_weaken(st, s2, k1 + k2, label_keys(st.label as nat, s2.label as nat));
            }
        }
    } else {
        lemma_cg_refl(st);
        lemma_key_lines_none(st, st, label_keys(st.label as nat, st.label as nat));
    }
}

proof fn lemma_cg_data_globals(st: CodegenState, gs: Seq<(Seq<char>, Type)>, k: int)
    requires
        forall|i: int| 0 <= i < gs.len() ==> !is_key_line((#[trigger] gs[i]).0 + ":"@),
    ensures
        data_globals(st, gs, k) matches Ok(s2) ==> out_follows(st, s2) && s2.label == st.label
            && key_lines_between(st, s2, Set::empty()),
    decreases gs.len() - k,
{
    let e = Set::<(nat, int)>::empty();
    if 0 <= k < gs.len() {
        if let Some(n) = size_of(gs[k].1) {
            let l1 = gs[k].0 + ":"@;
            let l2 = "    .space "@ + decimal_nat(n);
            reveal_strlit("    .space ");
            let s1 = emit(st, l1);
            let s2 = emit(s1, l2);
            lemma_key_lines_emit(st, l1, e);
            lemma_not_key_line(l2);
            lemma_key_lines_emit(s1, l2, e);
            lemma_key_lines_join(st, s1, s2, e, e);
            lemma_cg_data_globals(s2, gs, k + 1);
            if let Ok(s3) = data_globals(s2, gs, k + 1) {
                lemma_key_lines_join(st, s2, s3, e + e, e);
                lemma_key_lines_weaken(st, s3, e + e + e, e);
            }
        }
    } else {
        lemma_cg_refl(st);
        lemma_key_lines_none(st, st, e);
    }
}

proof fn lemma_cg_data_strings(st: CodegenState, ss: Seq<(Seq<char>, Seq<char>)>, k: int)
    requires
        forall|i: int| 0 <= i < ss.len() ==> !is_key_line((#[trigger] ss[i]).0 + ":"@),
    ensures
        out_follows(st, data_strings(st, ss, k)),
        data_strings(st, ss, k).label == st.label,
        key_lines_between(st, data_strings(st, ss, k), Set::empty()),
    decreases ss.len() - k,
{
    let e = Set::<(nat, int)>::empty();
    if 0 <= k < ss.len() {
        let l1 = ss[k].0 + ":"@;
        let l2 = "    .ascii \""@ + ss[k].1 + "\""@;
        reveal_strlit("    .ascii \"");
        let s1 = emit(st, l1);
        let s2 = emit(s1, l2);
        lemma_key_lines_emit(st, l1, e);
        lemma_not_key_line(l2);
        lemma_key_lines_emit(s1, l2, e);
        lemma_key_lines_join(st, s1, s2, e, e);
        lemma_cg_data_strings(s2, ss, k + 1);
        let s3 = data_strings(s2, ss, k + 1);
        lemma_key_lines_join(st, s2, s3, e + e, e);
        lemma_key_lines_weaken(st, s3, e + e + e, e);
    } else {
        lemma_cg_refl(st);
        lemma_key_lines_none(st, st, e);
    }
}

/// Across the code of a program, no label line of an `if`, `while` or `for` (`Else{n}:`,
/// `End{n}:`, `Begin{n}:`) is written twice, and each carries a number that the label counter
/// took during the generation; this holds where no global, string literal or function is named
/// like such a label.
pub proof fn law_generate_labels_once(st: CodegenState, t: Ast<Lowered>)
    requires
        forall|i: int| 0 <= i < st.globals.len() ==> !is_key_line((#[trigger] st.globals[i]).0 + ":"@),
        forall|i: int| 0 <= i < st.strings.len() ==> !is_key_line((#[trigger] st.strings[i]).0 + ":"@),
        t is Program ==> forall|i: int|
            0 <= i < t->Program_0.len() && (#[trigger] t->Program_0[i]) is FuncDef ==> !is_key_line(
                t->Program_0[i]->FuncDef_1 + ":"@,
            ),
    ensures
        generate_spec(st, t) matches Ok(s2) ==> key_lines_between(st, s2, label_keys(st.label as nat, s2.label as nat)),
{
    if let Ast::Program(ts) = t {
        if let Ok(s9) = generate_spec(st, t) {
            let e = Set::<(nat, int)>::empty();
            reveal_strlit(".data");
            reveal_strlit(".align 4");
            reveal_strlit(".text");
            reveal_strlit(".globl main");
            lemma_not_key_line(".data"@);
            lemma_not_key_line(".align 4"@);
            lemma_not_key_line(".text"@);
            lemma_not_key_line(".globl main"@);
            let d1 = emit(st, ".data"@);
            let d = emit(d1, ".align 4"@);
            lemma_key_lines_emit(st, ".data"@, e);
            lemma_key_lines_emit(d1, ".align 4"@, e);
            lemma_key_lines_join(st, d1, d, e, e);
            lemma_cg_data_globals(d, st.globals, 0);
            let s1 = data_globals(d, st.globals, 0)->Ok_0;
            lemma_key_lines_join(st, d, s1, e + e, e);
            lemma_cg_data_strings(s1, st.strings, 0);
            let ds = data_strings(s1, st.strings, 0);
            lemma_key_lines_join(st, s1, ds, e + e + e, e);
            let t1 = emit(ds, ".text"@);
            let s2 = emit(t1, ".globl main"@);
            lemma_key_lines_emit(ds, ".text"@, e);
            lemma_key_lines_emit(t1, ".globl main"@, e);
            lemma_key_lines_join(st, ds, t1, e + e + e + e, e);
            lemma_key_lines_join(st, t1, s2, e + e + e + e + e, e);
            let fs = collect_fns(seq![], false, ts, 0)->Ok_0.0;
            let g = CodegenState { functions: fs, ..s2 };
            lemma_cg_funcs(g, ts, 0);
            let kf = label_keys(g.label as nat, s9.label as nat);
            lemma_key_lines_join(st, g, s9, e + e + e + e + e + e, kf);
            lemma_key_lines_weaken(st, s9, e + e + e + e + e + e + kf, label_keys(st.label as nat, s9.label as nat));
        }
    }
}

/// The code of an expression goes after what was written and leaves the value of the
/// expression on the stack: it pushes one more time than it pops. It takes no label number.
pub proof fn law_expr_code(st: CodegenState, t: Ast<Lowered>)
    ensures
        gen_expr_spec(st, t) matches Ok(s2) ==> {
            &&& st.out.len() <= s2.out.len()
            &&& s2.out.subrange(0, st.out.len() as int) == st.out
            &&& stack_effect(s2.out.skip(st.out.len() as int)) == 1
            &&& s2.label == st.label
        },
{
    lemma_cg_expr(st, t);
}



/// The room of two lists of types, one after the other, is the room of each added up; no type
/// takes none.
pub proof fn law_total_size_append(a: Seq<Type>, b: Seq<Type>)
    ensures
        total_size(a + b) == total_size(a) + total_size(b),
        total_size(Seq::<Type>::empty()) == 0,
    decreases b.len(),
{
    if b.len() > 0 {
        law_total_size_append(a, b.drop_last());
        assert((a + b).drop_last() =~= a + b.drop_last());
        assert((a + b).last() == b.last());
    } else {
        assert(a + b =~= a);
    }
}

/// The room of a list of types does not depend on their order: lists with the same types, each
/// as often, take the same room.
pub proof fn law_total_size_permutation(a: Seq<Type>, b: Seq<Type>)
    requires
        a.to_multiset() == b.to_multiset(),
    ensures
        total_size(a) == total_size(b),
    decreases a.len(),
{
    broadcast use vstd::seq_lib::group_to_multiset_ensures;
    broadcast use vstd::multiset::group_multiset_axioms;

    if a.len() == 0 {
        assert(b.to_multiset().len() == 0);
        assert(b =~= Seq::<Type>::empty());
    } else {
        let x = a.last();
        let rest = a.drop_last();
        assert(a =~= rest.push(x));
        assert(a.to_multiset() =~= rest.to_multiset().insert(x));
        assert(b.to_multiset().count(x) > 0);
        assert(b.contains(x));
        let i = choose|i: int| 0 <= i < b.len() && b[i] == x;
        let b2 = b.remove(i);
        assert(b2.to_multiset() =~= b.to_multiset().remove(x));
        assert(b2.to_multiset() =~= rest.to_multiset());
        law_total_size_permutation(rest, b2);
        let pre = b.subrange(0, i);
        let post = b.subrange(i + 1, b.len() as int);
        assert(b =~= pre + seq![x] + post);
        assert(b2 =~= pre + post);
        law_total_size_append(pre + seq![x], post);
        law_total_size_append(pre, seq![x]);
        law_total_size_append(pre, post);
        assert(seq![x].drop_last() =~= Seq::<Type>::empty());
        assert(total_size(seq![x]) == x.spec_size());
    }
}

/// The frame room of a list of types, or its overflow, does not depend on their order.
pub proof fn law_frame_bytes_permutation(a: Seq<Type>, b: Seq<Type>)
    requires
        a.to_multiset() == b.to_multiset(),
    ensures
        frame_bytes(a) == frame_bytes(b),
{
    broadcast use vstd::seq_lib::group_to_multiset_ensures;

    law_total_size_permutation(a, b);
    assert forall|k: int| 0 <= k < b.len() implies a.contains(#[trigger] b[k]) by {
        assert(b.contains(b[k]));
        assert(b.to_multiset().count(b[k]) > 0);
    }
    assert forall|k: int| 0 <= k < a.len() implies b.contains(#[trigger] a[k]) by {
        assert(a.contains(a[k]));
        assert(a.to_multiset().count(a[k]) > 0);
    }
}

/// A function's frame is the room its locals and parameters take, rounded up to the next
/// multiple of 16: it holds them, and wastes less than 16 bytes.
pub proof fn law_frame_aligned(n: nat)
    ensures
        aligned_frame(n as int) % 16 == 0,
        n <= aligned_frame(n as int) < n + 16,
{
    let q = (n + 15) / 16;
    assert(q * 16 % 16 == 0) by (nonlinear_arith);
    assert(n + 15 - 15 <= q * 16 <= n + 15) by (nonlinear_arith)
        requires
            q == (n + 15) / 16,
    ;
}

/// A declared local is then looked up with its type, at the offset it was given: below the
/// previous offset by the size of its type (a size that an `i64` holds).
pub proof fn law_cg_lookup_after_declare(st: CodegenState, name: Seq<char>, ty: Type)
    requires
        cg_declare(st, name, ty) is Ok,
        ty.spec_size() <= i64::MAX,
    ensures
        cg_lookup(cg_declare(st, name, ty)->Ok_0.0, name) == Some((ty, Some(cg_declare(st, name, ty)->Ok_0.1))),
        cg_declare(st, name, ty)->Ok_0.1 == st.offset - ty.spec_size(),
{
    let (s1, off) = cg_declare(st, name, ty)->Ok_0;
    law_find_after_upsert(st.scopes.last(), name, (ty, off));
    assert(s1.scopes.last() == upsert(st.scopes.last(), name, (ty, off)));
}


/// Where a local's slot ends: its offset below the frame pointer plus the size of its type.
pub open spec fn slot_end(slot: (Type, i64)) -> int {
    slot.1 + slot.0.spec_size()
}

/// The live locals of `st` lie below the frame pointer and at or above the current offset, and
/// no two of them share a byte.
pub open spec fn slots_apart(st: CodegenState) -> bool {
    &&& st.offset <= 0
    &&& forall|i: int, j: int|
        0 <= i < st.scopes.len() && 0 <= j < st.scopes[i].len() ==> st.offset <= (#[trigger] st.scopes[i][j]).1.1
            && slot_end(st.scopes[i][j].1) <= 0
    &&& forall|i1: int, j1: int, i2: int, j2: int|
        0 <= i1 < st.scopes.len() && 0 <= j1 < st.scopes[i1].len() && 0 <= i2 < st.scopes.len() && 0 <= j2
            < st.scopes[i2].len() && (i1 != i2 || j1 != j2) ==> slot_end((#[trigger] st.scopes[i1][j1]).1)
            <= st.scopes[i2][j2].1.1 || slot_end((#[trigger] st.scopes[i2][j2]).1) <= st.scopes[i1][j1].1.1
}

/// A function's code starts with no local and the offset at the frame pointer.
pub proof fn law_slots_apart_at_function_entry(st: CodegenState)
    ensures
        slots_apart(CodegenState { scopes: seq![seq![]], offset: 0, ..st }),
{
}

/// Entering or leaving a block keeps the live locals apart.
pub proof fn law_scopes_keep_slots_apart(st: CodegenState)
    requires
        slots_apart(st),
    ensures
        slots_apart(push_scope(st)),
        slots_apart(pop_scope(st)),
{
    let p = push_scope(st);
    assert forall|i: int, j: int| 0 <= i < p.scopes.len() && 0 <= j < p.scopes[i].len() implies st.offset
        <= (#[trigger] p.scopes[i][j]).1.1 && slot_end(p.scopes[i][j].1) <= 0 by {
        assert(i < st.scopes.len());
        assert(p.scopes[i] == st.scopes[i]);
    }
}

/// A local is declared just below the live locals: its slot ends at the offset before the
/// declaration, takes the size of its type (a size that an `i64` holds), shares no byte with any
/// other live local, and stays below the frame pointer.
pub proof fn law_declare_keeps_slots_apart(st: CodegenState, name: Seq<char>, ty: Type)
    requires
        slots_apart(st),
        cg_declare(st, name, ty) is Ok,
        ty.spec_size() <= i64::MAX,
    ensures
        ({
            let (s1, off) = cg_declare(st, name, ty)->Ok_0;
            &&& off == st.offset - ty.spec_size()
            &&& slot_end((ty, off)) == st.offset
            &&& s1.offset == off
            &&& slots_apart(s1)
        }),
{
    let (s1, off) = cg_declare(st, name, ty)->Ok_0;
    law_cg_lookup_after_declare(st, name, ty);
    let last = st.scopes.len() - 1;
    let old_last = st.scopes.last();
    let u = upsert(old_last, name, (ty, off));
    let p = lemma_upsert_index(old_last, name, (ty, off));
    assert(s1.scopes == st.scopes.update(last, u));
    assert(u[p] == (name, (ty, off)));
    assert forall|j: int| 0 <= j < u.len() && j != p implies j < old_last.len() && #[trigger] u[j] == old_last[j] by {}
    // Each live slot of `s1` is the new one, at `(last, p)`, or one that `st` had at the same place.
    assert forall|i: int, j: int| 0 <= i < s1.scopes.len() && 0 <= j < s1.scopes[i].len() && !(i == last
        && j == p) implies 0 <= j < st.scopes[i].len() && #[trigger] s1.scopes[i][j] == st.scopes[i][j] by {
        if i == last {
            assert(s1.scopes[i] == u);
            assert(u[j] == old_last[j]);
        }
    }
    assert(s1.scopes[last][p] == (name, (ty, off)));
    assert forall|i: int, j: int| 0 <= i < s1.scopes.len() && 0 <= j < s1.scopes[i].len() implies s1.offset
        <= (#[trigger] s1.scopes[i][j]).1.1 && slot_end(s1.scopes[i][j].1) <= 0 by {
        if !(i == last && j == p) {
            assert(s1.scopes[i][j] == st.scopes[i][j]);
        }
    }
    assert forall|i1: int, j1: int, i2: int, j2: int|
        0 <= i1 < s1.scopes.len() && 0 <= j1 < s1.scopes[i1].len() && 0 <= i2 < s1.scopes.len() && 0 <= j2
            < s1.scopes[i2].len() && (i1 != i2 || j1 != j2) implies slot_end((#[trigger] s1.scopes[i1][j1]).1)
            <= s1.scopes[i2][j2].1.1 || slot_end((#[trigger] s1.scopes[i2][j2]).1) <= s1.scopes[i1][j1].1.1 by {
        let new1 = i1 == last && j1 == p;
        let new2 = i2 == last && j2 == p;
        if !new1 {
            assert(s1.scopes[i1][j1] == st.scopes[i1][j1]);
        }
        if !new2 {
            assert(s1.scopes[i2][j2] == st.scopes[i2][j2]);
        }
        if !new1 && !new2 {
            assert(st.scopes[i1][j1] == s1.scopes[i1][j1]);
            assert(st.scopes[i2][j2] == s1.scopes[i2][j2]);
        }
    }
}

} // verus!
