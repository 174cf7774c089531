//! What the stack, frame and arithmetic code does when it runs: a model of the registers and
//! memory words that the instructions written for pushes, pops, prologues, epilogues and
//! integer arithmetic touch. Values are integers: the wrapping of 64-bit registers is left out.
use vstd::prelude::*;
use vstd::string::*;
use crate::codegen::{CodegenState, sp_push, sp_pop, prologue, epilogue, gen_expr_spec};
use crate::parser::{Ast, Lowered, Op};
use crate::types::Type;
use crate::text::{decimal, decimal_nat, digit_char};

verus! {

/// The registers and the memory, as integers: each register by name, each 8-byte word by the
/// address it starts at.
pub struct Machine {
    pub regs: Map<Seq<char>, int>,
    pub mem: Map<int, int>,
}

/// The value of a register; 0 for one never written.
pub open spec fn reg(m: Machine, r: Seq<char>) -> int {
    if m.regs.dom().contains(r) {
        m.regs[r]
    } else {
        0
    }
}

/// The word at an address; 0 for one never written.
pub open spec fn word(m: Machine, a: int) -> int {
    if m.mem.dom().contains(a) {
        m.mem[a]
    } else {
        0
    }
}

/// An instruction of the kinds the stack and frame code is written with.
pub enum Instr {
    /// `rd = rs + k`.
    Addi(Seq<char>, Seq<char>, int),
    /// `rd = a + b`.
    Add(Seq<char>, Seq<char>, Seq<char>),
    /// `rd = a - b`.
    Sub(Seq<char>, Seq<char>, Seq<char>),
    /// `rd = a * b`.
    Mul(Seq<char>, Seq<char>, Seq<char>),
    /// `rd = 1` when `a < b`, else `rd = 0`.
    Slt(Seq<char>, Seq<char>, Seq<char>),
    /// `rd = 1` when `a` is zero, else `rd = 0`.
    Seqz(Seq<char>, Seq<char>),
    /// `rd = 1` when `a` is not zero, else `rd = 0`.
    Snez(Seq<char>, Seq<char>),
    /// `rd = a ^ 1`: `a` with its lowest bit flipped.
    XoriOne(Seq<char>, Seq<char>),
    /// `rd = k`.
    Li(Seq<char>, int),
    /// `rd = -n`, written with its minus sign whatever `n` is.
    LiNeg(Seq<char>, nat),
    /// Stores `rs` at `k` past the address in `base`.
    Sd(Seq<char>, int, Seq<char>),
    /// Loads `rd` from `k` past the address in `base`.
    Ld(Seq<char>, int, Seq<char>),
    /// Returns to the address in `ra`.
    Ret,
}

/// The line that writes an instruction.
pub open spec fn render(i: Instr) -> Seq<char> {
    match i {
        Instr::Addi(d, s, k) => "    addi "@ + d + ", "@ + s + ", "@ + decimal(k),
        Instr::Add(d, a, b) => "    add "@ + d + ", "@ + a + ", "@ + b,
        Instr::Sub(d, a, b) => "    sub "@ + d + ", "@ + a + ", "@ + b,
        Instr::Mul(d, a, b) => "    mul "@ + d + ", "@ + a + ", "@ + b,
        Instr::Slt(d, a, b) => "    slt "@ + d + ", "@ + a + ", "@ + b,
        Instr::Seqz(d, a) => "    seqz "@ + d + ", "@ + a,
        Instr::Snez(d, a) => "    snez "@ + d + ", "@ + a,
        Instr::XoriOne(d, a) => "    xori "@ + d + ", "@ + a + ", 1"@,
        Instr::Li(d, k) => "    li "@ + d + ", "@ + decimal(k),
        Instr::LiNeg(d, n) => "    li "@ + d + ", -"@ + decimal_nat(n),
        Instr::Sd(r, k, b) => "    sd "@ + r + ", "@ + decimal(k) + "("@ + b + ")"@,
        Instr::Ld(r, k, b) => "    ld "@ + r + ", "@ + decimal(k) + "("@ + b + ")"@,
        Instr::Ret => "    ret"@,
    }
}

/// The lines of instructions, in order.
pub open spec fn lines_of(is: Seq<Instr>) -> Seq<Seq<char>> {
    is.map_values(|i: Instr| render(i))
}

/// What one instruction does; `ret` leaves registers and memory as they are.
pub open spec fn step(m: Machine, i: Instr) -> Machine {
    match i {
        Instr::Addi(d, s, k) => Machine { regs: m.regs.insert(d, reg(m, s) + k), ..m },
        Instr::Add(d, a, b) => Machine { regs: m.regs.insert(d, reg(m, a) + reg(m, b)), ..m },
        Instr::Sub(d, a, b) => Machine { regs: m.regs.insert(d, reg(m, a) - reg(m, b)), ..m },
        Instr::Mul(d, a, b) => Machine { regs: m.regs.insert(d, reg(m, a) * reg(m, b)), ..m },
        Instr::Slt(d, a, b) => Machine { regs: m.regs.insert(d, if reg(m, a) < reg(m, b) { 1int } else { 0int }), ..m },
        Instr::Seqz(d, a) => Machine { regs: m.regs.insert(d, if reg(m, a) == 0 { 1int } else { 0int }), ..m },
        Instr::Snez(d, a) => Machine { regs: m.regs.insert(d, if reg(m, a) != 0 { 1int } else { 0int }), ..m },
        Instr::XoriOne(d, a) => Machine { regs: m.regs.insert(d, reg(m, a) / 2 * 2 + (1 - reg(m, a) % 2)), ..m },
        Instr::Li(d, k) => Machine { regs: m.regs.insert(d, k), ..m },
        Instr::LiNeg(d, n) => Machine { regs: m.regs.insert(d, -n), ..m },
        Instr::Sd(r, k, b) => Machine { mem: m.mem.insert(reg(m, b) + k, reg(m, r)), ..m },
        Instr::Ld(r, k, b) => Machine { regs: m.regs.insert(r, word(m, reg(m, b) + k)), ..m },
        Instr::Ret => m,
    }
}

/// What instructions do, one after the other.
pub open spec fn run(m: Machine, is: Seq<Instr>) -> Machine
    decreases is.len(),
{
    if is.len() == 0 {
        m
    } else {
        run(step(m, is[0]), is.drop_first())
    }
}

/// The instructions of a push of `a` and then a pop into `b`.
pub open spec fn push_pop_instrs(a: Seq<char>, b: Seq<char>) -> Seq<Instr> {
    seq![
        Instr::Addi("sp"@, "sp"@, -8),
        Instr::Sd(a, 0, "sp"@),
        Instr::Ld(b, 0, "sp"@),
        Instr::Addi("sp"@, "sp"@, 8),
    ]
}

/// The instructions of the prologue of a frame of `frame` bytes.
pub open spec fn prologue_instrs(frame: nat) -> Seq<Instr> {
    seq![
        Instr::Addi("sp"@, "sp"@, -16),
        Instr::Sd("ra"@, 8, "sp"@),
        Instr::Sd("fp"@, 0, "sp"@),
        Instr::Addi("fp"@, "sp"@, 0),
        Instr::LiNeg("t0"@, frame),
        Instr::Add("sp"@, "sp"@, "t0"@),
    ]
}

/// The instructions of the epilogue of a frame of `frame` bytes.
pub open spec fn epilogue_instrs(frame: nat) -> Seq<Instr> {
    seq![
        Instr::Li("t0"@, frame as int),
        Instr::Add("sp"@, "sp"@, "t0"@),
        Instr::Ld("ra"@, 8, "sp"@),
        Instr::Ld("fp"@, 0, "sp"@),
        Instr::Addi("sp"@, "sp"@, 16),
        Instr::Ret,
    ]
}

proof fn lemma_run4(m: Machine, is: Seq<Instr>)
    requires
        is.len() == 4,
    ensures
        run(m, is) == step(step(step(step(m, is[0]), is[1]), is[2]), is[3]),
{
    reveal_with_fuel(run, 5);
    let m1 = step(m, is[0]);
    let m2 = step(m1, is[1]);
    let m3 = step(m2, is[2]);
    let m4 = step(m3, is[3]);
    assert(is.drop_first()[0] == is[1]);
    assert(is.drop_first().drop_first()[0] == is[2]);
    assert(is.drop_first().drop_first().drop_first()[0] == is[3]);
    assert(is.drop_first().drop_first().drop_first().drop_first().len() == 0);
    assert(run(m3, is.drop_first().drop_first().drop_first()) == m4);
    assert(run(m2, is.drop_first().drop_first()) == m4);
    assert(run(m1, is.drop_first()) == m4);
}

proof fn lemma_run6(m: Machine, is: Seq<Instr>)
    requires
        is.len() == 6,
    ensures
        run(m, is) == step(step(run(m, is.subrange(0, 4)), is[4]), is[5]),
{
    reveal_with_fuel(run, 3);
    let a = is.subrange(0, 4);
    let b = is.subrange(4, 6);
    lemma_run_append(m, a, b);
    assert(a + b =~= is);
    assert(b.drop_first()[0] == is[5]);
    assert(b.drop_first().drop_first().len() == 0);
}

proof fn lemma_run_append(m: Machine, a: Seq<Instr>, b: Seq<Instr>)
    ensures
        run(m, a + b) == run(run(m, a), b),
    decreases a.len(),
{
    if a.len() > 0 {
        assert((a + b).drop_first() =~= a.drop_first() + b);
        lemma_run_append(step(m, a[0]), a.drop_first(), b);
    } else {
        assert(a + b =~= b);
    }
}

/// The registers the frame code names are different registers.
proof fn lemma_registers_differ()
    ensures
        "ra"@ != "sp"@,
        "fp"@ != "sp"@,
        "t0"@ != "sp"@,
        "fp"@ != "ra"@,
        "t0"@ != "fp"@,
        "t0"@ != "ra"@,
        "t1"@ != "sp"@,
        "t1"@ != "t0"@,
        "t2"@ != "sp"@,
        "t2"@ != "t0"@,
        "t2"@ != "t1"@,
{
    reveal_strlit("t2");
    reveal_strlit("t1");
    reveal_strlit("sp");
    reveal_strlit("fp");
    reveal_strlit("ra");
    reveal_strlit("t0");
    assert("ra"@[0] != "sp"@[0]);
    assert("fp"@[0] != "sp"@[0]);
    assert("t0"@[0] != "sp"@[0]);
    assert("fp"@[0] != "ra"@[0]);
    assert("t0"@[0] != "fp"@[0]);
    assert("t0"@[0] != "ra"@[0]);
    assert("t1"@[0] != "sp"@[0]);
    assert("t1"@[1] != "t0"@[1]);
    assert("t2"@[0] != "sp"@[0]);
    assert("t2"@[1] != "t0"@[1]);
    assert("t2"@[1] != "t1"@[1]);
}

proof fn lemma_small_decimals()
    ensures
        decimal(0) == seq!['0'],
        decimal(8) == seq!['8'],
        decimal(-8) == seq!['-', '8'],
        decimal(16) == seq!['1', '6'],
        decimal(-16) == seq!['-', '1', '6'],
{
    assert(digit_char(0) == '0');
    assert(digit_char(1) == '1');
    assert(digit_char(6) == '6');
    assert(digit_char(8) == '8');
    assert(decimal_nat(16) == decimal_nat(1).push(digit_char(6)));
    assert(decimal_nat(16) =~= seq!['1', '6']);
    assert(seq!['-'] + decimal_nat(8) =~= seq!['-', '8']);
    assert(seq!['-'] + decimal_nat(16) =~= seq!['-', '1', '6']);
}

/// A push of `a` and then a pop into `b` writes the lines of the instructions
/// `push_pop_instrs(a, b)`, and running them, with neither register the stack pointer, gives `b`
/// the value of `a` and leaves the stack pointer, every other register and every word but the
/// one just below the stack pointer as they were: the pop undoes the push.
pub proof fn law_pop_after_push(st: CodegenState, a: Seq<char>, b: Seq<char>, m: Machine)
    requires
        a != "sp"@,
        b != "sp"@,
    ensures
        sp_pop(sp_push(st, a), b).out == st.out + lines_of(push_pop_instrs(a, b)),
        ({
            let m2 = run(m, push_pop_instrs(a, b));
            &&& reg(m2, b) == reg(m, a)
            &&& reg(m2, "sp"@) == reg(m, "sp"@)
            &&& forall|x: Seq<char>| x != b ==> reg(m2, x) == reg(m, x)
            &&& forall|w: int| w != reg(m, "sp"@) - 8 ==> word(m2, w) == word(m, w)
        }),
{
    reveal_strlit("    addi ");
    reveal_strlit(", ");
    reveal_strlit("sp");
    reveal_strlit("    sd ");
    reveal_strlit("    ld ");
    reveal_strlit("(");
    reveal_strlit(")");
    reveal_strlit(", 0(sp)");
    reveal_strlit("    addi sp, sp, -8");
    reveal_strlit("    addi sp, sp, 8");
    lemma_small_decimals();
    let is = push_pop_instrs(a, b);
    assert(render(is[0]) =~= "    addi sp, sp, -8"@);
    assert(render(is[1]) =~= "    sd "@ + a + ", 0(sp)"@);
    assert(render(is[2]) =~= "    ld "@ + b + ", 0(sp)"@);
    assert(render(is[3]) =~= "    addi sp, sp, 8"@);
    assert(sp_pop(sp_push(st, a), b).out =~= st.out + lines_of(is));
    lemma_run4(m, is);
    let m1 = step(m, is[0]);
    let m2 = step(m1, is[1]);
    let m3 = step(m2, is[2]);
    let m4 = step(m3, is[3]);
    assert(reg(m1, "sp"@) == reg(m, "sp"@) - 8);
    assert(reg(m2, a) == reg(m1, a));
    assert(word(m2, reg(m, "sp"@) - 8) == reg(m, a));
    assert(reg(m3, b) == reg(m, a));
    assert forall|x: Seq<char>| x != b implies reg(m4, x) == reg(m, x) by {
        if x != "sp"@ {
            assert(reg(m1, x) == reg(m, x));
            assert(reg(m3, x) == reg(m2, x));
        }
    }
    assert forall|w: int| w != reg(m, "sp"@) - 8 implies word(m4, w) == word(m, w) by {
        assert(word(m2, w) == word(m1, w));
    }
}

/// The prologue and the epilogue of a frame of `frame` bytes write the lines of the
/// instructions `prologue_instrs(frame)` and `epilogue_instrs(frame)`. Running the prologue and
/// then code that ends with the stack pointer where the prologue left it and with the two words
/// it saved untouched, the epilogue gives back the stack pointer, the frame pointer and the
/// return address the prologue found, and ends with `ret`.
pub proof fn law_epilogue_restores_frame(st: CodegenState, frame: usize, m: Machine, body_end: Machine)
    requires
        reg(body_end, "sp"@) == reg(run(m, prologue_instrs(frame as nat)), "sp"@),
        word(body_end, reg(m, "sp"@) - 16) == word(run(m, prologue_instrs(frame as nat)), reg(m, "sp"@) - 16),
        word(body_end, reg(m, "sp"@) - 8) == word(run(m, prologue_instrs(frame as nat)), reg(m, "sp"@) - 8),
    ensures
        prologue(st, frame).out == st.out + lines_of(prologue_instrs(frame as nat)),
        epilogue(st, frame).out == st.out + lines_of(epilogue_instrs(frame as nat)),
        epilogue_instrs(frame as nat).last() == Instr::Ret,
        ({
            let m2 = run(body_end, epilogue_instrs(frame as nat));
            &&& reg(m2, "sp"@) == reg(m, "sp"@)
            &&& reg(m2, "fp"@) == reg(m, "fp"@)
            &&& reg(m2, "ra"@) == reg(m, "ra"@)
        }),
{
    reveal_strlit("    addi ");
    reveal_strlit("    add ");
    reveal_strlit("    li ");
    reveal_strlit(", -");
    reveal_strlit(", ");
    reveal_strlit("sp");
    reveal_strlit("fp");
    reveal_strlit("ra");
    reveal_strlit("t0");
    reveal_strlit("    sd ");
    reveal_strlit("    ld ");
    reveal_strlit("(");
    reveal_strlit(")");
    reveal_strlit("    ret");
    reveal_strlit("    addi sp, sp, -16");
    reveal_strlit("    sd ra, 8(sp)");
    reveal_strlit("    sd fp, 0(sp)");
    reveal_strlit("    addi fp, sp, 0");
    reveal_strlit("    li t0, -");
    reveal_strlit("    add sp, sp, t0");
    reveal_strlit("    li t0, ");
    reveal_strlit("    ld ra, 8(sp)");
    reveal_strlit("    ld fp, 0(sp)");
    reveal_strlit("    addi sp, sp, 16");
    lemma_small_decimals();
    let n = frame as nat;
    let p = prologue_instrs(n);
    let e = epilogue_instrs(n);
    assert(render(p[0]) =~= "    addi sp, sp, -16"@);
    assert(render(p[1]) =~= "    sd ra, 8(sp)"@);
    assert(render(p[2]) =~= "    sd fp, 0(sp)"@);
    assert(render(p[3]) =~= "    addi fp, sp, 0"@);
    assert(render(p[4]) =~= "    li t0, -"@ + decimal_nat(n));
    assert(render(p[5]) =~= "    add sp, sp, t0"@);
    assert(prologue(st, frame).out =~= st.out + lines_of(p));
    assert(render(e[0]) =~= "    li t0, "@ + decimal_nat(n));
    assert(render(e[1]) =~= "    add sp, sp, t0"@);
    assert(render(e[2]) =~= "    ld ra, 8(sp)"@);
    assert(render(e[3]) =~= "    ld fp, 0(sp)"@);
    assert(render(e[4]) =~= "    addi sp, sp, 16"@);
    assert(render(e[5]) =~= "    ret"@);
    assert(epilogue(st, frame).out =~= st.out + lines_of(e));
    lemma_registers_differ();
    let s0 = reg(m, "sp"@);
    lemma_run6(m, p);
    lemma_run4(m, p.subrange(0, 4));
    let q = run(m, p);
    let q1 = step(m, p[0]);
    let q2 = step(q1, p[1]);
    let q3 = step(q2, p[2]);
    let q4 = step(q3, p[3]);
    assert(reg(q1, "sp"@) == s0 - 16);
    assert(word(q2, s0 - 8) == reg(m, "ra"@));
    assert(word(q3, s0 - 16) == reg(m, "fp"@));
    assert(word(q3, s0 - 8) == reg(m, "ra"@));
    assert(word(q4, s0 - 16) == reg(m, "fp"@));
    assert(word(q4, s0 - 8) == reg(m, "ra"@));
    assert(reg(q4, "sp"@) == s0 - 16);
    assert(reg(q, "sp"@) == s0 - 16 - n);
    assert(word(q, s0 - 16) == reg(m, "fp"@));
    assert(word(q, s0 - 8) == reg(m, "ra"@));
    lemma_run6(body_end, e);
    lemma_run4(body_end, e.subrange(0, 4));
    let r1 = step(body_end, e[0]);
    let r2 = step(r1, e[1]);
    let r3 = step(r2, e[2]);
    let r4 = step(r3, e[3]);
    assert(reg(r2, "sp"@) == s0 - 16);
    assert(reg(r3, "ra"@) == reg(m, "ra"@));
    assert(reg(r4, "fp"@) == reg(m, "fp"@));
    assert(reg(r4, "ra"@) == reg(m, "ra"@));
    assert(reg(r4, "sp"@) == s0 - 16);
}


/// The code of an integer constant writes the lines of loading it and pushing it, and running
/// them leaves the constant in the word the stack pointer then points at, 8 bytes lower.
pub proof fn law_integer_code_pushes_value(st: CodegenState, n: i64, ty: Type, m: Machine)
    ensures
        gen_expr_spec(st, Ast::<Lowered>::Integer(n, ty)) matches Ok(s2) && s2.out == st.out + lines_of(
            seq![Instr::Li("t0"@, n as int), Instr::Addi("sp"@, "sp"@, -8), Instr::Sd("t0"@, 0, "sp"@)],
        ),
        ({
            let m2 = run(m, seq![Instr::Li("t0"@, n as int), Instr::Addi("sp"@, "sp"@, -8), Instr::Sd("t0"@, 0, "sp"@)]);
            &&& reg(m2, "sp"@) == reg(m, "sp"@) - 8
            &&& word(m2, reg(m2, "sp"@)) == n
        }),
{
    reveal_strlit("    li ");
    reveal_strlit("    li t0, ");
    reveal_strlit("    addi ");
    reveal_strlit("    sd ");
    reveal_strlit(", ");
    reveal_strlit("sp");
    reveal_strlit("t0");
    reveal_strlit("(");
    reveal_strlit(")");
    reveal_strlit(", 0(sp)");
    reveal_strlit("    addi sp, sp, -8");
    lemma_small_decimals();
    lemma_registers_differ();
    reveal_with_fuel(run, 4);
    let is = seq![Instr::Li("t0"@, n as int), Instr::Addi("sp"@, "sp"@, -8), Instr::Sd("t0"@, 0, "sp"@)];
    assert(render(is[0]) =~= "    li t0, "@ + decimal(n as int));
    assert(render(is[1]) =~= "    addi sp, sp, -8"@);
    assert(render(is[2]) =~= "    sd "@ + "t0"@ + ", 0(sp)"@);
    let s2 = gen_expr_spec(st, Ast::<Lowered>::Integer(n, ty))->Ok_0;
    assert(s2.out =~= st.out + lines_of(is));
    let m1 = step(m, is[0]);
    let m2 = step(m1, is[1]);
    let m3 = step(m2, is[2]);
    assert(is.drop_first()[0] == is[1]);
    assert(is.drop_first().drop_first()[0] == is[2]);
    assert(is.drop_first().drop_first().drop_first().len() == 0);
    assert(run(m, is) == m3);
    assert(reg(m2, "t0"@) == n);
}


/// Whether `op` is one of the comparisons.
pub open spec fn is_comparison_op(op: Op) -> bool {
    op == Op::Eq || op == Op::NotEq || op == Op::Gt || op == Op::Gte || op == Op::Lt || op == Op::Lte
}

/// An integer expression: constants of type `int` combined at type `int` by `+`, `-`, `*` and the
/// comparisons.
pub open spec fn arith(t: Ast<Lowered>) -> bool
    decreases t,
{
    match t {
        Ast::Integer(_, ty) => ty == Type::Int,
        Ast::BinOp(op, l, r, ty) => (op == Op::Add || op == Op::Sub || op == Op::Mul || is_comparison_op(op))
            && ty == Type::Int && arith(*l) && arith(*r),
        _ => false,
    }
}

/// What `op` gives for the values `a` and `b`: a comparison is 1 when it holds, else 0.
pub open spec fn apply(op: Op, a: int, b: int) -> int {
    match op {
        Op::Add => a + b,
        Op::Sub => a - b,
        Op::Mul => a * b,
        Op::Eq => if a == b { 1 } else { 0 },
        Op::NotEq => if a != b { 1 } else { 0 },
        Op::Gt => if a > b { 1 } else { 0 },
        Op::Gte => if a >= b { 1 } else { 0 },
        Op::Lt => if a < b { 1 } else { 0 },
        Op::Lte => if a <= b { 1 } else { 0 },
        Op::Div => 0,
    }
}

/// The value of an integer expression.
pub open spec fn eval(t: Ast<Lowered>) -> int
    decreases t,
{
    match t {
        Ast::Integer(n, _) => n as int,
        Ast::BinOp(op, l, r, _) => apply(op, eval(*l), eval(*r)),
        _ => 0,
    }
}

/// The instruction that combines `t0` (left) and `t1` (right) into `t0`, for `+`, `-` and `*`.
pub open spec fn op_instr(op: Op) -> Instr {
    if op == Op::Add {
        Instr::Add("t0"@, "t1"@, "t0"@)
    } else if op == Op::Sub {
        Instr::Sub("t0"@, "t0"@, "t1"@)
    } else {
        Instr::Mul("t0"@, "t1"@, "t0"@)
    }
}

/// The instructions that combine `t0` (left) and `t1` (right) into `t0`.
pub open spec fn op_instrs(op: Op) -> Seq<Instr> {
    match op {
        Op::Eq => seq![Instr::Sub("t0"@, "t1"@, "t0"@), Instr::Seqz("t0"@, "t0"@)],
        Op::NotEq => seq![Instr::Sub("t0"@, "t1"@, "t0"@), Instr::Snez("t0"@, "t0"@)],
        Op::Gt => seq![Instr::Slt("t0"@, "t1"@, "t0"@)],
        Op::Gte => seq![Instr::Slt("t0"@, "t0"@, "t1"@), Instr::XoriOne("t0"@, "t0"@)],
        Op::Lt => seq![Instr::Slt("t0"@, "t0"@, "t1"@)],
        Op::Lte => seq![Instr::Slt("t0"@, "t1"@, "t0"@), Instr::XoriOne("t0"@, "t0"@)],
        _ => seq![op_instr(op)],
    }
}

/// The instructions of the code of an integer expression.
pub open spec fn arith_instrs(t: Ast<Lowered>) -> Seq<Instr>
    decreases t,
{
    match t {
        Ast::Integer(n, _) => seq![Instr::Li("t0"@, n as int), Instr::Addi("sp"@, "sp"@, -8), Instr::Sd("t0"@, 0, "sp"@)],
        Ast::BinOp(op, l, r, _) => arith_instrs(*l) + arith_instrs(*r) + combine_instrs(op),
        _ => seq![],
    }
}

/// Popping the right operand into `t1` and the left one into `t0`.
pub open spec fn pop_operands() -> Seq<Instr> {
    seq![
        Instr::Ld("t1"@, 0, "sp"@),
        Instr::Addi("sp"@, "sp"@, 8),
        Instr::Ld("t0"@, 0, "sp"@),
        Instr::Addi("sp"@, "sp"@, 8),
    ]
}

/// Pushing `t0`.
pub open spec fn push_result() -> Seq<Instr> {
    seq![Instr::Addi("sp"@, "sp"@, -8), Instr::Sd("t0"@, 0, "sp"@)]
}

/// Popping the right operand and the left one, combining them, and pushing the result.
pub open spec fn combine_instrs(op: Op) -> Seq<Instr> {
    pop_operands() + op_instrs(op) + push_result()
}

proof fn lemma_lines_concat(a: Seq<Instr>, b: Seq<Instr>)
    ensures
        lines_of(a + b) == lines_of(a) + lines_of(b),
{
    assert(lines_of(a + b) =~= lines_of(a) + lines_of(b));
}

proof fn lemma_combine_lines(st: CodegenState, op: Op)
    requires
        op == Op::Add || op == Op::Sub || op == Op::Mul || is_comparison_op(op),
    ensures
        crate::codegen::binop_code(sp_pop(sp_pop(st, "t1"@), "t0"@), op, Some(Type::Int), Some(Type::Int)) matches Ok(s3)
            && sp_push(s3, "t0"@).out == st.out + lines_of(combine_instrs(op)),
{
    reveal_strlit("    addi ");
    reveal_strlit("    add ");
    reveal_strlit("    sub ");
    reveal_strlit("    mul ");
    reveal_strlit("    slt ");
    reveal_strlit("    seqz ");
    reveal_strlit("    snez ");
    reveal_strlit("    xori ");
    reveal_strlit("    sd ");
    reveal_strlit("    ld ");
    reveal_strlit(", ");
    reveal_strlit(", 1");
    reveal_strlit("sp");
    reveal_strlit("t0");
    reveal_strlit("t1");
    reveal_strlit("(");
    reveal_strlit(")");
    reveal_strlit(", 0(sp)");
    reveal_strlit("    addi sp, sp, -8");
    reveal_strlit("    addi sp, sp, 8");
    reveal_strlit("    add t0, t1, t0");
    reveal_strlit("    sub t0, t0, t1");
    reveal_strlit("    mul t0, t1, t0");
    reveal_strlit("    sub t0, t1, t0");
    reveal_strlit("    seqz t0, t0");
    reveal_strlit("    snez t0, t0");
    reveal_strlit("    slt t0, t1, t0");
    reveal_strlit("    slt t0, t0, t1");
    reveal_strlit("    xori t0, t0, 1");
    lemma_small_decimals();
    let p = pop_operands();
    let o = op_instrs(op);
    let q = push_result();
    assert(render(p[0]) =~= "    ld "@ + "t1"@ + ", 0(sp)"@);
    assert(render(p[1]) =~= "    addi sp, sp, 8"@);
    assert(render(p[2]) =~= "    ld "@ + "t0"@ + ", 0(sp)"@);
    assert(render(p[3]) =~= "    addi sp, sp, 8"@);
    assert(render(q[0]) =~= "    addi sp, sp, -8"@);
    assert(render(q[1]) =~= "    sd "@ + "t0"@ + ", 0(sp)"@);
    let b = sp_pop(sp_pop(st, "t1"@), "t0"@);
    assert(b.out =~= st.out + lines_of(p));
    let ol: Seq<Seq<char>> = match op {
        Op::Add => seq!["    add t0, t1, t0"@],
        Op::Sub => seq!["    sub t0, t0, t1"@],
        Op::Mul => seq!["    mul t0, t1, t0"@],
        Op::Eq => seq!["    sub t0, t1, t0"@, "    seqz t0, t0"@],
        Op::NotEq => seq!["    sub t0, t1, t0"@, "    snez t0, t0"@],
        Op::Gt => seq!["    slt t0, t1, t0"@],
        Op::Gte => seq!["    slt t0, t0, t1"@, "    xori t0, t0, 1"@],
        Op::Lt => seq!["    slt t0, t0, t1"@],
        Op::Lte => seq!["    slt t0, t1, t0"@, "    xori t0, t0, 1"@],
        Op::Div => seq![],
    };
    assert(render(o[0]) =~= ol[0]);
    if o.len() == 2 {
        assert(render(o[1]) =~= ol[1]);
    }
    assert(lines_of(o) =~= ol);
    let s3 = crate::codegen::binop_code(b, op, Some(Type::Int), Some(Type::Int))->Ok_0;
    assert(s3.out =~= b.out + ol);
    lemma_lines_concat(p, o);
    lemma_lines_concat(p + o, q);
    assert(sp_push(s3, "t0"@).out =~= st.out + lines_of(combine_instrs(op)));
}

/// Popping the two operands.
proof fn lemma_run_pop_operands(m: Machine)
    ensures
        ({
            let sp = reg(m, "sp"@);
            let m2 = run(m, pop_operands());
            &&& reg(m2, "sp"@) == sp + 16
            &&& reg(m2, "t1"@) == word(m, sp)
            &&& reg(m2, "t0"@) == word(m, sp + 8)
            &&& m2.mem == m.mem
        }),
{
    lemma_registers_differ();
    let p = pop_operands();
    lemma_run4(m, p);
}

/// Combining `t0` and `t1` into `t0`.
proof fn lemma_run_op(m: Machine, op: Op)
    requires
        op == Op::Add || op == Op::Sub || op == Op::Mul || is_comparison_op(op),
    ensures
        ({
            let m2 = run(m, op_instrs(op));
            &&& reg(m2, "t0"@) == apply(op, reg(m, "t0"@), reg(m, "t1"@))
            &&& reg(m2, "sp"@) == reg(m, "sp"@)
            &&& m2.mem == m.mem
        }),
{
    reveal_with_fuel(run, 3);
    lemma_registers_differ();
    let o = op_instrs(op);
    let a = reg(m, "t0"@);
    let b = reg(m, "t1"@);
    if o.len() == 1 {
        assert(o.drop_first().len() == 0);
        assert(run(m, o) == step(m, o[0]));
        assert(b * a == a * b) by (nonlinear_arith);
    } else {
        assert(o.drop_first() =~= seq![o[1]]);
        assert(seq![o[1]].drop_first().len() == 0);
        assert(run(m, o) == step(step(m, o[0]), o[1]));
        let m1 = step(m, o[0]);
        let v = reg(m1, "t0"@);
        if op == Op::Gte || op == Op::Lte {
            assert(v == 0 || v == 1);
            assert(v / 2 * 2 + (1 - v % 2) == 1 - v);
        }
    }
}

/// Pushing `t0`.
proof fn lemma_run_push_result(m: Machine)
    ensures
        ({
            let sp = reg(m, "sp"@);
            let m2 = run(m, push_result());
            &&& reg(m2, "sp"@) == sp - 8
            &&& word(m2, sp - 8) == reg(m, "t0"@)
            &&& forall|w: int| w != sp - 8 ==> word(m2, w) == word(m, w)
        }),
{
    reveal_with_fuel(run, 3);
    lemma_registers_differ();
    let q = push_result();
    assert(q.drop_first() =~= seq![q[1]]);
    assert(seq![q[1]].drop_first().len() == 0);
    assert(run(m, q) == step(step(m, q[0]), q[1]));
}

proof fn lemma_run_combine(m: Machine, op: Op)
    requires
        op == Op::Add || op == Op::Sub || op == Op::Mul || is_comparison_op(op),
    ensures
        ({
            let sp = reg(m, "sp"@);
            let m2 = run(m, combine_instrs(op));
            &&& reg(m2, "sp"@) == sp + 8
            &&& word(m2, sp + 8) == apply(op, word(m, sp + 8), word(m, sp))
            &&& forall|w: int| w != sp + 8 ==> word(m2, w) == word(m, w)
        }),
{
    let p = pop_operands();
    let o = op_instrs(op);
    let q = push_result();
    lemma_run_append(m, p + o, q);
    lemma_run_append(m, p, o);
    lemma_run_pop_operands(m);
    let m1 = run(m, p);
    lemma_run_op(m1, op);
    let m2 = run(m1, o);
    lemma_run_push_result(m2);
}

proof fn lemma_arith_typed(t: Ast<Lowered>)
    requires
        arith(t),
    ensures
        crate::codegen::lowered_ty(t) == Some(Type::Int),
{
}

#[verifier::spinoff_prover]
#[verifier::rlimit(60)]
proof fn lemma_arith(st: CodegenState, t: Ast<Lowered>, m: Machine)
    requires
        arith(t),
    ensures
        gen_expr_spec(st, t) matches Ok(s2) && s2.out == st.out + lines_of(arith_instrs(t)),
        ({
            let m2 = run(m, arith_instrs(t));
            &&& reg(m2, "sp"@) == reg(m, "sp"@) - 8
            &&& word(m2, reg(m, "sp"@) - 8) == eval(t)
            &&& forall|w: int| w >= reg(m, "sp"@) ==> word(m2, w) == word(m, w)
        }),
    decreases t,
{
    match t {
        Ast::Integer(n, ty) => {
            law_integer_code_pushes_value(st, n, ty, m);
            reveal_with_fuel(run, 4);
            let is = arith_instrs(t);
            let m1 = step(m, is[0]);
            let m2 = step(m1, is[1]);
            let m3 = step(m2, is[2]);
            assert(is.drop_first()[0] == is[1]);
            assert(is.drop_first().drop_first()[0] == is[2]);
            assert(is.drop_first().drop_first().drop_first().len() == 0);
            assert(run(m, is) == m3);
        },
        Ast::BinOp(op, l, r, _) => {
            lemma_arith(st, *l, m);
            let s1 = gen_expr_spec(st, *l)->Ok_0;
            let ml = run(m, arith_instrs(*l));
            lemma_arith(s1, *r, ml);
            let s2 = gen_expr_spec(s1, *r)->Ok_0;
            let mr = run(ml, arith_instrs(*r));
            lemma_combine_lines(s2, op);
            let s3 = crate::codegen::binop_code(sp_pop(sp_pop(s2, "t1"@), "t0"@), op, Some(Type::Int), Some(Type::Int))->Ok_0;
            lemma_arith_typed(*l);
            lemma_arith_typed(*r);
            assert(gen_expr_spec(st, t) == Ok::<CodegenState, crate::codegen::CodegenFault>(sp_push(s3, "t0"@)));
            let li = lines_of(arith_instrs(*l));
            let lr = lines_of(arith_instrs(*r));
            let lc = lines_of(combine_instrs(op));
            lemma_lines_concat(arith_instrs(*l) + arith_instrs(*r), combine_instrs(op));
            lemma_lines_concat(arith_instrs(*l), arith_instrs(*r));
            assert(lines_of(arith_instrs(t)) == li + lr + lc);
            assert(sp_push(s3, "t0"@).out =~= st.out + lines_of(arith_instrs(t)));
            lemma_run_append(m, arith_instrs(*l) + arith_instrs(*r), combine_instrs(op));
            lemma_run_append(m, arith_instrs(*l), arith_instrs(*r));
            lemma_run_combine(mr, op);
            let sp = reg(m, "sp"@);
            assert(reg(mr, "sp"@) == sp - 16);
            assert(word(mr, sp - 8) == eval(*l));
            assert(word(mr, sp - 16) == eval(*r));
        },
        _ => {},
    }
}

/// The code of an integer expression (constants combined at type `int` by `+`, `-`, `*` and the
/// comparisons `==`, `!=`, `>`, `>=`, `<`, `<=`) writes the lines of the instructions
/// `arith_instrs(t)`, and running them pushes the value of the expression: the stack pointer goes
/// 8 bytes down, the word it then points at holds the value (a comparison gives 1 when it holds
/// and 0 when it does not), and the words at and above the stack pointer it started from are left
/// as they were.
pub proof fn law_arith_code_pushes_value(st: CodegenState, t: Ast<Lowered>, m: Machine)
    requires
        arith(t),
    ensures
        gen_expr_spec(st, t) matches Ok(s2) && s2.out == st.out + lines_of(arith_instrs(t)),
        ({
            let m2 = run(m, arith_instrs(t));
            &&& reg(m2, "sp"@) == reg(m, "sp"@) - 8
            &&& word(m2, reg(m2, "sp"@)) == eval(t)
            &&& forall|w: int| w >= reg(m, "sp"@) ==> word(m2, w) == word(m, w)
        }),
{
    lemma_arith(st, t, m);
}

/// The code that combines two pushed integers by an operator, run on any machine, pops them and
/// pushes what the operator gives for them: for `l op r` with `l` pushed first, a comparison
/// leaves 1 exactly when it holds of `l` and `r`, and 0 otherwise.
pub proof fn law_binop_code_runs(st: CodegenState, op: Op, m: Machine)
    requires
        op == Op::Add || op == Op::Sub || op == Op::Mul || is_comparison_op(op),
    ensures
        crate::codegen::binop_code(sp_pop(sp_pop(st, "t1"@), "t0"@), op, Some(Type::Int), Some(Type::Int)) matches Ok(s3)
            && sp_push(s3, "t0"@).out == st.out + lines_of(combine_instrs(op)),
        ({
            let sp = reg(m, "sp"@);
            let m2 = run(m, combine_instrs(op));
            &&& reg(m2, "sp"@) == sp + 8
            &&& word(m2, sp + 8) == apply(op, word(m, sp + 8), word(m, sp))
            &&& forall|w: int| w != sp + 8 ==> word(m2, w) == word(m, w)
        }),
{
    lemma_combine_lines(st, op);
    lemma_run_combine(m, op);
}


/// How pointer arithmetic combines `t0` (left) and `t1` (right) when one side is a pointer to
/// values of `n` bytes: the `int` side is scaled by `n` first.
pub open spec fn pointer_op_instrs(op: Op, left_is_pointer: bool, n: nat) -> Seq<Instr> {
    if op == Op::Add && left_is_pointer {
        seq![Instr::Li("t2"@, n as int), Instr::Mul("t1"@, "t1"@, "t2"@), Instr::Add("t0"@, "t0"@, "t1"@)]
    } else if op == Op::Add {
        seq![Instr::Li("t2"@, n as int), Instr::Mul("t0"@, "t0"@, "t2"@), Instr::Add("t0"@, "t1"@, "t0"@)]
    } else {
        seq![Instr::Li("t2"@, n as int), Instr::Mul("t1"@, "t1"@, "t2"@), Instr::Sub("t0"@, "t0"@, "t1"@)]
    }
}

/// What pointer arithmetic gives: a pointer moved by an `int` number of values of `n` bytes.
pub open spec fn pointer_apply(op: Op, left_is_pointer: bool, n: nat, a: int, b: int) -> int {
    if op == Op::Add && left_is_pointer {
        a + b * n
    } else if op == Op::Add {
        b + a * n
    } else {
        a - b * n
    }
}

/// The code of `p + i`, `i + p` and `p - i`, for a pointer `p` to values of a type `inner` of `n`
/// bytes and an `int` `i`, pops the two operands, and pushes the pointer moved by `i` values:
/// `p + i * n`, or `p - i * n`.
pub proof fn law_pointer_arith_runs(st: CodegenState, op: Op, left_is_pointer: bool, inner: Type, m: Machine)
    requires
        op == Op::Add || (op == Op::Sub && left_is_pointer),
        inner.size_fits(),
    ensures
        ({
            let n = inner.spec_size();
            let lt = if left_is_pointer { Type::Ptr(Box::new(inner)) } else { Type::Int };
            let rt = if left_is_pointer { Type::Int } else { Type::Ptr(Box::new(inner)) };
            let is = pop_operands() + pointer_op_instrs(op, left_is_pointer, n) + push_result();
            let sp = reg(m, "sp"@);
            let m2 = run(m, is);
            &&& crate::codegen::binop_code(sp_pop(sp_pop(st, "t1"@), "t0"@), op, Some(lt), Some(rt)) matches Ok(s3)
                && sp_push(s3, "t0"@).out == st.out + lines_of(is)
            &&& reg(m2, "sp"@) == sp + 8
            &&& word(m2, sp + 8) == pointer_apply(op, left_is_pointer, n, word(m, sp + 8), word(m, sp))
            &&& forall|w: int| w != sp + 8 ==> word(m2, w) == word(m, w)
        }),
{
    reveal_strlit("    addi ");
    reveal_strlit("    add ");
    reveal_strlit("    sub ");
    reveal_strlit("    mul ");
    reveal_strlit("    li ");
    reveal_strlit("    li t2, ");
    reveal_strlit("    sd ");
    reveal_strlit("    ld ");
    reveal_strlit(", ");
    reveal_strlit(", t2");
    reveal_strlit("sp");
    reveal_strlit("t0");
    reveal_strlit("t1");
    reveal_strlit("t2");
    reveal_strlit("(");
    reveal_strlit(")");
    reveal_strlit(", 0(sp)");
    reveal_strlit("    addi sp, sp, -8");
    reveal_strlit("    addi sp, sp, 8");
    reveal_strlit("    add t0, t1, t0");
    reveal_strlit("    add t0, t0, t1");
    reveal_strlit("    sub t0, t0, t1");
    lemma_small_decimals();
    lemma_registers_differ();
    let n = inner.spec_size();
    let lt = if left_is_pointer { Type::Ptr(Box::new(inner)) } else { Type::Int };
    let rt = if left_is_pointer { Type::Int } else { Type::Ptr(Box::new(inner)) };
    let p = pop_operands();
    let o = pointer_op_instrs(op, left_is_pointer, n);
    let q = push_result();
    let is = p + o + q;
    // The lines.
    assert(render(p[0]) =~= "    ld "@ + "t1"@ + ", 0(sp)"@);
    assert(render(p[1]) =~= "    addi sp, sp, 8"@);
    assert(render(p[2]) =~= "    ld "@ + "t0"@ + ", 0(sp)"@);
    assert(render(p[3]) =~= "    addi sp, sp, 8"@);
    assert(render(q[0]) =~= "    addi sp, sp, -8"@);
    assert(render(q[1]) =~= "    sd "@ + "t0"@ + ", 0(sp)"@);
    let b = sp_pop(sp_pop(st, "t1"@), "t0"@);
    assert(b.out =~= st.out + lines_of(p));
    let reg_scaled = if op == Op::Add && !left_is_pointer { "t0"@ } else { "t1"@ };
    let last = if op == Op::Add && left_is_pointer {
        "    add t0, t0, t1"@
    } else if op == Op::Add {
        "    add t0, t1, t0"@
    } else {
        "    sub t0, t0, t1"@
    };
    assert(render(o[0]) =~= "    li t2, "@ + decimal_nat(n));
    assert(render(o[1]) =~= "    mul "@ + reg_scaled + ", "@ + reg_scaled + ", t2"@);
    assert(render(o[2]) =~= last);
    let ol = seq!["    li t2, "@ + decimal_nat(n), "    mul "@ + reg_scaled + ", "@ + reg_scaled + ", t2"@, last];
    assert(lines_of(o) =~= ol);
    let s3 = crate::codegen::binop_code(b, op, Some(lt), Some(rt))->Ok_0;
    assert(s3.out =~= b.out + ol);
    lemma_lines_concat(p, o);
    lemma_lines_concat(p + o, q);
    assert(sp_push(s3, "t0"@).out =~= st.out + lines_of(is));
    // The run.
    lemma_run_append(m, p + o, q);
    lemma_run_append(m, p, o);
    lemma_run_pop_operands(m);
    let m1 = run(m, p);
    reveal_with_fuel(run, 4);
    assert(o.drop_first() =~= seq![o[1], o[2]]);
    assert(seq![o[1], o[2]].drop_first() =~= seq![o[2]]);
    assert(seq![o[2]].drop_first().len() == 0);
    let r1 = step(m1, o[0]);
    let r2 = step(r1, o[1]);
    let r3 = step(r2, o[2]);
    assert(run(m1, o) == r3);
    assert(reg(r1, "t2"@) == n);
    assert(reg(r3, "sp"@) == reg(m1, "sp"@));
    assert(r3.mem == m1.mem);
    let x = word(m, reg(m, "sp"@) + 8);
    let y = word(m, reg(m, "sp"@));
    assert(reg(m1, "t0"@) == x);
    assert(reg(m1, "t1"@) == y);
    assert(reg(r3, "t0"@) == pointer_apply(op, left_is_pointer, n, x, y));
    lemma_run_push_result(r3);
}

} // verus!
