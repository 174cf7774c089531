//! Lowering: typed trees to lowered trees, indexing rewritten as pointer arithmetic.
use vstd::prelude::*;
use crate::parser::{Tree, Ast, Typed, Lowered, Op, ast, asts, opt_ast, lemma_asts, lemma_asts_push};
use crate::types::{Type, ty_of};
use crate::codegen::lowered_ty;

verus! {

/// The lowered form of a typed tree: the same tree, with every indexing `a[i]` written
/// `*(a + i)`; the type annotated on the indexing is given to both the sum and the dereference.
pub open spec fn spec_lower(t: Ast<Typed>) -> Ast<Lowered>
    decreases t,
{
    match t {
        Ast::Program(ts) => Ast::Program(spec_lower_seq(ts)),
        Ast::BinOp(op, l, r, ty) => Ast::BinOp(op, Box::new(spec_lower(*l)), Box::new(spec_lower(*r)), ty),
        Ast::Assign(l, r, ty) => Ast::Assign(Box::new(spec_lower(*l)), Box::new(spec_lower(*r)), ty),
        Ast::Block(ts) => Ast::Block(spec_lower_seq(ts)),
        Ast::FuncDef(ty, name, params, body) => Ast::FuncDef(ty, name, params, Box::new(spec_lower(*body))),
        Ast::If(c, a, b) => Ast::If(Box::new(spec_lower(*c)), Box::new(spec_lower(*a)), spec_lower_opt(b)),
        Ast::While(c, b) => Ast::While(Box::new(spec_lower(*c)), Box::new(spec_lower(*b))),
        Ast::For(i, c, u, b) => Ast::For(
            spec_lower_opt(i),
            spec_lower_opt(c),
            spec_lower_opt(u),
            Box::new(spec_lower(*b)),
        ),
        Ast::Integer(n, ty) => Ast::Integer(n, ty),
        Ast::String(s, ty) => Ast::String(s, ty),
        Ast::Var(name, ty) => Ast::Var(name, ty),
        Ast::Indexed(l, r, ty) => Ast::Deref(
            Box::new(
                Ast::BinOp(Op::Add, Box::new(spec_lower(*l)), Box::new(spec_lower(*r)), ty),
            ),
            ty,
        ),
        Ast::VarDeclare(ty, name) => Ast::VarDeclare(ty, name),
        Ast::Addr(e, ty) => Ast::Addr(Box::new(spec_lower(*e)), ty),
        Ast::Deref(e, ty) => Ast::Deref(Box::new(spec_lower(*e)), ty),
        Ast::Sizeof(e) => Ast::Sizeof(Box::new(spec_lower(*e))),
        Ast::Call(name, args, ty) => Ast::Call(name, spec_lower_seq(args), ty),
        Ast::Return(e, ty) => Ast::Return(Box::new(spec_lower(*e)), ty),
    }
}

pub open spec fn spec_lower_opt(o: Option<Box<Ast<Typed>>>) -> Option<Box<Ast<Lowered>>>
    decreases o,
{
    match o {
        Some(b) => Some(Box::new(spec_lower(*b))),
        None => None,
    }
}

pub open spec fn spec_lower_seq(s: Seq<Ast<Typed>>) -> Seq<Ast<Lowered>>
    decreases s,
{
    if s.len() == 0 {
        seq![]
    } else {
        seq![spec_lower(s[0])] + spec_lower_seq(s.drop_first())
    }
}

pub proof fn lemma_lower_seq(s: Seq<Ast<Typed>>)
    ensures
        spec_lower_seq(s).len() == s.len(),
        forall|k: int| 0 <= k < s.len() ==> #[trigger] spec_lower_seq(s)[k] == spec_lower(s[k]),
    decreases s.len(),
{
    if s.len() > 0 {
        lemma_lower_seq(s.drop_first());
        assert forall|k: int| 0 <= k < s.len() implies #[trigger] spec_lower_seq(s)[k] == spec_lower(s[k]) by {
            if k > 0 {
                assert(s.drop_first()[k - 1] == s[k]);
            }
        }
    }
}

fn lower_vec(v: &Vec<Tree<Typed>>) -> (r: Vec<Tree<Lowered>>)
    ensures
        asts(r@) == spec_lower_seq(asts(v@)),
    decreases v, 1int,
{
    proof {
        lemma_asts(v@);
        lemma_lower_seq(asts(v@));
    }
    let mut out: Vec<Tree<Lowered>> = Vec::new();
    let mut k: usize = 0;
    proof {
        lemma_asts(out@);
    }
    while k < v.len()
        invariant
            k <= v@.len(),
            asts(v@).len() == v@.len(),
            forall|j: int| 0 <= j < v@.len() ==> #[trigger] asts(v@)[j] == ast(v@[j]),
            spec_lower_seq(asts(v@)).len() == v@.len(),
            forall|j: int| 0 <= j < v@.len() ==> #[trigger] spec_lower_seq(asts(v@))[j] == spec_lower(asts(v@)[j]),
            asts(out@) == spec_lower_seq(asts(v@)).take(k as int),
        decreases v@.len() - k,
    {
        assert(decreases_to!(v => v@[k as int]));
        let t = lower_ref(&v[k]);
        proof {
            lemma_asts_push(out@, t);
        }
        out.push(t);
        assert(spec_lower_seq(asts(v@)).take(k + 1) =~= spec_lower_seq(asts(v@)).take(k as int).push(
            spec_lower(asts(v@)[k as int]),
        ));
        k = k + 1;
    }
    assert(spec_lower_seq(asts(v@)).take(k as int) =~= spec_lower_seq(asts(v@)));
    out
}

fn lower_opt(o: &Option<Box<Tree<Typed>>>) -> (r: Option<Box<Tree<Lowered>>>)
    ensures
        opt_ast(r) == spec_lower_opt(opt_ast(*o)),
    decreases o, 1int,
{
    match o {
        Some(b) => {
            let x = lower_ref(&**b);
            let r = Some(Box::new(x));
            assert(opt_ast(r) == Some(Box::new(ast(x))));
            r
        },
        None => {
            assert(opt_ast::<Lowered>(None) == None::<Box<Ast<Lowered>>>);
            None
        },
    }
}

fn lower_ref(tree: &Tree<Typed>) -> (r: Tree<Lowered>)
    ensures
        ast(r) == spec_lower(ast(*tree)),
    decreases tree, 0int,
{
    match tree {
        Tree::Program(trees) => Tree::Program(lower_vec(trees)),
        Tree::BinOp(op, l, r, ty) => Tree::BinOp(*op, Box::new(lower_ref(&**l)), Box::new(lower_ref(&**r)), ty.clone()),
        Tree::Assign(l, r, ty) => Tree::Assign(Box::new(lower_ref(&**l)), Box::new(lower_ref(&**r)), ty.clone()),
        Tree::Block(stmts) => Tree::Block(lower_vec(stmts)),
        Tree::FuncDef(ty, name, params, body) => {
            let mut ps: Vec<(crate::types::Type, String)> = Vec::new();
            let mut j: usize = 0;
            while j < params.len()
                invariant
                    j <= params@.len(),
                    crate::parser::params_view(ps@) == crate::parser::params_view(params@).take(j as int),
                decreases params@.len() - j,
            {
                let ghost before = ps@;
                ps.push((params[j].0.clone(), params[j].1.clone()));
                assert(crate::parser::params_view(ps@) =~= crate::parser::params_view(before).push((params@[j as int].0, params@[j as int].1@)));
                assert(crate::parser::params_view(params@).take(j + 1) =~= crate::parser::params_view(params@).take(j as int).push((params@[j as int].0, params@[j as int].1@)));
                j = j + 1;
            }
            assert(crate::parser::params_view(params@).take(j as int) =~= crate::parser::params_view(params@));
            Tree::FuncDef(ty.clone(), name.clone(), ps, Box::new(lower_ref(&**body)))
        },
        Tree::If(c, a, b) => Tree::If(Box::new(lower_ref(&**c)), Box::new(lower_ref(&**a)), lower_opt(b)),
        Tree::While(c, b) => Tree::While(Box::new(lower_ref(&**c)), Box::new(lower_ref(&**b))),
        Tree::For(i, c, u, b) => Tree::For(lower_opt(i), lower_opt(c), lower_opt(u), Box::new(lower_ref(&**b))),
        Tree::Integer(n, ty) => Tree::Integer(*n, ty.clone()),
        Tree::String(s, ty) => Tree::String(s.clone(), ty.clone()),
        Tree::Var(name, ty) => Tree::Var(name.clone(), ty.clone()),
        Tree::Indexed(l, r, ty) => {
            let left = lower_ref(&**l);
            let right = lower_ref(&**r);
            let sum = Tree::BinOp(Op::Add, Box::new(left), Box::new(right), ty.clone());
            assert(ast(sum) == Ast::<Lowered>::BinOp(Op::Add, Box::new(ast(left)), Box::new(ast(right)), *ty));
            Tree::Deref(Box::new(sum), ty.clone())
        },
        Tree::VarDeclare(ty, name) => Tree::VarDeclare(ty.clone(), name.clone()),
        Tree::Addr(e, ty) => Tree::Addr(Box::new(lower_ref(&**e)), ty.clone()),
        Tree::Deref(e, ty) => Tree::Deref(Box::new(lower_ref(&**e)), ty.clone()),
        Tree::Sizeof(e) => Tree::Sizeof(Box::new(lower_ref(&**e))),
        Tree::Call(name, args, ty) => Tree::Call(name.clone(), lower_vec(args), ty.clone()),
        Tree::Return(e, ty) => Tree::Return(Box::new(lower_ref(&**e)), ty.clone()),
    }
}

/// Lowers a typed tree: every indexing `a[i]` becomes `*(a + i)`.
pub fn lower(tree: Tree<Typed>) -> (r: Tree<Lowered>)
    ensures
        ast(r) == spec_lower(ast(tree)),
{
    lower_ref(&tree)
}


/// No node of the tree is an indexing.
pub open spec fn indexing_free(t: Ast<Lowered>) -> bool
    decreases t,
{
    match t {
        Ast::Program(ts) => indexing_free_seq(ts),
        Ast::Block(ts) => indexing_free_seq(ts),
        Ast::Call(_, ts, _) => indexing_free_seq(ts),
        Ast::BinOp(_, l, r, _) => indexing_free(*l) && indexing_free(*r),
        Ast::Assign(l, r, _) => indexing_free(*l) && indexing_free(*r),
        Ast::FuncDef(_, _, _, b) => indexing_free(*b),
        Ast::If(c, a, b) => indexing_free(*c) && indexing_free(*a) && indexing_free_opt(b),
        Ast::While(c, b) => indexing_free(*c) && indexing_free(*b),
        Ast::For(i, c, u, b) => indexing_free_opt(i) && indexing_free_opt(c) && indexing_free_opt(u)
            && indexing_free(*b),
        Ast::Addr(e, _) => indexing_free(*e),
        Ast::Deref(e, _) => indexing_free(*e),
        Ast::Sizeof(e) => indexing_free(*e),
        Ast::Return(e, _) => indexing_free(*e),
        Ast::Indexed(..) => false,
        _ => true,
    }
}

pub open spec fn indexing_free_opt(o: Option<Box<Ast<Lowered>>>) -> bool
    decreases o,
{
    match o {
        Some(b) => indexing_free(*b),
        None => true,
    }
}

pub open spec fn indexing_free_seq(s: Seq<Ast<Lowered>>) -> bool
    decreases s,
{
    s.len() == 0 || (indexing_free(s[0]) && indexing_free_seq(s.drop_first()))
}

/// Lowering leaves no indexing anywhere in the tree.
pub proof fn law_lower_removes_indexing(t: Ast<Typed>)
    ensures
        indexing_free(spec_lower(t)),
    decreases t,
{
    match t {
        Ast::Program(ts) => {
            lemma_lower_seq_indexing_free(ts);
        },
        Ast::Block(ts) => {
            lemma_lower_seq_indexing_free(ts);
        },
        Ast::Call(name, ts, ty) => {
            lemma_lower_seq_indexing_free(ts);
        },
        Ast::BinOp(_, l, r, _) => {
            law_lower_removes_indexing(*l);
            law_lower_removes_indexing(*r);
        },
        Ast::Assign(l, r, _) => {
            law_lower_removes_indexing(*l);
            law_lower_removes_indexing(*r);
        },
        Ast::Indexed(l, r, ty) => {
            law_lower_removes_indexing(*l);
            law_lower_removes_indexing(*r);
            assert(indexing_free(
                Ast::<Lowered>::BinOp(Op::Add, Box::new(spec_lower(*l)), Box::new(spec_lower(*r)), ty),
            ));
        },
        Ast::FuncDef(_, _, _, b) => law_lower_removes_indexing(*b),
        Ast::If(c, a, b) => {
            law_lower_removes_indexing(*c);
            law_lower_removes_indexing(*a);
            lemma_lower_opt_indexing_free(b);
        },
        Ast::While(c, b) => {
            law_lower_removes_indexing(*c);
            law_lower_removes_indexing(*b);
        },
        Ast::For(i, c, u, b) => {
            lemma_lower_opt_indexing_free(i);
            lemma_lower_opt_indexing_free(c);
            lemma_lower_opt_indexing_free(u);
            law_lower_removes_indexing(*b);
        },
        Ast::Addr(e, _) => law_lower_removes_indexing(*e),
        Ast::Deref(e, _) => law_lower_removes_indexing(*e),
        Ast::Sizeof(e) => law_lower_removes_indexing(*e),
        Ast::Return(e, _) => law_lower_removes_indexing(*e),
        _ => {},
    }
}

proof fn lemma_lower_opt_indexing_free(o: Option<Box<Ast<Typed>>>)
    ensures
        indexing_free_opt(spec_lower_opt(o)),
    decreases o,
{
    match o {
        Some(b) => law_lower_removes_indexing(*b),
        None => {},
    }
}

proof fn lemma_lower_seq_indexing_free(s: Seq<Ast<Typed>>)
    ensures
        indexing_free_seq(spec_lower_seq(s)),
    decreases s,
{
    if s.len() > 0 {
        law_lower_removes_indexing(s[0]);
        lemma_lower_seq_indexing_free(s.drop_first());
        let l = spec_lower_seq(s);
        assert(l[0] == spec_lower(s[0]));
        assert(l.drop_first() =~= spec_lower_seq(s.drop_first()));
    }
}

/// Lowering keeps the type of every expression, and keeps statements without one.
pub proof fn law_lower_keeps_type(t: Ast<Typed>)
    ensures
        lowered_ty(spec_lower(t)) == ty_of(t),
{
}


/// The same tree read as a lowered tree: every node, child and annotation kept in its place,
/// indexing included.
pub open spec fn as_lowered(t: Ast<Typed>) -> Ast<Lowered>
    decreases t,
{
    match t {
        Ast::Program(ts) => Ast::Program(as_lowered_seq(ts)),
        Ast::BinOp(op, l, r, ty) => Ast::BinOp(op, Box::new(as_lowered(*l)), Box::new(as_lowered(*r)), ty),
        Ast::Assign(l, r, ty) => Ast::Assign(Box::new(as_lowered(*l)), Box::new(as_lowered(*r)), ty),
        Ast::Block(ts) => Ast::Block(as_lowered_seq(ts)),
        Ast::FuncDef(ty, name, params, body) => Ast::FuncDef(ty, name, params, Box::new(as_lowered(*body))),
        Ast::If(c, a, b) => Ast::If(Box::new(as_lowered(*c)), Box::new(as_lowered(*a)), as_lowered_opt(b)),
        Ast::While(c, b) => Ast::While(Box::new(as_lowered(*c)), Box::new(as_lowered(*b))),
        Ast::For(i, c, u, b) => Ast::For(as_lowered_opt(i), as_lowered_opt(c), as_lowered_opt(u), Box::new(as_lowered(*b))),
        Ast::Integer(n, ty) => Ast::Integer(n, ty),
        Ast::String(x, ty) => Ast::String(x, ty),
        Ast::Var(name, ty) => Ast::Var(name, ty),
        Ast::Indexed(l, r, ty) => Ast::Indexed(Box::new(as_lowered(*l)), Box::new(as_lowered(*r)), ty),
        Ast::VarDeclare(ty, name) => Ast::VarDeclare(ty, name),
        Ast::Addr(e, ty) => Ast::Addr(Box::new(as_lowered(*e)), ty),
        Ast::Deref(e, ty) => Ast::Deref(Box::new(as_lowered(*e)), ty),
        Ast::Sizeof(e) => Ast::Sizeof(Box::new(as_lowered(*e))),
        Ast::Call(name, args, ty) => Ast::Call(name, as_lowered_seq(args), ty),
        Ast::Return(e, ty) => Ast::Return(Box::new(as_lowered(*e)), ty),
    }
}

pub open spec fn as_lowered_opt(o: Option<Box<Ast<Typed>>>) -> Option<Box<Ast<Lowered>>>
    decreases o,
{
    match o {
        Some(b) => Some(Box::new(as_lowered(*b))),
        None => None,
    }
}

pub open spec fn as_lowered_seq(s: Seq<Ast<Typed>>) -> Seq<Ast<Lowered>>
    decreases s,
{
    if s.len() == 0 {
        seq![]
    } else {
        seq![as_lowered(s[0])] + as_lowered_seq(s.drop_first())
    }
}

/// Lowering changes nothing but indexing: a tree with no indexing anywhere is lowered to itself,
/// each child in its place.
pub proof fn law_lower_keeps_indexing_free(t: Ast<Typed>)
    requires
        indexing_free(as_lowered(t)),
    ensures
        spec_lower(t) == as_lowered(t),
    decreases t,
{
    match t {
        Ast::Program(ts) => {
            lemma_lower_seq_keeps(ts);
            assert(spec_lower(t) == Ast::<Lowered>::Program(spec_lower_seq(ts)));
            assert(spec_lower(t) == as_lowered(t));
        },
        Ast::Block(ts) => {
            lemma_lower_seq_keeps(ts);
            assert(spec_lower(t) == as_lowered(t));
        },
        Ast::Call(_, ts, _) => {
            lemma_lower_seq_keeps(ts);
            assert(spec_lower(t) == as_lowered(t));
        },
        Ast::Integer(..) | Ast::String(..) | Ast::Var(..) | Ast::VarDeclare(..) => {},
        Ast::Indexed(..) => {},
        Ast::BinOp(_, l, r, _) => {
            law_lower_keeps_indexing_free(*l);
            law_lower_keeps_indexing_free(*r);
        },
        Ast::Assign(l, r, _) => {
            law_lower_keeps_indexing_free(*l);
            law_lower_keeps_indexing_free(*r);
        },
        Ast::FuncDef(_, _, _, b) => {
            law_lower_keeps_indexing_free(*b);
            assert(spec_lower(t) == as_lowered(t));
        },
        Ast::If(c, a, b) => {
            law_lower_keeps_indexing_free(*c);
            law_lower_keeps_indexing_free(*a);
            if let Some(x) = b {
                assert(indexing_free_opt(as_lowered_opt(b)));
                assert(as_lowered_opt(b) == Some(Box::new(as_lowered(*x))));
                law_lower_keeps_indexing_free(*x);
            }
            assert(spec_lower_opt(b) == as_lowered_opt(b));
        },
        Ast::While(c, b) => {
            law_lower_keeps_indexing_free(*c);
            law_lower_keeps_indexing_free(*b);
        },
        Ast::For(i, c, u, b) => {
            if let Some(x) = i {
                assert(indexing_free_opt(as_lowered_opt(i)));
                assert(as_lowered_opt(i) == Some(Box::new(as_lowered(*x))));
                law_lower_keeps_indexing_free(*x);
            }
            assert(spec_lower_opt(i) == as_lowered_opt(i));
            if let Some(x) = c {
                assert(indexing_free_opt(as_lowered_opt(c)));
                assert(as_lowered_opt(c) == Some(Box::new(as_lowered(*x))));
                law_lower_keeps_indexing_free(*x);
            }
            assert(spec_lower_opt(c) == as_lowered_opt(c));
            if let Some(x) = u {
                assert(indexing_free_opt(as_lowered_opt(u)));
                assert(as_lowered_opt(u) == Some(Box::new(as_lowered(*x))));
                law_lower_keeps_indexing_free(*x);
            }
            assert(spec_lower_opt(u) == as_lowered_opt(u));
            law_lower_keeps_indexing_free(*b);
        },
        Ast::Addr(e, _) => law_lower_keeps_indexing_free(*e),
        Ast::Deref(e, _) => law_lower_keeps_indexing_free(*e),
        Ast::Sizeof(e) => law_lower_keeps_indexing_free(*e),
        Ast::Return(e, _) => law_lower_keeps_indexing_free(*e),
    }
}

proof fn lemma_lower_seq_keeps(s: Seq<Ast<Typed>>)
    requires
        indexing_free_seq(as_lowered_seq(s)),
    ensures
        spec_lower_seq(s) == as_lowered_seq(s),
    decreases s,
{
    if s.len() > 0 {
        let a = as_lowered_seq(s);
        assert(a[0] == as_lowered(s[0]));
        assert(a.drop_first() =~= as_lowered_seq(s.drop_first()));
        law_lower_keeps_indexing_free(s[0]);
        lemma_lower_seq_keeps(s.drop_first());
    }
}

/// Lowering writes an indexing `l[r]` as the dereference of the sum of `l` and `r`, lowered,
/// with the indexing's type on both.
pub proof fn law_lower_indexing(l: Ast<Typed>, r: Ast<Typed>, ty: Type)
    ensures
        spec_lower(Ast::Indexed(Box::new(l), Box::new(r), ty)) == Ast::<Lowered>::Deref(
            Box::new(Ast::BinOp(Op::Add, Box::new(spec_lower(l)), Box::new(spec_lower(r)), ty)),
            ty,
        ),
{
}

} // verus!
