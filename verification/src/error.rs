//! Parse errors: what the parser expected where it failed, as a message.
use vstd::prelude::*;
use vstd::string::*;
use crate::lexer::{Token, Span, chars_of};

verus! {

/// Something the parser expected.
#[derive(Clone, Copy, Debug, PartialEq)]
pub enum RichPattern {
    Token(Token<'static>),
    Identifier,
    Number,
    StringLiteral,
    EndOfInput,
}

impl RichPattern {
    /// How the pattern is shown in messages.
    pub open spec fn text(self) -> Seq<char> {
        match self {
            RichPattern::Token(t) => t.text(),
            RichPattern::Identifier => "identifier"@,
            RichPattern::Number => "number"@,
            RichPattern::StringLiteral => "string"@,
            RichPattern::EndOfInput => "end of input"@,
        }
    }

    pub fn describe(&self) -> (r: String)
        ensures
            r@ == self.text(),
    {
        match self {
            RichPattern::Token(t) => t.describe(),
            RichPattern::Identifier => String::from_str("identifier"),
            RichPattern::Number => String::from_str("number"),
            RichPattern::StringLiteral => String::from_str("string"),
            RichPattern::EndOfInput => String::from_str("end of input"),
        }
    }
}

/// The furthest position where a token did not match, and the patterns expected there.
pub type Misses = (nat, Set<RichPattern>);

/// Nothing noted.
pub open spec fn no_miss() -> Misses {
    (0, Set::empty())
}

/// The token at `pos` did not match `p`.
pub open spec fn miss(pos: int, p: RichPattern) -> Misses {
    (pos as nat, set![p])
}

/// `miss(pos, p)` unless the token matched.
pub open spec fn miss_unless(matched: bool, pos: int, p: RichPattern) -> Misses {
    if matched {
        no_miss()
    } else {
        miss(pos, p)
    }
}

/// The further of two positions with what was expected there; both when they are the same.
pub open spec fn merge(a: Misses, b: Misses) -> Misses {
    if a.0 > b.0 {
        a
    } else if b.0 > a.0 {
        b
    } else {
        (a.0, a.1.union(b.1))
    }
}

/// Merging is associative.
pub proof fn lemma_merge_assoc(a: Misses, b: Misses, c: Misses)
    ensures
        merge(merge(a, b), c) == merge(a, merge(b, c)),
{
    assert(a.1.union(b.1).union(c.1) =~= a.1.union(b.1.union(c.1)));
}

/// Merging one after the other is merging the rest first.
pub proof fn lemma_merge_chain(a: Misses, b: Misses, c: Misses, d: Misses, e: Misses, f: Misses, g: Misses)
    ensures
        merge(merge(merge(merge(merge(merge(a, b), c), d), e), f), g) == merge(
            a,
            merge(b, merge(c, merge(d, merge(e, merge(f, g))))),
        ),
{
    lemma_merge_assoc(merge(merge(merge(merge(a, b), c), d), e), f, g);
    lemma_merge_assoc(merge(merge(merge(a, b), c), d), e, merge(f, g));
    lemma_merge_assoc(merge(merge(a, b), c), d, merge(e, merge(f, g)));
    lemma_merge_assoc(merge(a, b), c, merge(d, merge(e, merge(f, g))));
    lemma_merge_assoc(a, b, merge(c, merge(d, merge(e, merge(f, g)))));
}

/// Why a parse failed: a token other than those expected, or a message of the failure's own.
#[derive(Debug)]
pub enum RichReason {
    ExpectedFound,
    Custom(String),
}

/// A parse failure: the span where the parser failed, why, what it expected there, and the
/// token it found (`None` at the end of the input).
#[derive(Debug)]
pub struct Rich<'a> {
    pub span: Span,
    pub reason: RichReason,
    pub expected: Vec<RichPattern>,
    pub found: Option<Token<'a>>,
}

/// A parse error: a span of the source and a message.
#[derive(Debug, Clone)]
pub struct ParseError {
    pub span: Span,
    pub message: String,
}

/// Lexicographic order of character sequences, the order of `String`.
pub open spec fn seq_lt(a: Seq<char>, b: Seq<char>) -> bool
    decreases a.len(),
{
    if a.len() == 0 {
        b.len() > 0
    } else if b.len() == 0 {
        false
    } else if a[0] < b[0] {
        true
    } else if a[0] == b[0] {
        seq_lt(a.drop_first(), b.drop_first())
    } else {
        false
    }
}

pub proof fn lemma_lt_transitive(a: Seq<char>, b: Seq<char>, c: Seq<char>)
    requires
        seq_lt(a, b),
        seq_lt(b, c),
    ensures
        seq_lt(a, c),
    decreases a.len(),
{
    if a.len() > 0 && b.len() > 0 && c.len() > 0 && a[0] == b[0] && b[0] == c[0] {
        lemma_lt_transitive(a.drop_first(), b.drop_first(), c.drop_first());
    }
}

pub proof fn lemma_lt_total(a: Seq<char>, b: Seq<char>)
    requires
        a != b,
    ensures
        seq_lt(a, b) || seq_lt(b, a),
    decreases a.len(),
{
    if a.len() > 0 && b.len() > 0 && a[0] == b[0] {
        if a.drop_first() == b.drop_first() {
            assert(a =~= seq![a[0]] + a.drop_first());
            assert(b =~= seq![b[0]] + b.drop_first());
        }
        lemma_lt_total(a.drop_first(), b.drop_first());
    } else if a.len() == 0 && b.len() == 0 {
        assert(a =~= b);
    }
}

/// Each element before the later ones.
pub open spec fn strictly_sorted(s: Seq<Seq<char>>) -> bool {
    forall|i: int, j: int| 0 <= i < j < s.len() ==> seq_lt(#[trigger] s[i], #[trigger] s[j])
}

/// The elements of `s` with `sep` between each two.
pub open spec fn join(s: Seq<Seq<char>>, sep: Seq<char>) -> Seq<char>
    decreases s.len(),
{
    if s.len() == 0 {
        seq![]
    } else if s.len() == 1 {
        s[0]
    } else {
        join(s.drop_last(), sep) + sep + s.last()
    }
}

pub open spec fn pattern_texts(ps: Seq<RichPattern>) -> Seq<Seq<char>> {
    ps.map_values(|p: RichPattern| p.text())
}

/// The texts of a set of patterns.
pub open spec fn shown(s: Set<RichPattern>) -> Set<Seq<char>> {
    s.map(|p: RichPattern| p.text())
}

pub proof fn lemma_shown_texts(ps: Seq<RichPattern>)
    ensures
        pattern_texts(ps).to_set() == shown(ps.to_set()),
{
    ps.lemma_to_set_map_commutes(|p: RichPattern| p.text());
    assert(pattern_texts(ps).to_set() =~= shown(ps.to_set()));
}

/// `list` holds the texts of the patterns `ps`, each once, in order.
pub open spec fn expected_list(ps: Seq<RichPattern>, list: Seq<Seq<char>>) -> bool {
    strictly_sorted(list) && list.to_set() == pattern_texts(ps).to_set()
}

pub open spec fn found_text(found: Option<Token>) -> Seq<char> {
    match found {
        Some(t) => t.text(),
        None => "end of input"@,
    }
}

/// The message of a failure whose expected patterns are shown as `list`.
pub open spec fn message_of(list: Seq<Seq<char>>, found: Option<Token>) -> Seq<char> {
    if list.len() == 0 {
        "found "@ + found_text(found)
    } else {
        "expected "@ + join(list, ", "@) + ", found "@ + found_text(found)
    }
}

/// Whether `a` comes before `b` in the order of strings.
fn text_lt(a: &str, b: &str) -> (r: bool)
    ensures
        r == seq_lt(a@, b@),
{
    let x = chars_of(a);
    let y = chars_of(b);
    let mut i: usize = 0;
    assert(x@.skip(0) =~= x@);
    assert(y@.skip(0) =~= y@);
    while i < x.len() && i < y.len() && x[i] == y[i]
        invariant
            x@ == a@,
            y@ == b@,
            i <= x@.len(),
            i <= y@.len(),
            seq_lt(a@, b@) == seq_lt(x@.skip(i as int), y@.skip(i as int)),
        decreases x@.len() - i,
    {
        assert(x@.skip(i as int).drop_first() =~= x@.skip(i + 1));
        assert(y@.skip(i as int).drop_first() =~= y@.skip(i + 1));
        i = i + 1;
    }
    if i == x.len() {
        i < y.len()
    } else if i == y.len() {
        false
    } else {
        x[i] < y[i]
    }
}

/// The texts `texts` sorted, each once.
fn sort_unique(texts: Vec<String>) -> (r: Vec<String>)
    ensures
        strictly_sorted(r@.map_values(|s: String| s@)),
        r@.map_values(|s: String| s@).to_set() == texts@.map_values(|s: String| s@).to_set(),
{
    let ghost tv = texts@.map_values(|s: String| s@);
    let mut out: Vec<String> = Vec::new();
    let mut k: usize = 0;
    proof {
        assert(out@.map_values(|s: String| s@).to_set() =~= tv.take(0).to_set());
    }
    while k < texts.len()
        invariant
            k <= texts@.len(),
            tv == texts@.map_values(|s: String| s@),
            strictly_sorted(out@.map_values(|s: String| s@)),
            out@.map_values(|s: String| s@).to_set() == tv.take(k as int).to_set(),
        decreases texts@.len() - k,
    {
        let ghost ov = out@.map_values(|s: String| s@);
        let x = texts[k].clone();
        let mut p: usize = 0;
        while p < out.len() && text_lt(out[p].as_str(), x.as_str())
            invariant
                p <= out@.len(),
                ov == out@.map_values(|s: String| s@),
                forall|i: int| 0 <= i < p ==> seq_lt(#[trigger] ov[i], x@),
            decreases out@.len() - p,
        {
            p = p + 1;
        }
        proof {
            assert(tv.take(k + 1) =~= tv.take(k as int).push(x@));
            tv.take(k as int).lemma_push_to_set_commute(x@);
        }
        if p < out.len() && out[p] == x {
            proof {
                assert(ov.to_set().contains(x@)) by {
                    assert(ov[p as int] == x@);
                }
                assert(tv.take(k + 1).to_set() =~= tv.take(k as int).to_set().insert(x@)) by {
                    assert(tv.take(k + 1) =~= tv.take(k as int).push(x@));
                }
                assert(ov.to_set().insert(x@) =~= ov.to_set());
            }
        } else {
            proof {
                if p < ov.len() {
                    assert(ov[p as int] != x@);
                    lemma_lt_total(ov[p as int], x@);
                }
            }
            out.insert(p, x);
            proof {
                let nv = out@.map_values(|s: String| s@);
                assert(nv =~= ov.insert(p as int, x@));
                assert forall|i: int, j: int| 0 <= i < j < nv.len() implies seq_lt(#[trigger] nv[i], #[trigger] nv[j]) by {
                    if j < p {
                    } else if j == p {
                    } else if i < p {
                        if j > p + 1 {
                            lemma_lt_transitive(x@, ov[p as int], ov[j - 1]);
                        }
                        lemma_lt_transitive(nv[i], x@, nv[j]);
                    } else if i == p {
                        if j > p + 1 {
                            lemma_lt_transitive(x@, ov[p as int], ov[j - 1]);
                        }
                    } else {
                    }
                }
                assert forall|y: Seq<char>| nv.to_set().contains(y) <==> ov.to_set().insert(x@).contains(y) by {
                    if nv.to_set().contains(y) {
                        let i = choose|i: int| 0 <= i < nv.len() && nv[i] == y;
                        if i < p {
                            assert(ov[i] == y);
                        } else if i > p {
                            assert(ov[i - 1] == y);
                        }
                    }
                    if ov.to_set().contains(y) {
                        let i = choose|i: int| 0 <= i < ov.len() && ov[i] == y;
                        if i < p {
                            assert(nv[i] == y);
                        } else {
                            assert(nv[i + 1] == y);
                        }
                    }
                    if y == x@ {
                        assert(nv[p as int] == y);
                    }
                }
                assert(nv.to_set() =~= ov.to_set().insert(x@));
                assert(tv.take(k + 1).to_set() =~= tv.take(k as int).to_set().insert(x@));
            }
        }
        k = k + 1;
    }
    proof {
        assert(tv.take(k as int) =~= tv);
    }
    out
}

/// The texts `list` with `, ` between each two.
fn join_texts(list: &Vec<String>) -> (r: String)
    ensures
        r@ == join(list@.map_values(|s: String| s@), ", "@),
{
    let ghost lv = list@.map_values(|s: String| s@);
    let mut r = String::new();
    let mut k: usize = 0;
    while k < list.len()
        invariant
            k <= list@.len(),
            lv == list@.map_values(|s: String| s@),
            r@ == join(lv.take(k as int), ", "@),
        decreases list@.len() - k,
    {
        assert(lv.take(k + 1).drop_last() =~= lv.take(k as int));
        if k > 0 {
            r.append(", ");
        }
        r.append(list[k].as_str());
        k = k + 1;
    }
    assert(lv.take(k as int) =~= lv);
    r
}

/// The expected patterns of a failure, sorted, each once, between commas; `None` when there
/// is none.
pub fn format_expected(error: &Rich) -> (r: Option<String>)
    ensures
        r is None <==> error.expected@.len() == 0,
        r matches Some(t) ==> exists|list: Seq<Seq<char>>|
            expected_list(error.expected@, list) && list.len() > 0 && t@ == join(list, ", "@),
{
    let mut texts: Vec<String> = Vec::new();
    let mut k: usize = 0;
    while k < error.expected.len()
        invariant
            k <= error.expected@.len(),
            texts@.map_values(|s: String| s@) == pattern_texts(error.expected@).take(k as int),
        decreases error.expected@.len() - k,
    {
        let ghost before = texts@;
        texts.push(error.expected[k].describe());
        assert(texts@.map_values(|s: String| s@) =~= before.map_values(|s: String| s@).push(error.expected@[k as int].text()));
        assert(pattern_texts(error.expected@).take(k + 1) =~= pattern_texts(error.expected@).take(k as int).push(error.expected@[k as int].text()));
        k = k + 1;
    }
    assert(pattern_texts(error.expected@).take(k as int) =~= pattern_texts(error.expected@));
    let sorted = sort_unique(texts);
    let ghost list = sorted@.map_values(|s: String| s@);
    if sorted.len() == 0 {
        proof {
            if error.expected@.len() > 0 {
                assert(pattern_texts(error.expected@).to_set().contains(pattern_texts(error.expected@)[0]));
                assert(list.to_set() =~= Set::<Seq<char>>::empty());
            }
        }
        None
    } else {
        proof {
            if error.expected@.len() == 0 {
                assert(list.to_set().contains(list[0]));
                assert(pattern_texts(error.expected@).to_set() =~= Set::<Seq<char>>::empty());
            }
        }
        Some(join_texts(&sorted))
    }
}

/// What the parser found where it failed.
pub fn format_found(error: &Rich) -> (r: String)
    ensures
        r@ == found_text(error.found),
{
    match &error.found {
        Some(t) => t.describe(),
        None => String::from_str("end of input"),
    }
}

/// The message of a failure: its own message where it has one; else `expected ..., found ...`,
/// or `found ...` when nothing was expected.
pub fn format_error_message(error: &Rich) -> (r: String)
    ensures
        error.reason matches RichReason::Custom(m) ==> r@ == m@,
        error.reason is ExpectedFound ==> exists|list: Seq<Seq<char>>|
            expected_list(error.expected@, list) && r@ == message_of(list, error.found),
{
    if let RichReason::Custom(m) = &error.reason {
        return m.clone();
    }
    let found = format_found(error);
    match format_expected(error) {
        Some(expected) => {
            let ghost list = choose|list: Seq<Seq<char>>| expected_list(error.expected@, list) && list.len() > 0 && expected@ == join(list, ", "@);
            let mut r = String::from_str("expected ");
            r.append(expected.as_str());
            r.append(", found ");
            r.append(found.as_str());
            assert(r@ == message_of(list, error.found));
            r
        },
        None => {
            let ghost list: Seq<Seq<char>> = seq![];
            assert(list.to_set() =~= pattern_texts(error.expected@).to_set());
            let mut r = String::from_str("found ");
            r.append(found.as_str());
            assert(r@ == message_of(list, error.found));
            r
        },
    }
}

impl ParseError {
    /// The error of a failure: its span, and its message.
    pub fn from_rich(error: Rich) -> (r: ParseError)
        ensures
            r.span == error.span,
            error.reason matches RichReason::Custom(m) ==> r.message@ == m@,
            error.reason is ExpectedFound ==> exists|list: Seq<Seq<char>>|
                expected_list(error.expected@, list) && r.message@ == message_of(list, error.found),
    {
        let message = format_error_message(&error);
        ParseError { span: error.span, message }
    }
}

} // verus!
