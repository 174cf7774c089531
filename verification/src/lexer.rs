//! The tokens of the language and the lexer that splits source text into them.
use vstd::prelude::*;
use vstd::string::*;
use crate::text::{push_decimal_u64, decimal_nat};

verus! {

/// A token of the source language.
#[derive(Clone, Copy, Debug, PartialEq)]
pub enum Token<'a> {
    Int,
    Char,
    If,
    Else,
    While,
    For,
    Sizeof,
    Return,
    Semicolon,
    Comma,
    Number(usize),
    Ident(&'a str),
    String(&'a str),
    Plus,
    Minus,
    Asterisk,
    Slash,
    And,
    Eq,
    NotEq,
    Gte,
    Gt,
    Lte,
    Lt,
    Assign,
    LParen,
    RParen,
    LBrace,
    RBrace,
    LBracket,
    RBracket,
}

/// The value of a token: the same kinds, with the text of identifiers and strings as sequences.
pub enum Lexeme {
    Int,
    Char,
    If,
    Else,
    While,
    For,
    Sizeof,
    Return,
    Semicolon,
    Comma,
    Number(usize),
    Ident(Seq<char>),
    String(Seq<char>),
    Plus,
    Minus,
    Asterisk,
    Slash,
    And,
    Eq,
    NotEq,
    Gte,
    Gt,
    Lte,
    Lt,
    Assign,
    LParen,
    RParen,
    LBrace,
    RBrace,
    LBracket,
    RBracket,
}

impl<'a> View for Token<'a> {
    type V = Lexeme;

    open spec fn view(&self) -> Lexeme {
        match *self {
            Token::Int => Lexeme::Int,
            Token::Char => Lexeme::Char,
            Token::If => Lexeme::If,
            Token::Else => Lexeme::Else,
            Token::While => Lexeme::While,
            Token::For => Lexeme::For,
            Token::Sizeof => Lexeme::Sizeof,
            Token::Return => Lexeme::Return,
            Token::Semicolon => Lexeme::Semicolon,
            Token::Comma => Lexeme::Comma,
            Token::Number(n) => Lexeme::Number(n),
            Token::Ident(x) => Lexeme::Ident(x@),
            Token::String(x) => Lexeme::String(x@),
            Token::Plus => Lexeme::Plus,
            Token::Minus => Lexeme::Minus,
            Token::Asterisk => Lexeme::Asterisk,
            Token::Slash => Lexeme::Slash,
            Token::And => Lexeme::And,
            Token::Eq => Lexeme::Eq,
            Token::NotEq => Lexeme::NotEq,
            Token::Gte => Lexeme::Gte,
            Token::Gt => Lexeme::Gt,
            Token::Lte => Lexeme::Lte,
            Token::Lt => Lexeme::Lt,
            Token::Assign => Lexeme::Assign,
            Token::LParen => Lexeme::LParen,
            Token::RParen => Lexeme::RParen,
            Token::LBrace => Lexeme::LBrace,
            Token::RBrace => Lexeme::RBrace,
            Token::LBracket => Lexeme::LBracket,
            Token::RBracket => Lexeme::RBracket,
        }
    }
}

/// A range of character positions in the source text, `start` included, `end` excluded.
#[derive(Clone, Copy, Debug, PartialEq, Eq)]
pub struct Span {
    pub start: usize,
    pub end: usize,
}

/// Why the source text could not be split into tokens.
#[derive(Clone, Copy, Debug, PartialEq, Eq)]
pub enum LexError {
    /// No token starts at this position.
    InvalidToken(usize),
    /// The number that starts at this position does not fit in a `usize`.
    NumberTooLarge(usize),
}

pub open spec fn is_space(c: char) -> bool {
    c == ' ' || c == '\t' || c == '\n' || c == '\x0C'
}

pub open spec fn is_alpha(c: char) -> bool {
    ('a' <= c && c <= 'z') || ('A' <= c && c <= 'Z') || c == '_'
}

pub open spec fn is_digit(c: char) -> bool {
    '0' <= c && c <= '9'
}

pub open spec fn is_ident_char(c: char) -> bool {
    is_alpha(c) || is_digit(c)
}

/// The characters that are a token on their own.
pub open spec fn is_single(c: char) -> bool {
    c == ';' || c == ',' || c == '+' || c == '-' || c == '*' || c == '/' || c == '&'
        || c == '(' || c == ')' || c == '{' || c == '}' || c == '[' || c == ']'
}

/// End of the run of identifier characters that starts at `i`.
pub open spec fn ident_end(s: Seq<char>, i: int) -> int
    decreases s.len() - i,
{
    if 0 <= i < s.len() && is_ident_char(s[i]) {
        ident_end(s, i + 1)
    } else {
        i
    }
}

/// End of the run of digits that starts at `i`.
pub open spec fn digits_end(s: Seq<char>, i: int) -> int
    decreases s.len() - i,
{
    if 0 <= i < s.len() && is_digit(s[i]) {
        digits_end(s, i + 1)
    } else {
        i
    }
}

/// Position of the first `"` at or after `i`, or the length of `s` if there is none.
pub open spec fn quote_end(s: Seq<char>, i: int) -> int
    decreases s.len() - i,
{
    if 0 <= i < s.len() && s[i] != '"' {
        quote_end(s, i + 1)
    } else {
        i
    }
}

/// The first position at or after `i` that holds no blank.
pub open spec fn skip_spaces(s: Seq<char>, i: int) -> int
    decreases s.len() - i,
{
    if 0 <= i < s.len() && is_space(s[i]) {
        skip_spaces(s, i + 1)
    } else {
        i
    }
}

/// The end of the longest token that starts at `i`, or `None` when no token starts there.
pub open spec fn token_end(s: Seq<char>, i: int) -> Option<int>
    recommends
        0 <= i < s.len(),
{
    let c = s[i];
    if is_alpha(c) {
        Some(ident_end(s, i + 1))
    } else if is_digit(c) {
        Some(digits_end(s, i + 1))
    } else if c == '"' {
        let q = quote_end(s, i + 1);
        if q < s.len() {
            Some(q + 1)
        } else {
            None
        }
    } else if c == '=' || c == '<' || c == '>' {
        if i + 1 < s.len() && s[i + 1] == '=' {
            Some(i + 2)
        } else {
            Some(i + 1)
        }
    } else if c == '!' {
        if i + 1 < s.len() && s[i + 1] == '=' {
            Some(i + 2)
        } else {
            None
        }
    } else if is_single(c) {
        Some(i + 1)
    } else {
        None
    }
}

/// The value of a run of decimal digits.
pub open spec fn digits_value(w: Seq<char>) -> nat
    decreases w.len(),
{
    if w.len() == 0 {
        0
    } else {
        digits_value(w.drop_last()) * 10 + ((w.last() as nat) - ('0' as nat)) as nat
    }
}

/// The spans of the tokens of `s` from position `i` on, or the first error.
pub open spec fn scan(s: Seq<char>, i: int) -> Result<Seq<(int, int)>, LexError>
    decreases s.len() - i,
{
    let j = skip_spaces(s, i);
    if !(0 <= i <= j) || j >= s.len() {
        Ok(seq![])
    } else {
        match token_end(s, j) {
            Some(e) => {
                if !(j < e <= s.len()) {
                    Err(LexError::InvalidToken(j as usize))
                } else if is_digit(s[j]) && digits_value(s.subrange(j, e)) > usize::MAX {
                    Err(LexError::NumberTooLarge(j as usize))
                } else {
                    match scan(s, e) {
                        Ok(rest) => Ok(seq![(j, e)] + rest),
                        Err(err) => Err(err),
                    }
                }
            },
            None => Err(LexError::InvalidToken(j as usize)),
        }
    }
}

pub open spec fn kw_int() -> Seq<char> { seq!['i', 'n', 't'] }
pub open spec fn kw_char() -> Seq<char> { seq!['c', 'h', 'a', 'r'] }
pub open spec fn kw_if() -> Seq<char> { seq!['i', 'f'] }
pub open spec fn kw_else() -> Seq<char> { seq!['e', 'l', 's', 'e'] }
pub open spec fn kw_while() -> Seq<char> { seq!['w', 'h', 'i', 'l', 'e'] }
pub open spec fn kw_for() -> Seq<char> { seq!['f', 'o', 'r'] }
pub open spec fn kw_sizeof() -> Seq<char> { seq!['s', 'i', 'z', 'e', 'o', 'f'] }
pub open spec fn kw_return() -> Seq<char> { seq!['r', 'e', 't', 'u', 'r', 'n'] }

pub open spec fn is_keyword(w: Seq<char>) -> bool {
    w == kw_int() || w == kw_char() || w == kw_if() || w == kw_else() || w == kw_while()
        || w == kw_for() || w == kw_sizeof() || w == kw_return()
}

/// The token written `w`, where `w` is the text of a span that `scan` gives.
pub open spec fn lexeme_of(w: Seq<char>) -> Lexeme {
    if is_alpha(w[0]) {
        if w == kw_int() {
            Lexeme::Int
        } else if w == kw_char() {
            Lexeme::Char
        } else if w == kw_if() {
            Lexeme::If
        } else if w == kw_else() {
            Lexeme::Else
        } else if w == kw_while() {
            Lexeme::While
        } else if w == kw_for() {
            Lexeme::For
        } else if w == kw_sizeof() {
            Lexeme::Sizeof
        } else if w == kw_return() {
            Lexeme::Return
        } else {
            Lexeme::Ident(w)
        }
    } else if is_digit(w[0]) {
        Lexeme::Number(digits_value(w) as usize)
    } else if w[0] == '"' {
        Lexeme::String(w.subrange(1, w.len() - 1))
    } else if w == seq!['=', '='] {
        Lexeme::Eq
    } else if w == seq!['!', '='] {
        Lexeme::NotEq
    } else if w == seq!['>', '='] {
        Lexeme::Gte
    } else if w == seq!['<', '='] {
        Lexeme::Lte
    } else if w[0] == '=' {
        Lexeme::Assign
    } else if w[0] == '>' {
        Lexeme::Gt
    } else if w[0] == '<' {
        Lexeme::Lt
    } else if w[0] == ';' {
        Lexeme::Semicolon
    } else if w[0] == ',' {
        Lexeme::Comma
    } else if w[0] == '+' {
        Lexeme::Plus
    } else if w[0] == '-' {
        Lexeme::Minus
    } else if w[0] == '*' {
        Lexeme::Asterisk
    } else if w[0] == '/' {
        Lexeme::Slash
    } else if w[0] == '&' {
        Lexeme::And
    } else if w[0] == '(' {
        Lexeme::LParen
    } else if w[0] == ')' {
        Lexeme::RParen
    } else if w[0] == '{' {
        Lexeme::LBrace
    } else if w[0] == '}' {
        Lexeme::RBrace
    } else if w[0] == '[' {
        Lexeme::LBracket
    } else {
        Lexeme::RBracket
    }
}

/// The tokens of `s` with their spans, or the first error.
pub open spec fn lex_spec(s: Seq<char>) -> Result<Seq<(Lexeme, Span)>, LexError> {
    match scan(s, 0) {
        Ok(spans) => Ok(
            spans.map_values(
                |p: (int, int)|
                    (lexeme_of(s.subrange(p.0, p.1)), Span { start: p.0 as usize, end: p.1 as usize }),
            ),
        ),
        Err(e) => Err(e),
    }
}

/// The values of tokens with their spans.
pub open spec fn toks_view(v: Seq<(Token, Span)>) -> Seq<(Lexeme, Span)> {
    v.map_values(|p: (Token, Span)| (p.0@, p.1))
}

/// The values of the tokens alone.
pub open spec fn lexemes(v: Seq<(Token, Span)>) -> Seq<Lexeme> {
    v.map_values(|p: (Token, Span)| p.0@)
}

/// The tokens `toks` with their spans are those of the source text `s`, spanned by `spans`.
pub open spec fn tokens_match(s: Seq<char>, spans: Seq<(int, int)>, toks: Seq<(Token, Span)>) -> bool {
    &&& toks.len() == spans.len()
    &&& forall|k: int|
        0 <= k < toks.len() ==> {
            &&& (#[trigger] toks[k]).1.start == spans[k].0
            &&& toks[k].1.end == spans[k].1
            &&& toks[k].0@ == lexeme_of(s.subrange(spans[k].0, spans[k].1))
        }
}


/// Prepends `done` to the spans of a successful scan.
pub open spec fn after(done: Seq<(int, int)>, r: Result<Seq<(int, int)>, LexError>) -> Result<Seq<(int, int)>, LexError> {
    match r {
        Ok(rest) => Ok(done + rest),
        Err(e) => Err(e),
    }
}

/// The characters of `s`, in order.
pub fn chars_of(s: &str) -> (v: Vec<char>)
    ensures
        v@ == s@,
{
    let mut v: Vec<char> = Vec::new();
    for c in it: s.chars()
        invariant
            v@ == it.seq().take(it.index() as int),
            it.seq() == s@,
    {
        v.push(c);
    }
    v
}

fn is_space_exec(c: char) -> (b: bool)
    ensures
        b == is_space(c),
{
    c == ' ' || c == '\t' || c == '\n' || c == '\x0C'
}

fn is_alpha_exec(c: char) -> (b: bool)
    ensures
        b == is_alpha(c),
{
    ('a' <= c && c <= 'z') || ('A' <= c && c <= 'Z') || c == '_'
}

fn is_digit_exec(c: char) -> (b: bool)
    ensures
        b == is_digit(c),
{
    '0' <= c && c <= '9'
}

fn is_single_exec(c: char) -> (b: bool)
    ensures
        b == is_single(c),
{
    c == ';' || c == ',' || c == '+' || c == '-' || c == '*' || c == '/' || c == '&' || c == '('
        || c == ')' || c == '{' || c == '}' || c == '[' || c == ']'
}

fn skip_spaces_exec(v: &Vec<char>, i: usize) -> (j: usize)
    requires
        i <= v@.len(),
    ensures
        j == skip_spaces(v@, i as int),
        i <= j <= v@.len(),
{
    let mut j = i;
    while j < v.len() && is_space_exec(v[j])
        invariant
            i <= j <= v@.len(),
            skip_spaces(v@, i as int) == skip_spaces(v@, j as int),
        decreases v@.len() - j,
    {
        j = j + 1;
    }
    j
}

fn ident_end_exec(v: &Vec<char>, i: usize) -> (j: usize)
    requires
        i <= v@.len(),
    ensures
        j == ident_end(v@, i as int),
        i <= j <= v@.len(),
{
    let mut j = i;
    while j < v.len() && (is_alpha_exec(v[j]) || is_digit_exec(v[j]))
        invariant
            i <= j <= v@.len(),
            ident_end(v@, i as int) == ident_end(v@, j as int),
        decreases v@.len() - j,
    {
        j = j + 1;
    }
    j
}

fn digits_end_exec(v: &Vec<char>, i: usize) -> (j: usize)
    requires
        i <= v@.len(),
    ensures
        j == digits_end(v@, i as int),
        i <= j <= v@.len(),
{
    let mut j = i;
    while j < v.len() && is_digit_exec(v[j])
        invariant
            i <= j <= v@.len(),
            digits_end(v@, i as int) == digits_end(v@, j as int),
        decreases v@.len() - j,
    {
        j = j + 1;
    }
    j
}

fn quote_end_exec(v: &Vec<char>, i: usize) -> (j: usize)
    requires
        i <= v@.len(),
    ensures
        j == quote_end(v@, i as int),
        i <= j <= v@.len(),
{
    let mut j = i;
    while j < v.len() && v[j] != '"'
        invariant
            i <= j <= v@.len(),
            quote_end(v@, i as int) == quote_end(v@, j as int),
        decreases v@.len() - j,
    {
        j = j + 1;
    }
    j
}

fn token_end_exec(v: &Vec<char>, i: usize) -> (r: Option<usize>)
    requires
        i < v.len(),
    ensures
        r matches Some(e) ==> token_end(v@, i as int) == Some(e as int) && i < e <= v@.len(),
        r is None ==> token_end(v@, i as int) is None,
{
    let c = v[i];
    if is_alpha_exec(c) {
        Some(ident_end_exec(v, i + 1))
    } else if is_digit_exec(c) {
        Some(digits_end_exec(v, i + 1))
    } else if c == '"' {
        let q = quote_end_exec(v, i + 1);
        if q < v.len() {
            Some(q + 1)
        } else {
            None
        }
    } else if c == '=' || c == '<' || c == '>' {
        if i + 1 < v.len() && v[i + 1] == '=' {
            Some(i + 2)
        } else {
            Some(i + 1)
        }
    } else if c == '!' {
        if i + 1 < v.len() && v[i + 1] == '=' {
            Some(i + 2)
        } else {
            None
        }
    } else if is_single_exec(c) {
        Some(i + 1)
    } else {
        None
    }
}

/// The value of the digits `v[j..e]`, or `None` when it does not fit in a `usize`.
fn number_value(v: &Vec<char>, j: usize, e: usize) -> (r: Option<usize>)
    requires
        j <= e <= v@.len(),
        forall|k: int| j <= k < e ==> is_digit(#[trigger] v@[k]),
    ensures
        r matches Some(n) ==> n as nat == digits_value(v@.subrange(j as int, e as int)),
        r is None ==> digits_value(v@.subrange(j as int, e as int)) > usize::MAX,
{
    let mut val: usize = 0;
    let mut over = false;
    let mut k = j;
    assert(v@.subrange(j as int, j as int).len() == 0);
    while k < e
        invariant
            j <= k <= e <= v@.len(),
            forall|k: int| j <= k < e ==> is_digit(#[trigger] v@[k]),
            !over ==> val as nat == digits_value(v@.subrange(j as int, k as int)),
            over ==> digits_value(v@.subrange(j as int, k as int)) > usize::MAX,
        decreases e - k,
    {
        let d = (v[k] as u32 - '0' as u32) as usize;
        proof {
            let w = v@.subrange(j as int, k + 1);
            assert(w.drop_last() =~= v@.subrange(j as int, k as int));
            assert(w.last() == v@[k as int]);
        }
        if !over {
            if val > (usize::MAX - d) / 10 {
                over = true;
            } else {
                val = val * 10 + d;
            }
        }
        k = k + 1;
    }
    if over {
        None
    } else {
        Some(val)
    }
}

/// Whether the characters `v[j..e]` are those of `k`.
fn word_is(v: &Vec<char>, j: usize, e: usize, k: &[char]) -> (b: bool)
    requires
        j <= e <= v@.len(),
    ensures
        b == (v@.subrange(j as int, e as int) == k@),
{
    if e - j != k.len() {
        return false;
    }
    let mut m: usize = 0;
    while m < k.len()
        invariant
            j <= e <= v@.len(),
            e - j == k@.len(),
            m <= k@.len(),
            forall|x: int| 0 <= x < m ==> v@[j + x] == k@[x],
        decreases k@.len() - m,
    {
        if v[j + m] != k[m] {
            assert(v@.subrange(j as int, e as int)[m as int] != k@[m as int]);
            return false;
        }
        m = m + 1;
    }
    assert(v@.subrange(j as int, e as int) =~= k@);
    true
}

/// The keyword written `v[j..e]`, if it is one.
fn keyword(v: &Vec<char>, j: usize, e: usize) -> (r: Option<Token<'static>>)
    requires
        j < e <= v@.len(),
        is_alpha(v@[j as int]),
    ensures
        r matches Some(t) ==> t@ == lexeme_of(v@.subrange(j as int, e as int)),
        r is None ==> !is_keyword(v@.subrange(j as int, e as int)),
{
    let k_int: [char; 3] = ['i', 'n', 't'];
    let k_char: [char; 4] = ['c', 'h', 'a', 'r'];
    let k_if: [char; 2] = ['i', 'f'];
    let k_else: [char; 4] = ['e', 'l', 's', 'e'];
    let k_while: [char; 5] = ['w', 'h', 'i', 'l', 'e'];
    let k_for: [char; 3] = ['f', 'o', 'r'];
    let k_sizeof: [char; 6] = ['s', 'i', 'z', 'e', 'o', 'f'];
    let k_return: [char; 6] = ['r', 'e', 't', 'u', 'r', 'n'];
    assert(k_int@ =~= kw_int());
    assert(k_char@ =~= kw_char());
    assert(k_if@ =~= kw_if());
    assert(k_else@ =~= kw_else());
    assert(k_while@ =~= kw_while());
    assert(k_for@ =~= kw_for());
    assert(k_sizeof@ =~= kw_sizeof());
    assert(k_return@ =~= kw_return());
    if word_is(v, j, e, &k_int) {
        Some(Token::Int)
    } else if word_is(v, j, e, &k_char) {
        Some(Token::Char)
    } else if word_is(v, j, e, &k_if) {
        Some(Token::If)
    } else if word_is(v, j, e, &k_else) {
        Some(Token::Else)
    } else if word_is(v, j, e, &k_while) {
        Some(Token::While)
    } else if word_is(v, j, e, &k_for) {
        Some(Token::For)
    } else if word_is(v, j, e, &k_sizeof) {
        Some(Token::Sizeof)
    } else if word_is(v, j, e, &k_return) {
        Some(Token::Return)
    } else {
        None
    }
}

/// The characters `source[from..to]`, counted in characters.
fn slice_chars<'a>(source: &'a str, ascii: bool, from: usize, to: usize) -> (r: &'a str)
    requires
        from <= to <= source@.len(),
        ascii == is_ascii(source),
    ensures
        r@ == source@.subrange(from as int, to as int),
{
    if ascii {
        source.substring_ascii(from, to)
    } else {
        source.substring_char(from, to)
    }
}

proof fn lemma_quote_run(s: Seq<char>, i: int)
    requires
        0 <= i <= s.len(),
    ensures
        i <= quote_end(s, i) <= s.len(),
    decreases s.len() - i,
{
    if i < s.len() && s[i] != '"' {
        lemma_quote_run(s, i + 1);
    }
}

proof fn lemma_digit_run(s: Seq<char>, i: int)
    requires
        0 <= i <= s.len(),
    ensures
        i <= digits_end(s, i) <= s.len(),
        forall|k: int| i <= k < digits_end(s, i) ==> is_digit(#[trigger] s[k]),
    decreases s.len() - i,
{
    if i < s.len() && is_digit(s[i]) {
        lemma_digit_run(s, i + 1);
    }
}

/// The token written `v[j..e]`, the longest token that starts at `j`; `None` when it is a
/// number too large for a `usize`.
fn make_token<'a>(source: &'a str, v: &Vec<char>, ascii: bool, j: usize, e: usize) -> (r: Option<Token<'a>>)
    requires
        v@ == source@,
        ascii == is_ascii(source),
        j < e <= v@.len(),
        token_end(v@, j as int) == Some(e as int),
    ensures
        r matches Some(t) ==> t@ == lexeme_of(v@.subrange(j as int, e as int)),
        r is None <==> is_digit(v@[j as int]) && digits_value(v@.subrange(j as int, e as int)) > usize::MAX,
{
    let ghost w = v@.subrange(j as int, e as int);
    let c = v[j];
    if is_alpha_exec(c) {
        match keyword(v, j, e) {
            Some(t) => Some(t),
            None => Some(Token::Ident(slice_chars(source, ascii, j, e))),
        }
    } else if is_digit_exec(c) {
        proof {
            lemma_digit_run(v@, j + 1);
        }
        match number_value(v, j, e) {
            Some(n) => Some(Token::Number(n)),
            None => None,
        }
    } else if c == '"' {
        proof {
            lemma_quote_run(v@, j + 1);
        }
        let t = Token::String(slice_chars(source, ascii, j + 1, e - 1));
        assert(w.subrange(1, w.len() - 1) =~= v@.subrange(j + 1, e - 1));
        Some(t)
    } else if c == '=' {
        if e - j == 2 {
            assert(w =~= seq!['=', '=']);
            Some(Token::Eq)
        } else {
            assert(w =~= seq!['=']);
            Some(Token::Assign)
        }
    } else if c == '<' {
        if e - j == 2 {
            assert(w =~= seq!['<', '=']);
            Some(Token::Lte)
        } else {
            assert(w =~= seq!['<']);
            Some(Token::Lt)
        }
    } else if c == '>' {
        if e - j == 2 {
            assert(w =~= seq!['>', '=']);
            Some(Token::Gte)
        } else {
            assert(w =~= seq!['>']);
            Some(Token::Gt)
        }
    } else if c == '!' {
        assert(w =~= seq!['!', '=']);
        Some(Token::NotEq)
    } else {
        assert(w =~= seq![c]);
        if c == ';' {
            Some(Token::Semicolon)
        } else if c == ',' {
            Some(Token::Comma)
        } else if c == '+' {
            Some(Token::Plus)
        } else if c == '-' {
            Some(Token::Minus)
        } else if c == '*' {
            Some(Token::Asterisk)
        } else if c == '/' {
            Some(Token::Slash)
        } else if c == '&' {
            Some(Token::And)
        } else if c == '(' {
            Some(Token::LParen)
        } else if c == ')' {
            Some(Token::RParen)
        } else if c == '{' {
            Some(Token::LBrace)
        } else if c == '}' {
            Some(Token::RBrace)
        } else if c == '[' {
            Some(Token::LBracket)
        } else {
            Some(Token::RBracket)
        }
    }
}

/// Splits `source` into tokens, each with its span in characters: the longest token at each
/// position, blanks skipped.
pub fn lex<'a>(source: &'a str) -> (r: Result<Vec<(Token<'a>, Span)>, LexError>)
    ensures
        match lex_spec(source@) {
            Ok(ls) => r matches Ok(toks) && toks_view(toks@) == ls,
            Err(e) => r == Err::<Vec<(Token<'a>, Span)>, LexError>(e),
        },
{
    let v = chars_of(source);
    let ascii = source.is_ascii();
    let mut out: Vec<(Token<'a>, Span)> = Vec::new();
    let ghost mut done: Seq<(int, int)> = seq![];
    let mut i: usize = 0;
    assert(done + seq![] =~= seq![]) by {
    }
    while i < v.len()
        invariant
            v@ == source@,
            ascii == is_ascii(source),
            i <= v@.len(),
            scan(source@, 0) == after(done, scan(source@, i as int)),
            tokens_match(source@, done, out@),
        decreases v@.len() - i,
    {
        let j = skip_spaces_exec(&v, i);
        if j >= v.len() {
            proof {
                assert(skip_spaces(source@, j as int) == j as int);
                assert(scan(source@, i as int) == Ok::<Seq<(int, int)>, LexError>(seq![]));
                assert(scan(source@, j as int) == Ok::<Seq<(int, int)>, LexError>(seq![]));
            }
            i = j;
        } else {
        match token_end_exec(&v, j) {
            None => {
                return Err(LexError::InvalidToken(j));
            },
            Some(e) => {
                match make_token(source, &v, ascii, j, e) {
                    None => {
                        return Err(LexError::NumberTooLarge(j));
                    },
                    Some(t) => {
                        out.push((t, Span { start: j, end: e }));
                        proof {
                            assert(scan(source@, i as int) == after(seq![(j as int, e as int)], scan(source@, e as int)));
                            assert(forall|r: Seq<(int, int)>| (done + seq![(j as int, e as int)]) + r =~= done + (seq![(j as int, e as int)] + r));
                            done = done + seq![(j as int, e as int)];
                            assert(out@[out@.len() - 1] == (t, Span { start: j, end: e }));
                        }
                        i = e;
                    },
                }
            },
        }
        }
    }
    proof {
        assert(skip_spaces(source@, i as int) == i as int);
        assert(scan(source@, i as int) == Ok::<Seq<(int, int)>, LexError>(seq![]));
        assert(done + seq![] =~= done);
        assert(toks_view(out@) =~= done.map_values(
            |p: (int, int)|
                (lexeme_of(source@.subrange(p.0, p.1)), Span { start: p.0 as usize, end: p.1 as usize }),
        ));
    }
    Ok(out)
}

impl<'a> Token<'a> {
    /// How the token is shown in messages.
    pub open spec fn text(self) -> Seq<char> {
        match self {
            Token::Int => "`int`"@,
            Token::Char => "`char`"@,
            Token::If => "`if`"@,
            Token::Else => "`else`"@,
            Token::While => "`while`"@,
            Token::For => "`for`"@,
            Token::Sizeof => "`sizeof`"@,
            Token::Return => "`return`"@,
            Token::Semicolon => "`;`"@,
            Token::Comma => "`,`"@,
            Token::Plus => "`+`"@,
            Token::Minus => "`-`"@,
            Token::Asterisk => "`*`"@,
            Token::Slash => "`/`"@,
            Token::And => "`&`"@,
            Token::Eq => "`==`"@,
            Token::NotEq => "`!=`"@,
            Token::Gte => "`>=`"@,
            Token::Gt => "`>`"@,
            Token::Lte => "`<=`"@,
            Token::Lt => "`<`"@,
            Token::Assign => "`=`"@,
            Token::LParen => "`(`"@,
            Token::RParen => "`)`"@,
            Token::LBrace => "`{`"@,
            Token::RBrace => "`}`"@,
            Token::LBracket => "`[`"@,
            Token::RBracket => "`]`"@,
            Token::Number(n) => "number `"@ + decimal_nat(n as nat) + "`"@,
            Token::Ident(x) => "identifier `"@ + x@ + "`"@,
            Token::String(x) => "string `"@ + x@ + "`"@,
        }
    }

    /// The text that shows the token in messages, such as `` `int` `` or `` number `42` ``.
    pub fn describe(&self) -> (r: String)
        ensures
            r@ == self.text(),
    {
        match self {
            Token::Int => String::from_str("`int`"),
            Token::Char => String::from_str("`char`"),
            Token::If => String::from_str("`if`"),
            Token::Else => String::from_str("`else`"),
            Token::While => String::from_str("`while`"),
            Token::For => String::from_str("`for`"),
            Token::Sizeof => String::from_str("`sizeof`"),
            Token::Return => String::from_str("`return`"),
            Token::Semicolon => String::from_str("`;`"),
            Token::Comma => String::from_str("`,`"),
            Token::Plus => String::from_str("`+`"),
            Token::Minus => String::from_str("`-`"),
            Token::Asterisk => String::from_str("`*`"),
            Token::Slash => String::from_str("`/`"),
            Token::And => String::from_str("`&`"),
            Token::Eq => String::from_str("`==`"),
            Token::NotEq => String::from_str("`!=`"),
            Token::Gte => String::from_str("`>=`"),
            Token::Gt => String::from_str("`>`"),
            Token::Lte => String::from_str("`<=`"),
            Token::Lt => String::from_str("`<`"),
            Token::Assign => String::from_str("`=`"),
            Token::LParen => String::from_str("`(`"),
            Token::RParen => String::from_str("`)`"),
            Token::LBrace => String::from_str("`{`"),
            Token::RBrace => String::from_str("`}`"),
            Token::LBracket => String::from_str("`[`"),
            Token::RBracket => String::from_str("`]`"),
            Token::Number(n) => {
                let mut r = String::from_str("number `");
                push_decimal_u64(&mut r, *n as u64);
                r.append("`");
                r
            },
            Token::Ident(x) => {
                let mut r = String::from_str("identifier `");
                r.append(x);
                r.append("`");
                r
            },
            Token::String(x) => {
                let mut r = String::from_str("string `");
                r.append(x);
                r.append("`");
                r
            },
        }
    }
}


/// Position `p` lies in one of the spans `sp`.
pub open spec fn covered(sp: Seq<(int, int)>, p: int) -> bool {
    exists|k: int| 0 <= k < sp.len() && (#[trigger] sp[k]).0 <= p < sp[k].1
}

proof fn lemma_skip_spaces(s: Seq<char>, i: int)
    requires
        0 <= i <= s.len(),
    ensures
        i <= skip_spaces(s, i) <= s.len(),
        forall|p: int| i <= p < skip_spaces(s, i) ==> is_space(#[trigger] s[p]),
    decreases s.len() - i,
{
    if i < s.len() && is_space(s[i]) {
        lemma_skip_spaces(s, i + 1);
    }
}

/// The spans that `scan` gives from `i` on lie in order within the text, each nonempty, and
/// every position from `i` on that none of them covers holds a blank.
proof fn lemma_scan_spans(s: Seq<char>, i: int)
    requires
        0 <= i <= s.len(),
    ensures
        scan(s, i) matches Ok(sp) ==> {
            &&& forall|k: int| 0 <= k < sp.len() ==> i <= (#[trigger] sp[k]).0 < sp[k].1 <= s.len()
            &&& forall|j: int, k: int| 0 <= j < k < sp.len() ==> (#[trigger] sp[j]).1 <= (#[trigger] sp[k]).0
            &&& forall|p: int| i <= p < s.len() && !covered(sp, p) ==> is_space(#[trigger] s[p])
        },
    decreases s.len() - i,
{
    lemma_skip_spaces(s, i);
    let j = skip_spaces(s, i);
    if j < s.len() {
        if let Some(e) = token_end(s, j) {
            if j < e <= s.len() {
                lemma_scan_spans(s, e);
                if let Ok(sp) = scan(s, i) {
                    let rest = scan(s, e)->Ok_0;
                    assert(sp == seq![(j, e)] + rest);
                    assert forall|k: int| 0 <= k < sp.len() implies i <= (#[trigger] sp[k]).0 < sp[k].1 <= s.len() by {
                        if k > 0 {
                            assert(sp[k] == rest[k - 1]);
                        }
                    }
                    assert forall|a: int, b: int| 0 <= a < b < sp.len() implies (#[trigger] sp[a]).1 <= (
                    #[trigger] sp[b]).0 by {
                        assert(sp[b] == rest[b - 1]);
                        if a > 0 {
                            assert(sp[a] == rest[a - 1]);
                        }
                    }
                    assert forall|p: int| i <= p < s.len() && !covered(sp, p) implies is_space(#[trigger] s[p]) by {
                        if p >= j {
                            assert(sp[0] == (j, e));
                            if p < e {
                                assert(covered(sp, p));
                            } else if covered(rest, p) {
                                let k = choose|k: int| 0 <= k < rest.len() && (#[trigger] rest[k]).0 <= p < rest[k].1;
                                assert(sp[k + 1] == rest[k]);
                                assert(covered(sp, p));
                            }
                        }
                    }
                }
            }
        }
    }
}

/// The tokens of a text lie in order within it, each at least one character long, and only
/// blanks stand outside them.
pub proof fn law_lex_spans(s: Seq<char>)
    requires
        s.len() <= usize::MAX,
    ensures
        lex_spec(s) matches Ok(ls) ==> {
            &&& forall|k: int| 0 <= k < ls.len() ==> (#[trigger] ls[k]).1.start < ls[k].1.end <= s.len()
            &&& forall|j: int, k: int| 0 <= j < k < ls.len() ==> (#[trigger] ls[j]).1.end <= (#[trigger] ls[k]).1.start
            &&& forall|p: int|
                0 <= p < s.len() && !(exists|k: int| 0 <= k < ls.len() && (#[trigger] ls[k]).1.start <= p
                    < ls[k].1.end) ==> is_space(#[trigger] s[p])
        },
{
    lemma_scan_spans(s, 0);
    if let Ok(ls) = lex_spec(s) {
        let sp = scan(s, 0)->Ok_0;
        assert forall|k: int| 0 <= k < ls.len() implies (#[trigger] ls[k]).1.start == sp[k].0 && ls[k].1.end
            == sp[k].1 by {
            assert(0 <= sp[k].0 < sp[k].1 <= s.len());
        }
        assert forall|p: int|
            0 <= p < s.len() && !(exists|k: int| 0 <= k < ls.len() && (#[trigger] ls[k]).1.start <= p
                < ls[k].1.end) implies is_space(#[trigger] s[p]) by {
            if covered(sp, p) {
                let k = choose|k: int| 0 <= k < sp.len() && (#[trigger] sp[k]).0 <= p < sp[k].1;
                assert(ls[k].1.start <= p < ls[k].1.end);
            }
        }
    }
}



/// The text that writes a token in a source: its keyword or sign, the digits of a number, the
/// name of an identifier, a string between its quotes.
pub open spec fn source_text(l: Lexeme) -> Seq<char> {
    match l {
        Lexeme::Int => kw_int(),
        Lexeme::Char => kw_char(),
        Lexeme::If => kw_if(),
        Lexeme::Else => kw_else(),
        Lexeme::While => kw_while(),
        Lexeme::For => kw_for(),
        Lexeme::Sizeof => kw_sizeof(),
        Lexeme::Return => kw_return(),
        Lexeme::Semicolon => seq![';'],
        Lexeme::Comma => seq![','],
        Lexeme::Number(n) => decimal_nat(n as nat),
        Lexeme::Ident(x) => x,
        Lexeme::String(x) => seq!['"'] + x + seq!['"'],
        Lexeme::Plus => seq!['+'],
        Lexeme::Minus => seq!['-'],
        Lexeme::Asterisk => seq!['*'],
        Lexeme::Slash => seq!['/'],
        Lexeme::And => seq!['&'],
        Lexeme::Eq => seq!['=', '='],
        Lexeme::NotEq => seq!['!', '='],
        Lexeme::Gte => seq!['>', '='],
        Lexeme::Gt => seq!['>'],
        Lexeme::Lte => seq!['<', '='],
        Lexeme::Lt => seq!['<'],
        Lexeme::Assign => seq!['='],
        Lexeme::LParen => seq!['('],
        Lexeme::RParen => seq![')'],
        Lexeme::LBrace => seq!['{'],
        Lexeme::RBrace => seq!['}'],
        Lexeme::LBracket => seq!['['],
        Lexeme::RBracket => seq![']'],
    }
}

/// A text that is one whole token, alone.
proof fn lemma_lex_one_word(w: Seq<char>)
    requires
        w.len() > 0,
        !is_space(w[0]),
        token_end(w, 0) == Some(w.len() as int),
        is_digit(w[0]) ==> digits_value(w) <= usize::MAX,
    ensures
        lex_spec(w) == Ok::<Seq<(Lexeme, Span)>, LexError>(
            seq![(lexeme_of(w), Span { start: 0, end: w.len() as usize })],
        ),
{
    assert(skip_spaces(w, 0) == 0);
    assert(skip_spaces(w, w.len() as int) == w.len());
    assert(scan(w, w.len() as int) == Ok::<Seq<(int, int)>, LexError>(seq![]));
    assert(w.subrange(0, w.len() as int) =~= w);
    let spans = seq![(0int, w.len() as int)];
    assert(spans + seq![] =~= spans);
    assert(scan(w, 0) == Ok::<Seq<(int, int)>, LexError>(spans));
    assert(spans.map_values(
        |p: (int, int)| (lexeme_of(w.subrange(p.0, p.1)), Span { start: p.0 as usize, end: p.1 as usize }),
    ) =~= seq![(lexeme_of(w), Span { start: 0, end: w.len() as usize })]);
}


/// A token other than a number, a name or a string is shown as its source text between
/// backquotes, and that text, lexed alone, is that token and nothing else.
pub proof fn law_token_text_lexes_back(t: Token)
    requires
        !(t is Number || t is Ident || t is String),
    ensures
        t.text() == "`"@ + source_text(t@) + "`"@,
        lex_spec(source_text(t@)) == Ok::<Seq<(Lexeme, Span)>, LexError>(
            seq![(t@, Span { start: 0, end: source_text(t@).len() as usize })],
        ),
{
    reveal_strlit("`int`");
    reveal_strlit("`char`");
    reveal_strlit("`if`");
    reveal_strlit("`else`");
    reveal_strlit("`while`");
    reveal_strlit("`for`");
    reveal_strlit("`sizeof`");
    reveal_strlit("`return`");
    reveal_strlit("`;`");
    reveal_strlit("`,`");
    reveal_strlit("`+`");
    reveal_strlit("`-`");
    reveal_strlit("`*`");
    reveal_strlit("`/`");
    reveal_strlit("`&`");
    reveal_strlit("`==`");
    reveal_strlit("`!=`");
    reveal_strlit("`>=`");
    reveal_strlit("`>`");
    reveal_strlit("`<=`");
    reveal_strlit("`<`");
    reveal_strlit("`=`");
    reveal_strlit("`(`");
    reveal_strlit("`)`");
    reveal_strlit("`{`");
    reveal_strlit("`}`");
    reveal_strlit("`[`");
    reveal_strlit("`]`");
    reveal_strlit("`");
    let w = source_text(t@);
    assert(t.text() =~= "`"@ + w + "`"@);
    reveal_with_fuel(ident_end, 8);
    assert(token_end(w, 0) == Some(w.len() as int));
    lemma_lex_one_word(w);
    match t {
        Token::Int => {

        },
        Token::Char => {
            assert(kw_char().len() != kw_int().len());
            assert(kw_char() != kw_int());
        },
        Token::If => {
            assert(kw_if().len() != kw_int().len());
            assert(kw_if() != kw_int());
            assert(kw_if().len() != kw_char().len());
            assert(kw_if() != kw_char());
        },
        Token::Else => {
            assert(kw_else().len() != kw_int().len());
            assert(kw_else() != kw_int());
            assert(kw_else()[0] != kw_char()[0]);
            assert(kw_else() != kw_char());
            assert(kw_else().len() != kw_if().len());
            assert(kw_else() != kw_if());
        },
        Token::While => {
            assert(kw_while().len() != kw_int().len());
            assert(kw_while() != kw_int());
            assert(kw_while().len() != kw_char().len());
            assert(kw_while() != kw_char());
            assert(kw_while().len() != kw_if().len());
            assert(kw_while() != kw_if());
            assert(kw_while().len() != kw_else().len());
            assert(kw_while() != kw_else());
        },
        Token::For => {
            assert(kw_for()[0] != kw_int()[0]);
            assert(kw_for() != kw_int());
            assert(kw_for().len() != kw_char().len());
            assert(kw_for() != kw_char());
            assert(kw_for().len() != kw_if().len());
            assert(kw_for() != kw_if());
            assert(kw_for().len() != kw_else().len());
            assert(kw_for() != kw_else());
            assert(kw_for().len() != kw_while().len());
            assert(kw_for() != kw_while());
        },
        Token::Sizeof => {
            assert(kw_sizeof().len() != kw_int().len());
            assert(kw_sizeof() != kw_int());
            assert(kw_sizeof().len() != kw_char().len());
            assert(kw_sizeof() != kw_char());
            assert(kw_sizeof().len() != kw_if().len());
            assert(kw_sizeof() != kw_if());
            assert(kw_sizeof().len() != kw_else().len());
            assert(kw_sizeof() != kw_else());
            assert(kw_sizeof().len() != kw_while().len());
            assert(kw_sizeof() != kw_while());
            assert(kw_sizeof().len() != kw_for().len());
            assert(kw_sizeof() != kw_for());
        },
        Token::Return => {
            assert(kw_return().len() != kw_int().len());
            assert(kw_return() != kw_int());
            assert(kw_return().len() != kw_char().len());
            assert(kw_return() != kw_char());
            assert(kw_return().len() != kw_if().len());
            assert(kw_return() != kw_if());
            assert(kw_return().len() != kw_else().len());
            assert(kw_return() != kw_else());
            assert(kw_return().len() != kw_while().len());
            assert(kw_return() != kw_while());
            assert(kw_return().len() != kw_for().len());
            assert(kw_return() != kw_for());
            assert(kw_return()[0] != kw_sizeof()[0]);
            assert(kw_return() != kw_sizeof());
        },
        _ => {},
    }
    assert(lexeme_of(w) == t@);
}

proof fn lemma_ident_end_all(s: Seq<char>, i: int)
    requires
        0 <= i <= s.len(),
        forall|j: int| i <= j < s.len() ==> is_ident_char(#[trigger] s[j]),
    ensures
        ident_end(s, i) == s.len(),
    decreases s.len() - i,
{
    if i < s.len() {
        lemma_ident_end_all(s, i + 1);
    }
}

proof fn lemma_digits_end_all(s: Seq<char>, i: int)
    requires
        0 <= i <= s.len(),
        forall|j: int| i <= j < s.len() ==> is_digit(#[trigger] s[j]),
    ensures
        digits_end(s, i) == s.len(),
    decreases s.len() - i,
{
    if i < s.len() {
        lemma_digits_end_all(s, i + 1);
    }
}

proof fn lemma_quote_end_none(s: Seq<char>, i: int, q: int)
    requires
        0 <= i <= q < s.len(),
        s[q] == '"',
        forall|j: int| i <= j < q ==> #[trigger] s[j] != '"',
    ensures
        quote_end(s, i) == q,
    decreases q - i,
{
    if i < q {
        lemma_quote_end_none(s, i + 1, q);
    }
}

/// The digits of a number have its value.
proof fn lemma_digits_value_decimal(n: nat)
    ensures
        digits_value(decimal_nat(n)) == n,
    decreases n,
{
    let d = n % 10;
    assert((crate::text::digit_char(d) as nat) == ('0' as nat) + d);
    if n >= 10 {
        lemma_digits_value_decimal(n / 10);
        assert(decimal_nat(n).drop_last() =~= decimal_nat(n / 10));
        assert(decimal_nat(n).last() == crate::text::digit_char(d));
        let w = decimal_nat(n);
        assert(digits_value(w) == digits_value(w.drop_last()) * 10 + ((w.last() as nat) - ('0' as nat)) as nat);
        assert(digits_value(w) == (n / 10) * 10 + d);
        assert((n / 10) * 10 + d == n) by (nonlinear_arith)
            requires
                d == n % 10,
        ;
    } else {
        let w = decimal_nat(n);
        assert(w.drop_last() =~= Seq::<char>::empty());
        assert(digits_value(w.drop_last()) == 0);
        assert(w.last() == crate::text::digit_char(d));
        assert(digits_value(w) == digits_value(w.drop_last()) * 10 + ((w.last() as nat) - ('0' as nat)) as nat);
    }
}

/// A number is shown as `number` and its digits between backquotes; its digits, lexed alone,
/// are that number.
pub proof fn law_number_text_lexes_back(n: usize)
    ensures
        Token::Number(n).text() == "number `"@ + source_text(Lexeme::Number(n)) + "`"@,
        lex_spec(source_text(Lexeme::Number(n))) == Ok::<Seq<(Lexeme, Span)>, LexError>(
            seq![(Lexeme::Number(n), Span { start: 0, end: source_text(Lexeme::Number(n)).len() as usize })],
        ),
{
    let w = decimal_nat(n as nat);
    crate::text::lemma_decimal_nat_len(n as nat);
    crate::text::lemma_decimal_nat_digits(n as nat);
    lemma_digits_end_all(w, 1);
    lemma_digits_value_decimal(n as nat);
    lemma_lex_one_word(w);
}

/// A name that is no keyword is shown as `identifier` and the name between backquotes; the
/// name, lexed alone, is that identifier.
pub proof fn law_ident_text_lexes_back(x: &str)
    requires
        x@.len() > 0,
        is_alpha(x@[0]),
        forall|j: int| 0 <= j < x@.len() ==> is_ident_char(#[trigger] x@[j]),
        !is_keyword(x@),
    ensures
        Token::Ident(x).text() == "identifier `"@ + source_text(Token::Ident(x)@) + "`"@,
        lex_spec(source_text(Token::Ident(x)@)) == Ok::<Seq<(Lexeme, Span)>, LexError>(
            seq![(Token::Ident(x)@, Span { start: 0, end: x@.len() as usize })],
        ),
{
    lemma_ident_end_all(x@, 1);
    lemma_lex_one_word(x@);
}

/// A string is shown as `string` and its text between backquotes; its text between quotes,
/// lexed alone, is that string, when the text holds no quote.
pub proof fn law_string_text_lexes_back(x: &str)
    requires
        forall|j: int| 0 <= j < x@.len() ==> #[trigger] x@[j] != '"',
    ensures
        Token::String(x).text() == "string `"@ + x@ + "`"@,
        lex_spec(source_text(Token::String(x)@)) == Ok::<Seq<(Lexeme, Span)>, LexError>(
            seq![(Token::String(x)@, Span { start: 0, end: (x@.len() + 2) as usize })],
        ),
{
    let w = seq!['"'] + x@ + seq!['"'];
    assert forall|j: int| 1 <= j < w.len() - 1 implies #[trigger] w[j] != '"' by {
        assert(w[j] == x@[j - 1]);
    }
    lemma_quote_end_none(w, 1, w.len() - 1);
    lemma_lex_one_word(w);
    assert(w.subrange(1, w.len() - 1) =~= x@);
}
} // verus!
