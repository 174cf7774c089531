//! Building text: characters, decimal numerals.
use vstd::prelude::*;
use vstd::string::*;

verus! {

/// The character of the decimal digit `d`.
pub open spec fn digit_char(d: nat) -> char
    recommends
        d < 10,
{
    (('0' as nat) + d) as char
}

/// The decimal numeral of `n`, without leading zeros.
pub open spec fn decimal_nat(n: nat) -> Seq<char>
    decreases n,
{
    if n < 10 {
        seq![digit_char(n)]
    } else {
        decimal_nat(n / 10).push(digit_char(n % 10))
    }
}

/// The decimal numeral of `n`, with a leading `-` when it is negative.
pub open spec fn decimal(n: int) -> Seq<char> {
    if n < 0 {
        seq!['-'] + decimal_nat((-n) as nat)
    } else {
        decimal_nat(n as nat)
    }
}

/// Whether two strings hold the same characters.
pub fn str_eq(a: &str, b: &str) -> (r: bool)
    ensures
        r == (a@ == b@),
{
    let x = crate::lexer::chars_of(a);
    let y = crate::lexer::chars_of(b);
    if x.len() != y.len() {
        return false;
    }
    let mut i: usize = 0;
    while i < x.len()
        invariant
            x@ == a@,
            y@ == b@,
            x@.len() == y@.len(),
            i <= x@.len(),
            forall|j: int| 0 <= j < i ==> x@[j] == y@[j],
        decreases x@.len() - i,
    {
        if x[i] != y[i] {
            return false;
        }
        i = i + 1;
    }
    assert(x@ =~= y@);
    true
}

/// Appends the digit of `d`.
fn push_digit(s: &mut String, d: u64)
    requires
        d < 10,
    ensures
        final(s)@ == old(s)@.push(digit_char(d as nat)),
{
    let t = match d {
        0 => "0",
        1 => "1",
        2 => "2",
        3 => "3",
        4 => "4",
        5 => "5",
        6 => "6",
        7 => "7",
        8 => "8",
        _ => "9",
    };
    proof {
        reveal_strlit("0");
        reveal_strlit("1");
        reveal_strlit("2");
        reveal_strlit("3");
        reveal_strlit("4");
        reveal_strlit("5");
        reveal_strlit("6");
        reveal_strlit("7");
        reveal_strlit("8");
        reveal_strlit("9");
        assert(t@ =~= seq![digit_char(d as nat)]);
    }
    s.append(t);
    assert(s@ =~= old(s)@.push(digit_char(d as nat)));
}

/// Appends the decimal numeral of `n`.
pub fn push_decimal_u64(s: &mut String, n: u64)
    ensures
        final(s)@ == old(s)@ + decimal_nat(n as nat),
    decreases n,
{
    if n >= 10 {
        push_decimal_u64(s, n / 10);
    }
    push_digit(s, n % 10);
}

/// Appends the decimal numeral of `n`, with its sign.
pub fn push_decimal_i64(s: &mut String, n: i64)
    ensures
        final(s)@ == old(s)@ + decimal(n as int),
{
    if n < 0 {
        s.append("-");
        proof {
            reveal_strlit("-");
        }
        let m: u64 = if n == i64::MIN {
            9223372036854775808u64
        } else {
            (-n) as u64
        };
        push_decimal_u64(s, m);
    } else {
        push_decimal_u64(s, n as u64);
    }
}


/// A numeral has at least one digit, and at least two from 10 on.
pub proof fn lemma_decimal_nat_len(n: nat)
    ensures
        decimal_nat(n).len() >= 1,
        n >= 10 ==> decimal_nat(n).len() >= 2,
    decreases n,
{
    if n >= 10 {
        lemma_decimal_nat_len(n / 10);
    }
}

/// Different numbers have different numerals.
pub proof fn lemma_decimal_nat_injective(a: nat, b: nat)
    requires
        decimal_nat(a) == decimal_nat(b),
    ensures
        a == b,
    decreases a,
{
    lemma_decimal_nat_len(a);
    lemma_decimal_nat_len(b);
    if a >= 10 && b >= 10 {
        let da = decimal_nat(a);
        let db = decimal_nat(b);
        assert(da.drop_last() == decimal_nat(a / 10));
        assert(db.drop_last() == decimal_nat(b / 10));
        assert(da.last() == digit_char(a % 10));
        assert(db.last() == digit_char(b % 10));
        lemma_decimal_nat_injective(a / 10, b / 10);
    } else if a < 10 && b < 10 {
        assert(decimal_nat(a)[0] == digit_char(a));
        assert(decimal_nat(b)[0] == digit_char(b));
    }
}


/// A numeral is made of decimal digits.
pub proof fn lemma_decimal_nat_digits(n: nat)
    ensures
        forall|i: int| 0 <= i < decimal_nat(n).len() ==> '0' <= #[trigger] decimal_nat(n)[i] <= '9',
    decreases n,
{
    if n >= 10 {
        lemma_decimal_nat_digits(n / 10);
        assert forall|i: int| 0 <= i < decimal_nat(n).len() implies '0' <= #[trigger] decimal_nat(n)[i] <= '9' by {
            if i < decimal_nat(n / 10).len() {
                assert(decimal_nat(n)[i] == decimal_nat(n / 10)[i]);
            }
        }
    }
}

} // verus!
