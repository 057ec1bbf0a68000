//! Numbers as text, and sequences that start others.

use vstd::prelude::*;
use vstd::string::StringExecFns;

verus! {

/// The character of a decimal digit.
pub open spec fn digit(d: int) -> char {
    if d == 0 {
        '0'
    } else if d == 1 {
        '1'
    } else if d == 2 {
        '2'
    } else if d == 3 {
        '3'
    } else if d == 4 {
        '4'
    } else if d == 5 {
        '5'
    } else if d == 6 {
        '6'
    } else if d == 7 {
        '7'
    } else if d == 8 {
        '8'
    } else {
        '9'
    }
}

/// The decimal digits of `n`, without leading zeros.
pub open spec fn decimal(n: nat) -> Seq<char>
    decreases n,
{
    if n < 10 {
        seq![digit(n as int)]
    } else {
        decimal(n / 10).push(digit((n % 10) as int))
    }
}

/// One decimal digit as text.
fn digit_text(d: u64) -> (r: &'static str)
    requires
        d < 10,
    ensures
        r@ == seq![digit(d as int)],
{
    proof {
        reveal_strlit("0");
        reveal_strlit("1");
        reveal_strlit("2");
        reveal_strlit("3");
        reveal_strlit("4");
        reveal_strlit("5");
        reveal_strlit("6");
        reveal_strlit("7");
        reveal_strlit("8");
        reveal_strlit("9");
    }
    let r = if d == 0 {
        "0"
    } else if d == 1 {
        "1"
    } else if d == 2 {
        "2"
    } else if d == 3 {
        "3"
    } else if d == 4 {
        "4"
    } else if d == 5 {
        "5"
    } else if d == 6 {
        "6"
    } else if d == 7 {
        "7"
    } else if d == 8 {
        "8"
    } else {
        "9"
    };
    assert(r@ =~= seq![digit(d as int)]);
    r
}

/// The number in decimal notation.
pub fn decimal_text(n: u64) -> (r: String)
    ensures
        r@ == decimal(n as nat),
    decreases n,
{
    if n < 10 {
        String::from_str(digit_text(n))
    } else {
        let mut text = decimal_text(n / 10);
        text.append(digit_text(n % 10));
        assert(decimal((n / 10) as nat) + seq![digit((n % 10) as int)] =~= decimal(
            (n / 10) as nat,
        ).push(digit((n % 10) as int)));
        text
    }
}

} // verus!

verus! {

/// The first sequence is the start of the second.
pub open spec fn starts<T>(a: Seq<T>, b: Seq<T>) -> bool {
    a.len() <= b.len() && b.take(a.len() as int) == a
}

pub proof fn lemma_starts_append<T>(a: Seq<T>, b: Seq<T>)
    ensures
        starts(a, a + b),
{
    assert((a + b).take(a.len() as int) == a);
}

pub proof fn lemma_starts_transitive<T>(a: Seq<T>, b: Seq<T>, c: Seq<T>)
    requires
        starts(a, b),
        starts(b, c),
    ensures
        starts(a, c),
{
    assert(c.take(a.len() as int) == c.take(b.len() as int).take(a.len() as int));
}

/// A sequence starts every sequence that is made of it by one more
/// element.
pub proof fn lemma_starts_push<T>(a: Seq<T>, x: T)
    ensures
        starts(a, a.push(x)),
{
    assert(a.push(x).take(a.len() as int) == a);
}

/// A sequence starts itself.
pub proof fn lemma_starts_self<T>(a: Seq<T>)
    ensures
        starts(a, a),
{
    assert(a.take(a.len() as int) == a);
}

} // verus!
