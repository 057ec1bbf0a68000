//! Field elements from text.

use crate::field::Field;
use vstd::arithmetic::div_mod::{lemma_add_mod_noop, lemma_mul_mod_noop, lemma_small_mod};
use vstd::prelude::*;
use vstd::string::StrSliceExecFns;

verus! {

/// The value of a digit: `0` to `9`, then the letters in either case.
pub open spec fn digit_value(c: char) -> Option<int> {
    let n = c as int;
    if 48 <= n <= 57 {
        Some(n - 48)
    } else if 97 <= n <= 122 {
        Some(n - 87)
    } else if 65 <= n <= 90 {
        Some(n - 55)
    } else {
        None
    }
}

/// Every character is a digit of the radix.
pub open spec fn is_numeral(s: Seq<char>, radix: int) -> bool {
    forall|i: int|
        0 <= i < s.len() ==> digit_value(#[trigger] s[i]) is Some && digit_value(s[i]).unwrap()
            < radix
}

/// The number that the digits write in the radix.
pub open spec fn numeral_value(s: Seq<char>, radix: int) -> int
    decreases s.len(),
{
    if s.len() == 0 {
        0
    } else {
        numeral_value(s.drop_last(), radix) * radix + digit_value(s.last()).unwrap()
    }
}

/// The text without any `0x` at its start.
pub open spec fn without_prefix(s: Seq<char>) -> Seq<char>
    decreases s.len(),
{
    if s.len() >= 2 && s[0] == '0' && s[1] == 'x' {
        without_prefix(s.skip(2))
    } else {
        s
    }
}

/// The value of a digit, where the character is one.
fn digit_of(c: char) -> (r: Option<u64>)
    ensures
        match r {
            Some(d) => digit_value(c) == Some(d as int),
            None => digit_value(c) is None,
        },
{
    let n = c as u32;
    if 48 <= n && n <= 57 {
        Some((n - 48) as u64)
    } else if 97 <= n && n <= 122 {
        Some((n - 87) as u64)
    } else if 65 <= n && n <= 90 {
        Some((n - 55) as u64)
    } else {
        None
    }
}

impl Field {
    /// The field element that `text` writes in the radix, reduced. There
    /// is none for a radix outside 2 to 36, for an empty text, and for a
    /// text with a character that is no digit of the radix.
    pub fn try_from_str(&self, text: &str, radix: u64) -> (r: Option<u64>)
        requires
            self.wf(),
        ensures
            match r {
                Some(x) => 2 <= radix <= 36 && text@.len() > 0 && is_numeral(text@, radix as int)
                    && x == numeral_value(text@, radix as int) % (self.modulus as int),
                None => !(2 <= radix <= 36 && text@.len() > 0 && is_numeral(text@, radix as int)),
            },
    {
        let n = text.unicode_len();
        if radix < 2 || radix > 36 || n == 0 {
            return None;
        }
        let ghost s = text@;
        let ghost p = self.modulus as int;
        let base = self.reduce(radix);
        let mut acc: u64 = 0;
        let mut i: usize = 0;
        proof {
            assert(s.take(0) == Seq::<char>::empty());
            lemma_small_mod(0, p as nat);
        }
        while i < n
            invariant
                i <= n,
                n == s.len(),
                s == text@,
                self.wf(),
                p == self.modulus as int,
                2 <= radix <= 36,
                base == radix as int % p,
                acc < p,
                is_numeral(s.take(i as int), radix as int),
                acc == numeral_value(s.take(i as int), radix as int) % p,
            decreases n - i,
        {
            let c = text.get_char(i);
            let ghost prefix = s.take(i as int);
            let ghost next = s.take(i + 1);
            proof {
                assert(next.drop_last() == prefix);
                assert(next.last() == c);
            }
            let d = match digit_of(c) {
                Some(d) => d,
                None => {
                    assert(digit_value(s[i as int]) is None);
                    return None;
                },
            };
            if d >= radix {
                assert(!(digit_value(s[i as int]).unwrap() < radix));
                return None;
            }
            let shifted = self.mul(acc, base);
            let digit = self.reduce(d);
            let updated = self.add(shifted, digit);
            proof {
                let v = numeral_value(prefix, radix as int);
                lemma_mul_mod_noop(v, radix as int, p);
                lemma_small_mod(acc as nat, p as nat);
                assert(shifted == (v * radix) % p);
                lemma_add_mod_noop(v * radix, d as int, p);
                assert(updated == (v * radix + d) % p);
                assert forall|k: int| 0 <= k < next.len() implies digit_value(
                    #[trigger] next[k],
                ) is Some && digit_value(next[k]).unwrap() < radix by {
                    if k < i {
                        assert(prefix[k] == next[k]);
                    }
                }
            }
            acc = updated;
            i += 1;
        }
        assert(s.take(i as int) == s);
        Some(acc)
    }

    /// The field element that `text` writes in decimal notation.
    pub fn try_from_dec_str(&self, text: &str) -> (r: Option<u64>)
        requires
            self.wf(),
        ensures
            match r {
                Some(x) => text@.len() > 0 && is_numeral(text@, 10) && x == numeral_value(text@, 10)
                    % (self.modulus as int),
                None => !(text@.len() > 0 && is_numeral(text@, 10)),
            },
    {
        self.try_from_str(text, 10)
    }
}

/// The text without any `0x` at its start.
pub fn strip_hex_prefix(text: &str) -> (r: &str)
    ensures
        r@ == without_prefix(text@),
{
    let n = text.unicode_len();
    let mut start: usize = 0;
    assert(text@.skip(0) == text@);
    while n - start >= 2 && text.get_char(start) == '0' && text.get_char(start + 1) == 'x'
        invariant
            start <= n,
            n == text@.len(),
            without_prefix(text@.skip(start as int)) == without_prefix(text@),
        decreases n - start,
    {
        proof {
            let rest = text@.skip(start as int);
            assert(rest[0] == text@[start as int]);
            assert(rest[1] == text@[start + 1]);
            assert(rest.skip(2) == text@.skip(start + 2));
        }
        start += 2;
    }
    proof {
        let rest = text@.skip(start as int);
        if n - start >= 2 {
            assert(rest[0] == text@[start as int]);
            assert(rest[1] == text@[start + 1]);
        }
        assert(text@.subrange(start as int, n as int) == rest);
    }
    text.substring_char(start, n)
}

} // verus!
