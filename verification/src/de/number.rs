//! The integers that number tokens spell.
use vstd::prelude::*;

use crate::constants::is_digit;
use crate::de::grammar::{digits_value, all_digits, integer_value};

verus! {

/// The value of a run of digits is at least that of any of its prefixes.
pub proof fn lemma_digits_value_prefix_le(s: Seq<u8>, k: int)
    requires
        0 <= k <= s.len(),
    ensures
        digits_value(s.take(k)) <= digits_value(s),
    decreases s.len(),
{
    if k < s.len() {
        assert(s.drop_last().take(k) =~= s.take(k));
        lemma_digits_value_prefix_le(s.drop_last(), k);
    } else {
        assert(s.take(k) =~= s);
    }
}

/// The largest magnitude that an integer of this library's types can have.
pub const MAGNITUDE_CAP: u128 = 0x1_0000_0000_0000_0000u128;

/// The value of the digits of `s` from `start` on, where it is at most `cap`.
fn digits_capped(s: &Vec<u8>, start: usize, cap: u128) -> (r: Option<u128>)
    requires
        start <= s.len(),
        all_digits(s@.skip(start as int)),
        cap <= MAGNITUDE_CAP,
    ensures
        r matches Some(x) ==> x == digits_value(s@.skip(start as int)) && x <= cap,
        r is None ==> digits_value(s@.skip(start as int)) > cap,
{
    let ghost t = s@.skip(start as int);
    let mut acc: u128 = 0;
    let mut k: usize = start;
    proof {
        assert(t.take(0).len() == 0);
    }
    while k < s.len()
        invariant
            start <= k <= s.len(),
            t == s@.skip(start as int),
            all_digits(t),
            cap <= MAGNITUDE_CAP,
            acc <= cap,
            acc == digits_value(t.take(k - start)),
        decreases s.len() - k,
    {
        let ghost m: int = k - start;
        let d = s[k];
        proof {
            assert(t[m] == d);
            assert(t.take(m + 1).drop_last() =~= t.take(m));
            assert(t.take(m + 1).last() == d);
        }
        acc = acc * 10 + (d - 0x30u8) as u128;
        k = k + 1;
        if acc > cap {
            proof {
                lemma_digits_value_prefix_le(t, m + 1);
            }
            return None;
        }
    }
    proof {
        assert(t.take(k - start) =~= t);
    }
    Some(acc)
}

/// Whether the bytes of `s` from `start` on are all decimal digits.
fn digits_from(s: &Vec<u8>, start: usize) -> (r: bool)
    requires
        start <= s.len(),
    ensures
        r == all_digits(s@.skip(start as int)),
{
    let mut k: usize = start;
    while k < s.len()
        invariant
            start <= k <= s.len(),
            forall|i: int| start <= i < k ==> #[trigger] crate::constants::spec_is_digit(s@[i]),
        decreases s.len() - k,
    {
        if !is_digit(s[k]) {
            proof {
                assert(s@.skip(start as int)[k - start] == s@[k as int]);
            }
            return false;
        }
        k = k + 1;
    }
    proof {
        assert forall|i: int| 0 <= i < s@.skip(start as int).len() implies crate::constants::spec_is_digit(
            #[trigger] s@.skip(start as int)[i],
        ) by {
            assert(s@.skip(start as int)[i] == s@[start + i]);
        }
    }
    true
}

/// The integer that the number token `token` spells, where it lies in
/// `[min, max]`: an optional `-` (read as a sign only where `signed`) and
/// one or more decimal digits.
pub fn token_integer(token: &Vec<u8>, signed: bool, min: i128, max: i128) -> (r: Option<i128>)
    requires
        -(MAGNITUDE_CAP as int) <= min,
        max <= MAGNITUDE_CAP,
    ensures
        r == (match integer_value(token@, signed) {
            Some(x) => if min <= x <= max { Some(x as i128) } else { None },
            None => None,
        }),
{
    let negative = signed && token.len() > 0 && token[0] == 0x2d;
    let start: usize = if negative { 1 } else { 0 };
    proof {
        assert(token@.skip(0) =~= token@);
        assert(token@.skip(1) =~= token@.drop_first()) by {
            if token@.len() > 0 {
            }
        }
    }
    if start >= token.len() {
        return None;
    }
    if !digits_from(token, start) {
        return None;
    }
    match digits_capped(token, start, MAGNITUDE_CAP) {
        None => None,
        Some(m) => {
            let x: i128 = if negative { -(m as i128) } else { m as i128 };
            if min <= x && x <= max {
                Some(x)
            } else {
                None
            }
        },
    }
}

} // verus!
