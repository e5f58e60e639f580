//! Decimal fields of fixed-column text, read as bytes.
use vstd::prelude::*;

verus! {

pub open spec fn is_digit(b: u8) -> bool {
    48 <= b <= 57
}

pub open spec fn all_digits(s: Seq<u8>) -> bool {
    forall|i: int| 0 <= i < s.len() ==> is_digit(#[trigger] s[i])
}

/// The number that a string of decimal digits spells.
pub open spec fn digits_value(s: Seq<u8>) -> nat
    decreases s.len(),
{
    if s.len() == 0 {
        0
    } else {
        digits_value(s.drop_last()) * 10 + (s.last() - 48) as nat
    }
}

pub open spec fn pow10(n: nat) -> nat
    decreases n,
{
    if n == 0 { 1 } else { 10 * pow10((n - 1) as nat) }
}

/// The most digits that `read_digits` takes.
pub const MAX_DIGITS: usize = 18;

pub proof fn lemma_pow10_monotone(a: nat, b: nat)
    requires
        a <= b,
    ensures
        1 <= pow10(a) <= pow10(b),
    decreases b,
{
    if b > 0 {
        if a < b {
            lemma_pow10_monotone(a, (b - 1) as nat);
        } else {
            lemma_pow10_monotone((b - 1) as nat, (b - 1) as nat);
        }
    }
}

pub proof fn lemma_pow10_max()
    ensures
        pow10(MAX_DIGITS as nat) == 1_000_000_000_000_000_000,
{
    reveal_with_fuel(pow10, 19);
}

pub proof fn lemma_digits_bound(s: Seq<u8>)
    requires
        all_digits(s),
    ensures
        digits_value(s) < pow10(s.len()),
    decreases s.len(),
{
    if s.len() > 0 {
        lemma_digits_bound(s.drop_last());
    }
}

/// Reads `s[lo..hi]` as an unsigned decimal number: `None` where the range is
/// empty, longer than `MAX_DIGITS` or holds anything but digits.
pub fn read_digits(s: &[u8], lo: usize, hi: usize) -> (r: Option<u64>)
    requires
        lo <= hi <= s@.len(),
    ensures
        r matches Some(v) ==> v == digits_value(s@.subrange(lo as int, hi as int)) && v < pow10(
            (hi - lo) as nat,
        ),
        r is Some <==> (lo < hi && hi - lo <= MAX_DIGITS && all_digits(
            s@.subrange(lo as int, hi as int),
        )),
{
    if lo == hi || hi - lo > MAX_DIGITS {
        return None;
    }
    let mut v: u64 = 0;
    let mut i: usize = lo;
    while i < hi
        invariant
            lo <= i <= hi <= s@.len(),
            hi - lo <= MAX_DIGITS,
            all_digits(s@.subrange(lo as int, i as int)),
            v == digits_value(s@.subrange(lo as int, i as int)),
            v < pow10((i - lo) as nat),
        decreases hi - i,
    {
        let b = s[i];
        if b < 48 || b > 57 {
            assert(s@.subrange(lo as int, hi as int)[i - lo] == b);
            return None;
        }
        proof {
            let t = s@.subrange(lo as int, i as int + 1);
            assert(t.drop_last() =~= s@.subrange(lo as int, i as int));
            lemma_pow10_monotone((i + 1 - lo) as nat, MAX_DIGITS as nat);
            lemma_pow10_max();
            assert(pow10((i + 1 - lo) as nat) == 10 * pow10((i - lo) as nat));
        }
        v = v * 10 + (b - 48) as u64;
        i = i + 1;
        assert(all_digits(s@.subrange(lo as int, i as int))) by {
            assert forall|k: int| 0 <= k < i - lo implies is_digit(
                #[trigger] s@.subrange(lo as int, i as int)[k],
            ) by {
                if k < i - 1 - lo {
                    assert(s@.subrange(lo as int, i as int)[k] == s@.subrange(
                        lo as int,
                        i - 1,
                    )[k]);
                }
            }
        }
    }
    Some(v)
}

} // verus!
