//! Decimal parsing for the request's textual dimension field.

use vstd::prelude::*;
use vstd::string::StringSliceAdditionalSpecFns;

verus! {

/// The value of a decimal digit string, most significant digit first.
pub open spec fn digits_val(bs: Seq<u8>) -> int
    decreases bs.len(),
{
    if bs.len() == 0 {
        0
    } else {
        digits_val(bs.drop_last()) * 10 + (bs.last() - 48)
    }
}

/// Every byte is a decimal digit.
pub open spec fn all_digits(bs: Seq<u8>) -> bool {
    forall|i: int| 0 <= i < bs.len() ==> 48 <= #[trigger] bs[i] <= 57
}

/// The number a byte string denotes: a non-empty run of decimal digits
/// whose value fits the machine word, and nothing else.
pub open spec fn spec_usize(bs: Seq<u8>) -> Option<usize> {
    if bs.len() == 0 || !all_digits(bs) || digits_val(bs) > usize::MAX {
        None
    } else {
        Some(digits_val(bs) as usize)
    }
}

proof fn lemma_digits_val_nonneg(bs: Seq<u8>)
    requires
        all_digits(bs),
    ensures
        digits_val(bs) >= 0,
    decreases bs.len(),
{
    if bs.len() > 0 {
        assert(all_digits(bs.drop_last()));
        lemma_digits_val_nonneg(bs.drop_last());
    }
}

proof fn lemma_digits_val_take_step(bs: Seq<u8>, i: int)
    requires
        0 <= i < bs.len(),
    ensures
        digits_val(bs.take(i + 1)) == digits_val(bs.take(i)) * 10 + (bs[i] - 48),
{
    assert(bs.take(i + 1).drop_last() =~= bs.take(i));
    assert(bs.take(i + 1).last() == bs[i]);
}

proof fn lemma_digits_val_grows(bs: Seq<u8>, k: int)
    requires
        all_digits(bs),
        0 <= k <= bs.len(),
    ensures
        digits_val(bs) >= digits_val(bs.take(k)),
    decreases bs.len() - k,
{
    if k == bs.len() {
        assert(bs.take(k) =~= bs);
    } else {
        assert(all_digits(bs.take(k))) by {
            assert(forall|i: int| 0 <= i < k ==> bs.take(k)[i] == bs[i]);
        }
        lemma_digits_val_take_step(bs, k);
        lemma_digits_val_nonneg(bs.take(k));
        assert(digits_val(bs.take(k + 1)) >= digits_val(bs.take(k))) by (nonlinear_arith)
            requires
                digits_val(bs.take(k + 1)) == digits_val(bs.take(k)) * 10 + (bs[k] - 48),
                digits_val(bs.take(k)) >= 0,
                48 <= bs[k] <= 57,
        ;
        lemma_digits_val_grows(bs, k + 1);
    }
}

/// Parses a decimal number.  Returns `None` for an empty string, any
/// non-digit byte, or a value that does not fit the machine word.
#[verifier::loop_isolation(false)]
pub fn parse_usize(s: &str) -> (r: Option<usize>)
    ensures
        r == spec_usize(s.spec_bytes()),
{
    let bs = s.as_bytes();
    let n = bs.len();
    if n == 0 {
        return None;
    }
    let mut acc: usize = 0;
    let mut i: usize = 0;
    while i < n
        invariant
            i <= n,
            n == s.spec_bytes().len(),
            bs@ == s.spec_bytes(),
            all_digits(bs@.take(i as int)),
            acc == digits_val(bs@.take(i as int)),
        decreases n - i,
    {
        let b = bs[i];
        if b < 48 || b > 57 {
            proof {
                assert(!all_digits(bs@));
            }
            return None;
        }
        let d = (b - 48) as usize;
        proof {
            lemma_digits_val_take_step(bs@, i as int);
            assert(all_digits(bs@.take(i as int + 1))) by {
                assert(forall|k: int|
                    0 <= k < i as int + 1 ==> bs@.take(i as int + 1)[k] == bs@[k]);
            }
        }
        let shifted = match acc.checked_mul(10) {
            Some(v) => v,
            None => {
                proof {
                    lemma_overflow(bs@, i as int);
                }
                return None;
            },
        };
        let next = match shifted.checked_add(d) {
            Some(v) => v,
            None => {
                proof {
                    lemma_overflow(bs@, i as int);
                }
                return None;
            },
        };
        acc = next;
        i += 1;
    }
    proof {
        assert(bs@.take(n as int) =~= bs@);
    }
    Some(acc)
}

/// A digit string whose prefix already exceeds the machine word exceeds it
/// as a whole.
proof fn lemma_overflow(bs: Seq<u8>, i: int)
    requires
        0 <= i < bs.len(),
        all_digits(bs.take(i)),
        48 <= bs[i] <= 57,
        digits_val(bs.take(i)) * 10 + (bs[i] - 48) > usize::MAX,
    ensures
        spec_usize(bs) is None,
{
    if all_digits(bs) {
        lemma_digits_val_take_step(bs, i);
        lemma_digits_val_grows(bs, i + 1);
    }
}

} // verus!
