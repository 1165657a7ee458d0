//! Decimal numbers given as text, such as a threshold in milliseconds.
use vstd::prelude::*;
use crate::MatchError;
use crate::timestamp::{digit_value, is_digit};

verus! {

/// The value of a string of decimal digits.
pub open spec fn decimal_value(s: Seq<char>) -> int
    decreases s.len(),
{
    if s.len() == 0 {
        0
    } else {
        decimal_value(s.drop_last()) * 10 + digit_value(s.last())
    }
}

pub open spec fn all_digits(s: Seq<char>) -> bool {
    forall|i: int| 0 <= i < s.len() ==> is_digit(#[trigger] s[i])
}

/// The text without a leading `+`, which a `u64` may carry.
pub open spec fn unsigned_digits(s: Seq<char>) -> Seq<char> {
    if s.len() > 0 && s[0] == '+' {
        s.skip(1)
    } else {
        s
    }
}

/// The text is a `u64` written in decimal: an optional `+`, then one or more
/// digits whose value fits.
pub open spec fn is_u64_text(s: Seq<char>) -> bool {
    let d = unsigned_digits(s);
    d.len() > 0 && all_digits(d) && decimal_value(d) <= u64::MAX
}

proof fn lemma_decimal_monotone(s: Seq<char>, k: int)
    requires
        all_digits(s),
        0 <= k <= s.len(),
    ensures
        decimal_value(s.take(k)) <= decimal_value(s),
        0 <= decimal_value(s.take(k)),
    decreases s.len() - k,
{
    if k < s.len() {
        lemma_decimal_monotone(s, k + 1);
        assert(s.take(k + 1).drop_last() =~= s.take(k));
        assert(is_digit(s[k]));
    } else {
        assert(s.take(k) =~= s);
        lemma_decimal_nonneg(s);
    }
}

proof fn lemma_decimal_nonneg(s: Seq<char>)
    requires
        all_digits(s),
    ensures
        0 <= decimal_value(s),
    decreases s.len(),
{
    if s.len() > 0 {
        assert(is_digit(s.last()));
        lemma_decimal_nonneg(s.drop_last());
    }
}

/// Reads a number of milliseconds written in decimal, as a `u64`.
pub fn parse_duration_millis(arg: &str) -> (r: Result<u64, MatchError>)
    ensures
        r is Ok <==> is_u64_text(arg@),
        r matches Ok(v) ==> v as int == decimal_value(unsigned_digits(arg@)),
        r matches Err(e) ==> e == MatchError::InvalidNumber,
{
    let n = arg.unicode_len();
    let mut start: usize = 0;
    if n > 0 && arg.get_char(0) == '+' {
        start = 1;
    }
    let ghost d = unsigned_digits(arg@);
    proof {
        if start == 1 {
            assert(d =~= arg@.skip(1));
        }
    }
    if start == n {
        proof {
            assert(d.len() == 0);
        }
        return Err(MatchError::InvalidNumber);
    }
    let mut acc: u64 = 0;
    let mut i: usize = start;
    while i < n
        invariant
            n == arg@.len(),
            start <= i <= n,
            start < n,
            d == arg@.skip(start as int),
            d == unsigned_digits(arg@),
            all_digits(d.take(i - start)),
            acc as int == decimal_value(d.take(i - start)),
        decreases n - i,
    {
        let c = arg.get_char(i);
        proof {
            assert(d[i - start] == c);
            assert(d.take(i - start + 1).drop_last() =~= d.take(i - start));
            assert(d.take(i - start + 1).last() == c);
        }
        let code = c as u32;
        if !(48 <= code && code <= 57) {
            proof {
                assert(!is_digit(d[i - start]));
            }
            return Err(MatchError::InvalidNumber);
        }
        let dg = (code - 48) as u64;
        if acc > (u64::MAX - dg) / 10 {
            proof {
                assert(acc * 10 + dg > u64::MAX) by (nonlinear_arith)
                    requires
                        acc > (u64::MAX - dg) / 10,
                        dg <= 9,
                ;
                if all_digits(d) {
                    lemma_decimal_monotone(d, i - start + 1);
                    assert(decimal_value(d.take(i - start + 1)) == acc * 10 + dg);
                }
            }
            return Err(MatchError::InvalidNumber);
        }
        acc = acc * 10 + dg;
        i = i + 1;
    }
    proof {
        assert(d.take(i - start) =~= d);
    }
    Ok(acc)
}

} // verus!
