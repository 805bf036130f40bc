//! Unsigned decimal numbers as ASCII digit strings: what a digit string is
//! worth, reading one and writing one.

use vstd::prelude::*;

verus! {

/// Whether `b` is one of the ASCII digits `0` to `9`.
pub open spec fn is_digit(b: u8) -> bool {
    48 <= b <= 57
}

/// Whether every byte of `s` is an ASCII digit.
pub open spec fn all_digits(s: Seq<u8>) -> bool {
    forall|i: int| 0 <= i < s.len() ==> is_digit(#[trigger] s[i])
}

/// The number that the digit string `s` writes, most significant digit
/// first; leading zeros count for nothing and the empty string is worth 0.
pub open spec fn digits_value(s: Seq<u8>) -> nat
    decreases s.len(),
{
    if s.len() == 0 {
        0
    } else {
        10 * digits_value(s.drop_last()) + (s.last() - 48) as nat
    }
}

/// The shortest digit string that writes `v`: no leading zero, and `0` for
/// zero.
pub open spec fn digits_of(v: nat) -> Seq<u8>
    decreases v,
{
    if v < 10 {
        seq![(48 + v) as u8]
    } else {
        digits_of(v / 10).push((48 + v % 10) as u8)
    }
}

/// A longer digit string is worth no less than any of its prefixes.
pub proof fn lemma_prefix_value_le(s: Seq<u8>, k: int)
    requires
        0 <= k <= s.len(),
        all_digits(s),
    ensures
        digits_value(s.take(k)) <= digits_value(s),
    decreases s.len() - k,
{
    if k == s.len() {
        assert(s.take(k) =~= s);
    } else {
        lemma_prefix_value_le(s, k + 1);
        let t = s.take(k + 1);
        assert(t.drop_last() =~= s.take(k));
        assert(is_digit(s[k]));
        assert(t.last() == s[k]);
    }
}

/// Reading what `digits_of` wrote gives the number back.
pub proof fn lemma_digits_round_trip(v: nat)
    ensures
        digits_of(v).len() > 0,
        all_digits(digits_of(v)),
        digits_value(digits_of(v)) == v,
        v > 0 ==> digits_of(v)[0] != 48,
    decreases v,
{
    if v < 10 {
        let s = digits_of(v);
        assert(s.drop_last() =~= Seq::<u8>::empty());
        assert(digits_value(s.drop_last()) == 0);
    } else {
        lemma_digits_round_trip(v / 10);
        let s = digits_of(v);
        assert(s.drop_last() =~= digits_of(v / 10));
        assert(s.last() == (48 + v % 10) as u8);
        assert(s[0] == digits_of(v / 10)[0]);
    }
}

/// Ten to the `n`.
pub open spec fn pow10(n: nat) -> nat
    decreases n,
{
    if n == 0 {
        1
    } else {
        10 * pow10((n - 1) as nat)
    }
}

/// A digit string of `n` digits is worth less than ten to the `n`.
pub proof fn lemma_value_bound(s: Seq<u8>)
    requires
        all_digits(s),
    ensures
        digits_value(s) < pow10(s.len()),
    decreases s.len(),
{
    if s.len() > 0 {
        lemma_value_bound(s.drop_last());
        assert(is_digit(s.last()));
    }
}

/// Reads the digit string `s[from..to]`.
///
/// Gives the number when the range is not empty, holds digits only and the
/// number fits in a `u64`; gives `None` in every other case.
pub fn parse_digits(s: &[u8], from: usize, to: usize) -> (r: Option<u64>)
    requires
        from <= to <= s@.len(),
    ensures
        r is Some <==> from < to && all_digits(s@.subrange(from as int, to as int)) && digits_value(
            s@.subrange(from as int, to as int),
        ) <= u64::MAX,
        r is Some ==> r.unwrap() == digits_value(s@.subrange(from as int, to as int)),
{
    let ghost d = s@.subrange(from as int, to as int);
    if from == to {
        return None;
    }
    let mut acc: u64 = 0;
    let mut i: usize = from;
    while i < to
        invariant
            from <= i <= to <= s@.len(),
            d == s@.subrange(from as int, to as int),
            all_digits(d.take(i - from)),
            acc == digits_value(d.take(i - from)),
        decreases to - i,
    {
        let b: u8 = s[i];
        let ghost t = d.take(i - from + 1);
        proof {
            assert(t.drop_last() =~= d.take(i - from));
            assert(t.last() == b);
            assert(d[i - from] == b);
        }
        if b < 48 || b > 57 {
            return None;
        }
        let digit: u64 = (b - 48) as u64;
        proof {
            assert(all_digits(t)) by {
                assert forall|j: int| 0 <= j < t.len() implies is_digit(#[trigger] t[j]) by {
                    if j < t.len() - 1 {
                        assert(t[j] == d.take(i - from)[j]);
                    }
                }
            }
        }
        if acc > (u64::MAX - digit) / 10 {
            proof {
                assert(digits_value(t) > u64::MAX);
                if all_digits(d) {
                    lemma_prefix_value_le(d, i - from + 1);
                }
            }
            return None;
        }
        acc = acc * 10 + digit;
        i = i + 1;
    }
    proof {
        assert(d.take(to - from) =~= d);
    }
    Some(acc)
}

/// Appends the shortest digit string of `v` to `out`.
pub fn push_digits(out: &mut Vec<u8>, v: u64)
    ensures
        final(out)@ == old(out)@ + digits_of(v as nat),
    decreases v,
{
    if v >= 10 {
        push_digits(out, v / 10);
    }
    let d: u8 = (v % 10) as u8;
    out.push(48 + d);
    assert(out@ =~= old(out)@ + digits_of(v as nat));
}

} // verus!
