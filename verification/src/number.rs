//! Fixed-point numbers as text: an unsigned decimal with up to six places
//! behind the point, read into millionths and written back.

use crate::bytes::{find_byte, first_index, holds, lemma_first_index};
use crate::decimal::{
    all_digits, digits_of, digits_value, is_digit, lemma_digits_round_trip, parse_digits, pow10,
    push_digits,
};
use vstd::prelude::*;

verus! {

/// The byte `.`.
pub const POINT: u8 = 0x2e;

/// The digit string of exactly `n` digits that writes `v`, with zeros in
/// front where `v` is short. Of a longer `v` the last `n` digits are kept.
pub open spec fn fixed_digits(v: nat, n: nat) -> Seq<u8>
    decreases n,
{
    if n == 0 {
        Seq::empty()
    } else {
        fixed_digits(v / 10, (n - 1) as nat).push((48 + v % 10) as u8)
    }
}

/// The millionths that the digits behind the point are worth: the first
/// six count, any further digit is dropped.
pub open spec fn frac_value(fp: Seq<u8>) -> nat {
    if fp.len() >= 6 {
        digits_value(fp.take(6))
    } else {
        digits_value(fp) * pow10((6 - fp.len()) as nat)
    }
}

/// The millionths that the text `s` is worth, where `s` is a number: one
/// or more digits, or one or more digits, a point and one or more digits.
pub open spec fn number_value(s: Seq<u8>) -> Option<nat> {
    let dot = first_index(s, POINT);
    if dot == s.len() {
        if s.len() > 0 && all_digits(s) {
            Some(digits_value(s) * 1_000_000)
        } else {
            None
        }
    } else {
        let ip = s.take(dot);
        let fp = s.skip(dot + 1);
        if ip.len() > 0 && fp.len() > 0 && all_digits(ip) && all_digits(fp) {
            Some(digits_value(ip) * 1_000_000 + frac_value(fp))
        } else {
            None
        }
    }
}

/// The text that writes `v` millionths: the whole part without leading
/// zeros and, unless the rest is zero, a point and six digits.
pub open spec fn number_text(v: nat) -> Seq<u8> {
    if v % 1_000_000 == 0 {
        digits_of(v / 1_000_000)
    } else {
        digits_of(v / 1_000_000).push(POINT) + fixed_digits(v % 1_000_000, 6)
    }
}

/// `fixed_digits` writes `n` digits, which are worth `v` where `v` has no
/// more than `n` digits.
pub proof fn lemma_fixed_digits(v: nat, n: nat)
    ensures
        fixed_digits(v, n).len() == n,
        all_digits(fixed_digits(v, n)),
        v < pow10(n) ==> digits_value(fixed_digits(v, n)) == v,
    decreases n,
{
    if n > 0 {
        lemma_fixed_digits(v / 10, (n - 1) as nat);
        let s = fixed_digits(v, n);
        assert(s.drop_last() =~= fixed_digits(v / 10, (n - 1) as nat));
        assert(s.last() == (48 + v % 10) as u8);
        assert forall|i: int| 0 <= i < s.len() implies is_digit(#[trigger] s[i]) by {
            if i < s.len() - 1 {
                assert(s[i] == s.drop_last()[i]);
            }
        }
    }
}

/// No digit string holds a point.
pub proof fn lemma_digits_hold_no_point(s: Seq<u8>)
    requires
        all_digits(s),
    ensures
        !holds(s, POINT),
        first_index(s, POINT) == s.len(),
{
    assert forall|j: int| 0 <= j < s.len() implies s[j] != POINT by {
        assert(is_digit(s[j]));
    }
    lemma_first_index(s, POINT, s.len() as int);
}

/// Reading what `number_text` wrote gives the millionths back.
pub proof fn lemma_number_round_trip(v: nat)
    ensures
        number_value(number_text(v)) == Some(v),
        number_text(v).len() > 0,
        is_digit(number_text(v)[0]),
        forall|i: int|
            0 <= i < number_text(v).len() ==> is_digit(#[trigger] number_text(v)[i])
                || number_text(v)[i] == POINT,
{
    let w = v / 1_000_000;
    let f = v % 1_000_000;
    lemma_digits_round_trip(w);
    let ip = digits_of(w);
    assert(is_digit(ip[0]));
    if f == 0 {
        lemma_digits_hold_no_point(ip);
    } else {
        assert(pow10(6) == 1_000_000) by {
            reveal_with_fuel(pow10, 7);
        }
        lemma_fixed_digits(f, 6);
        let fp = fixed_digits(f, 6);
        let s = number_text(v);
        assert(s.len() == ip.len() + 7);
        assert forall|j: int| 0 <= j < ip.len() implies s[j] != POINT by {
            assert(s[j] == ip[j]);
            assert(is_digit(ip[j]));
        }
        assert(s[ip.len() as int] == POINT);
        lemma_first_index(s, POINT, ip.len() as int);
        assert(s.take(ip.len() as int) =~= ip);
        assert(s.skip(ip.len() as int + 1) =~= fp);
        assert(fp.take(6) =~= fp);
        assert(s[0] == ip[0]);
        assert forall|i: int| 0 <= i < s.len() implies is_digit(#[trigger] s[i]) || s[i]
            == POINT by {
            if i < ip.len() {
                assert(s[i] == ip[i]);
            } else if i > ip.len() {
                assert(s[i] == fp[i - ip.len() - 1]);
            }
        }
    }
}

/// Reads the digits behind the point, `s[from..to]`, into millionths.
/// `None` when the range is empty or holds anything but digits.
fn parse_frac(s: &[u8], from: usize, to: usize) -> (r: Option<u64>)
    requires
        from <= to <= s@.len(),
    ensures
        r is Some <==> from < to && all_digits(s@.subrange(from as int, to as int)),
        r is Some ==> r.unwrap() == frac_value(s@.subrange(from as int, to as int))
            && r.unwrap() < 1_000_000,
{
    let ghost d = s@.subrange(from as int, to as int);
    if from == to {
        return None;
    }
    proof {
        reveal_with_fuel(pow10, 7);
    }
    let mut acc: u64 = 0;
    let mut i: usize = from;
    while i < to
        invariant
            from <= i <= to <= s@.len(),
            d == s@.subrange(from as int, to as int),
            all_digits(d.take(i - from)),
            i - from <= 6 ==> acc == digits_value(d.take(i - from)),
            i - from > 6 ==> acc == digits_value(d.take(6)),
            i - from <= 6 ==> acc < pow10((i - from) as nat),
            acc < 1_000_000,
        decreases to - i,
    {
        let b: u8 = s[i];
        let ghost t = d.take(i - from + 1);
        proof {
            assert(t.drop_last() =~= d.take(i - from));
            assert(t.last() == b);
            assert(d[i - from] == b);
        }
        if b < 48 || b > 57 {
            return None;
        }
        proof {
            assert forall|j: int| 0 <= j < t.len() implies is_digit(#[trigger] t[j]) by {
                if j < t.len() - 1 {
                    assert(t[j] == d.take(i - from)[j]);
                }
            }
        }
        if i - from < 6 {
            acc = acc * 10 + (b - 48) as u64;
            proof {
                crate::decimal::lemma_value_bound(t);
                assert(pow10(t.len()) <= 1_000_000) by {
                    reveal_with_fuel(pow10, 7);
                    lemma_pow10_rises(t.len(), 6);
                }
            }
        } else {
            proof {
                if i - from == 6 {
                    assert(d.take(i - from) =~= d.take(6));
                }
            }
        }
        i = i + 1;
    }
    proof {
        assert(d.take(to - from) =~= d);
    }
    let n: usize = to - from;
    if n >= 6 {
        proof {
            if n == 6 {
                assert(d.take(6) =~= d);
            }
        }
        return Some(acc);
    }
    let mut k: usize = n;
    let ghost base = acc;
    proof {
        assert(pow10(0) == 1);
        assert(base * pow10(0) == base) by (nonlinear_arith)
            requires
                pow10(0) == 1,
        ;
    }
    while k < 6
        invariant
            n <= k <= 6,
            base == digits_value(d),
            base < pow10(n as nat),
            acc == base * pow10((k - n) as nat),
            acc < pow10(k as nat),
        decreases 6 - k,
    {
        proof {
            assert(pow10((k + 1 - n) as nat) == 10 * pow10((k - n) as nat));
            assert(pow10((k + 1) as nat) == 10 * pow10(k as nat));
            assert(base * (10 * pow10((k - n) as nat)) == 10 * (base * pow10((k - n) as nat)))
                by (nonlinear_arith);
            assert(pow10(k as nat) <= 100_000) by {
                reveal_with_fuel(pow10, 7);
                lemma_pow10_rises(k as nat, 5);
            }
        }
        acc = acc * 10;
        k = k + 1;
    }
    Some(acc)
}

/// Ten to a larger power is no smaller.
pub proof fn lemma_pow10_rises(a: nat, b: nat)
    requires
        a <= b,
    ensures
        pow10(a) <= pow10(b),
        pow10(a) > 0,
    decreases b,
{
    if a < b {
        lemma_pow10_rises(a, (b - 1) as nat);
    } else if a > 0 {
        lemma_pow10_rises((a - 1) as nat, (a - 1) as nat);
    }
}

/// Reads the number `s[from..to]` into millionths.
///
/// Gives the millionths when the text is a number and they are no more than
/// `i64::MAX`; gives `None` in every other case.
pub fn parse_number(s: &[u8], from: usize, to: usize) -> (r: Option<u64>)
    requires
        from <= to <= s@.len(),
    ensures
        r is Some <==> number_value(s@.subrange(from as int, to as int)) is Some && number_value(
            s@.subrange(from as int, to as int),
        ).unwrap() <= i64::MAX,
        r is Some ==> r.unwrap() == number_value(s@.subrange(from as int, to as int)).unwrap(),
{
    let ghost d = s@.subrange(from as int, to as int);
    let dot = find_byte(s, from, to, POINT);
    let ghost ip = d.take(dot - from);
    proof {
        assert(ip =~= s@.subrange(from as int, dot as int));
        if dot == to {
            assert(ip =~= d);
        }
    }
    let whole = parse_digits(s, from, dot);
    let frac: u64 = if dot == to {
        0
    } else {
        proof {
            assert(d.skip(dot - from + 1) =~= s@.subrange(dot + 1, to as int));
        }
        match parse_frac(s, dot + 1, to) {
            Some(f) => f,
            None => {
                return None;
            },
        }
    };
    match whole {
        None => {
            proof {
                if from < dot && all_digits(ip) {
                    assert(digits_value(ip) * 1_000_000 > i64::MAX);
                }
            }
            None
        },
        Some(w) => {
            if w > 9_223_372_036_854u64 {
                return None;
            }
            let v: u64 = w * 1_000_000 + frac;
            if v > 0x7fff_ffff_ffff_ffffu64 {
                return None;
            }
            Some(v)
        },
    }
}

/// Appends the text of `v` millionths to `out`.
pub fn push_number(out: &mut Vec<u8>, v: u64)
    ensures
        final(out)@ == old(out)@ + number_text(v as nat),
{
    let whole: u64 = v / 1_000_000;
    let frac: u64 = v % 1_000_000;
    push_digits(out, whole);
    if frac != 0 {
        out.push(POINT);
        let ghost mid = out@;
        proof {
            reveal_with_fuel(fixed_digits, 7);
        }
        out.push(48 + ((frac / 100_000) % 10) as u8);
        out.push(48 + ((frac / 10_000) % 10) as u8);
        out.push(48 + ((frac / 1_000) % 10) as u8);
        out.push(48 + ((frac / 100) % 10) as u8);
        out.push(48 + ((frac / 10) % 10) as u8);
        out.push(48 + (frac % 10) as u8);
        proof {
            let f = frac as nat;
            let fd = fixed_digits(f, 6);
            assert(fd.len() == 6) by {
                lemma_fixed_digits(f, 6);
            }
            assert(fd[5] == (48 + f % 10) as u8);
            assert(fd[4] == (48 + (f / 10) % 10) as u8);
            assert(fd[3] == (48 + (f / 10 / 10) % 10) as u8);
            assert(fd[2] == (48 + (f / 10 / 10 / 10) % 10) as u8);
            assert(fd[1] == (48 + (f / 10 / 10 / 10 / 10) % 10) as u8);
            assert(fd[0] == (48 + (f / 10 / 10 / 10 / 10 / 10) % 10) as u8);
            assert(out@ =~= mid + fd);
            assert(out@ =~= old(out)@ + number_text(v as nat));
        }
    } else {
        assert(out@ =~= old(out)@ + number_text(v as nat));
    }
}

} // verus!
