//! Byte strings in dictionary order, and a 64-bit hash over them.

use vstd::prelude::*;
use vstd::utf8::{decode_utf8, valid_utf8};

verus! {

/// `std::str::from_utf8`: the bytes as a string slice where they are valid
/// UTF-8, and `None` where they are not. Trusted: that the standard
/// library accepts exactly the byte strings that `valid_utf8` describes,
/// and that the slice it hands out has the characters that they decode to.
#[verifier::external_body]
pub(crate) fn str_from_utf8(b: &[u8]) -> (r: Option<&str>)
    ensures
        r is Some <==> valid_utf8(b@),
        r is Some ==> r.unwrap()@ == decode_utf8(b@),
{
    match std::str::from_utf8(b) {
        Ok(s) => Some(s),
        Err(_) => None,
    }
}

/// How one byte string stands to another in dictionary order.
#[derive(Debug, Clone, Copy, PartialEq, Eq, Structural)]
pub enum Order {
    Less,
    Equal,
    Greater,
}

/// The first index from `i` on at which `a` and `b` differ or one of them
/// ends.
pub open spec fn mismatch(a: Seq<u8>, b: Seq<u8>, i: int) -> int
    decreases a.len() - i,
{
    if i < 0 || i >= a.len() || i >= b.len() || a[i] != b[i] {
        i
    } else {
        mismatch(a, b, i + 1)
    }
}

/// Whether `a` comes before `b` in dictionary order: at the first place
/// where they part, `a` has ended or holds the smaller byte.
pub open spec fn bytes_lt(a: Seq<u8>, b: Seq<u8>) -> bool {
    let m = mismatch(a, b, 0);
    m < b.len() && (m == a.len() || a[m] < b[m])
}

/// What `mismatch` finds: the two strings agree from `i` up to it, and there
/// they part.
pub proof fn lemma_mismatch(a: Seq<u8>, b: Seq<u8>, i: int)
    requires
        0 <= i <= a.len(),
        i <= b.len(),
    ensures
        i <= mismatch(a, b, i) <= a.len(),
        mismatch(a, b, i) <= b.len(),
        forall|j: int| i <= j < mismatch(a, b, i) ==> a[j] == b[j],
        mismatch(a, b, i) == a.len() || mismatch(a, b, i) == b.len() || a[mismatch(a, b, i)]
            != b[mismatch(a, b, i)],
    decreases a.len() - i,
{
    if i < a.len() && i < b.len() && a[i] == b[i] {
        lemma_mismatch(a, b, i + 1);
    }
}

/// The place where two strings part is the only one up to which they agree
/// and at which they differ or end.
pub proof fn lemma_mismatch_unique(a: Seq<u8>, b: Seq<u8>, k: int)
    requires
        0 <= k <= a.len(),
        k <= b.len(),
        forall|j: int| 0 <= j < k ==> a[j] == b[j],
        k == a.len() || k == b.len() || a[k] != b[k],
    ensures
        mismatch(a, b, 0) == k,
{
    lemma_mismatch(a, b, 0);
}

/// No string comes before itself.
pub proof fn lemma_lt_irreflexive(a: Seq<u8>)
    ensures
        !bytes_lt(a, a),
{
    lemma_mismatch(a, a, 0);
}

/// Of two different strings one comes before the other.
pub proof fn lemma_lt_total(a: Seq<u8>, b: Seq<u8>)
    ensures
        bytes_lt(a, b) || bytes_lt(b, a) || a == b,
        !(bytes_lt(a, b) && bytes_lt(b, a)),
{
    lemma_mismatch(a, b, 0);
    lemma_mismatch(b, a, 0);
    let m = mismatch(a, b, 0);
    lemma_mismatch_unique(b, a, m);
    if !bytes_lt(a, b) && !bytes_lt(b, a) {
        assert(a =~= b);
    }
}

/// Dictionary order is transitive.
pub proof fn lemma_lt_transitive(a: Seq<u8>, b: Seq<u8>, c: Seq<u8>)
    requires
        bytes_lt(a, b),
        bytes_lt(b, c),
    ensures
        bytes_lt(a, c),
{
    lemma_mismatch(a, b, 0);
    lemma_mismatch(b, c, 0);
    let m1 = mismatch(a, b, 0);
    let m2 = mismatch(b, c, 0);
    let k = if m1 <= m2 {
        m1
    } else {
        m2
    };
    lemma_mismatch_unique(a, c, k);
}

/// Compares two byte strings in dictionary order.
pub fn order_of(a: &[u8], b: &[u8]) -> (o: Order)
    ensures
        o == Order::Less <==> bytes_lt(a@, b@),
        o == Order::Equal <==> a@ == b@,
        o == Order::Greater <==> bytes_lt(b@, a@),
{
    proof {
        lemma_lt_total(a@, b@);
        lemma_lt_irreflexive(a@);
    }
    let mut i: usize = 0;
    while i < a.len() && i < b.len()
        invariant
            i <= a@.len(),
            i <= b@.len(),
            forall|j: int| 0 <= j < i ==> a@[j] == b@[j],
        decreases a@.len() - i,
    {
        if a[i] < b[i] {
            proof {
                lemma_mismatch_unique(a@, b@, i as int);
                lemma_lt_total(a@, b@);
            }
            return Order::Less;
        }
        if a[i] > b[i] {
            proof {
                lemma_mismatch_unique(b@, a@, i as int);
                lemma_lt_total(a@, b@);
            }
            return Order::Greater;
        }
        i = i + 1;
    }
    proof {
        lemma_mismatch_unique(a@, b@, i as int);
        lemma_mismatch_unique(b@, a@, i as int);
    }
    if i < b.len() {
        Order::Less
    } else if i < a.len() {
        Order::Greater
    } else {
        assert(a@ =~= b@);
        Order::Equal
    }
}

/// The first index from `i` on at which `s` holds the byte `b`, or the
/// length of `s` where it holds none.
pub open spec fn scan(s: Seq<u8>, b: u8, i: int) -> int
    decreases s.len() - i,
{
    if i < 0 || i >= s.len() || s[i] == b {
        i
    } else {
        scan(s, b, i + 1)
    }
}

/// The index of the first `b` in `s`, or the length of `s` where there is
/// none.
pub open spec fn first_index(s: Seq<u8>, b: u8) -> int {
    scan(s, b, 0)
}

/// Whether `s` holds the byte `b`.
pub open spec fn holds(s: Seq<u8>, b: u8) -> bool {
    exists|i: int| 0 <= i < s.len() && s[i] == b
}

/// What `scan` finds: no `b` from `i` up to it, and a `b` there unless the
/// string has ended.
pub proof fn lemma_scan(s: Seq<u8>, b: u8, i: int)
    requires
        0 <= i <= s.len(),
    ensures
        i <= scan(s, b, i) <= s.len(),
        forall|j: int| i <= j < scan(s, b, i) ==> s[j] != b,
        scan(s, b, i) < s.len() ==> s[scan(s, b, i)] == b,
    decreases s.len() - i,
{
    if i < s.len() && s[i] != b {
        lemma_scan(s, b, i + 1);
    }
}

/// The first `b` of a string is at `k` when there is none before `k` and
/// one at `k`, or the string ends there.
pub proof fn lemma_first_index(s: Seq<u8>, b: u8, k: int)
    requires
        0 <= k <= s.len(),
        forall|j: int| 0 <= j < k ==> s[j] != b,
        k == s.len() || s[k] == b,
    ensures
        first_index(s, b) == k,
        holds(s, b) <==> k < s.len(),
{
    lemma_scan(s, b, 0);
}

/// Finds the first `b` in `s[from..to]`: its index in `s`, or `to` where
/// there is none.
pub fn find_byte(s: &[u8], from: usize, to: usize, b: u8) -> (k: usize)
    requires
        from <= to <= s@.len(),
    ensures
        from <= k <= to,
        k - from == first_index(s@.subrange(from as int, to as int), b),
        k < to <==> holds(s@.subrange(from as int, to as int), b),
{
    let ghost d = s@.subrange(from as int, to as int);
    let mut i: usize = from;
    while i < to
        invariant
            from <= i <= to <= s@.len(),
            d == s@.subrange(from as int, to as int),
            forall|j: int| 0 <= j < i - from ==> d[j] != b,
        decreases to - i,
    {
        if s[i] == b {
            proof {
                assert(d[i - from] == b);
                lemma_first_index(d, b, i - from);
            }
            return i;
        }
        i = i + 1;
    }
    proof {
        lemma_first_index(d, b, to - from);
    }
    to
}

/// The value that the hash starts from.
pub const HASH_SEED: u64 = 0xcbf2_9ce4_8422_2325;

/// The factor by which the hash is multiplied after each byte.
pub const HASH_PRIME: u64 = 0x0000_0100_0000_01b3;

/// The hash after one more byte: the byte is folded into the low bits and
/// the whole multiplied by `HASH_PRIME`, modulo two to the 64.
pub open spec fn hash_byte(h: u64, b: u8) -> u64 {
    (h ^ (b as u64)).wrapping_mul(HASH_PRIME)
}

/// The hash after the bytes of `s`, taken in order, starting from `h`.
pub open spec fn hash_bytes(h: u64, s: Seq<u8>) -> u64
    decreases s.len(),
{
    if s.len() == 0 {
        h
    } else {
        hash_byte(hash_bytes(h, s.drop_last()), s.last())
    }
}

/// Folds one byte into the hash.
pub fn hash_push(h: u64, b: u8) -> (r: u64)
    ensures
        r == hash_byte(h, b),
{
    (h ^ (b as u64)).wrapping_mul(HASH_PRIME)
}

/// Folds the bytes of `s` into the hash, in order.
pub fn hash_extend(h: u64, s: &[u8]) -> (r: u64)
    ensures
        r == hash_bytes(h, s@),
{
    let mut acc: u64 = h;
    let mut i: usize = 0;
    while i < s.len()
        invariant
            i <= s@.len(),
            acc == hash_bytes(h, s@.take(i as int)),
        decreases s@.len() - i,
    {
        proof {
            assert(s@.take(i + 1).drop_last() =~= s@.take(i as int));
        }
        acc = hash_push(acc, s[i]);
        i = i + 1;
    }
    proof {
        assert(s@.take(s@.len() as int) =~= s@);
    }
    acc
}

} // verus!
