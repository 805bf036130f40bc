//! The tag map: string keys to string values, kept sorted by key so that
//! two maps with the same tags are the same sequence of pairs, whatever the
//! order in which the tags were put in.

use crate::bytes::{
    bytes_lt, hash_byte, hash_bytes, hash_extend, hash_push, lemma_lt_irreflexive, lemma_lt_total,
    lemma_lt_transitive, order_of, Order, HASH_SEED,
};
use vstd::prelude::*;
use vstd::utf8::{decode_utf8, encode_utf8, encode_utf8_decode_utf8};

verus! {

/// A run of tags as plain values: key first, then value.
pub type Pairs = Seq<(Seq<char>, Seq<char>)>;

/// Whether key `a` sorts before key `b`: by the bytes of their UTF-8 form,
/// in dictionary order.
pub open spec fn key_lt(a: Seq<char>, b: Seq<char>) -> bool {
    bytes_lt(encode_utf8(a), encode_utf8(b))
}

/// Whether the keys of `p` rise strictly from each pair to the next.
pub open spec fn sorted(p: Pairs) -> bool {
    forall|i: int, j: int| 0 <= i < j < p.len() ==> key_lt(#[trigger] p[i].0, #[trigger] p[j].0)
}

/// Whether some pair of `p` has the key `k`.
pub open spec fn has_key(p: Pairs, k: Seq<char>) -> bool {
    exists|i: int| 0 <= i < p.len() && (#[trigger] p[i]).0 == k
}

/// The place of key `k` in `p`.
pub open spec fn index_of_key(p: Pairs, k: Seq<char>) -> int {
    choose|i: int| 0 <= i < p.len() && (#[trigger] p[i]).0 == k
}

/// The pairs of a vector as plain values.
pub open spec fn pair_views(v: Seq<(String, String)>) -> Pairs {
    v.map_values(|e: (String, String)| (e.0@, e.1@))
}

/// The mapping that the pairs of `p` make up.
pub open spec fn map_of(p: Pairs) -> Map<Seq<char>, Seq<char>> {
    Map::new(|k: Seq<char>| has_key(p, k), |k: Seq<char>| p[index_of_key(p, k)].1)
}

/// The tags of `m`, with those of `donor` put in or put in place of them.
pub open spec fn overlay_of(m: Map<Seq<char>, Seq<char>>, donor: Map<Seq<char>, Seq<char>>) -> Map<
    Seq<char>,
    Seq<char>,
> {
    m.union_prefer_right(donor)
}

/// The tags of `m`, with those of `donor` whose key `m` does not have.
pub open spec fn merge_of(m: Map<Seq<char>, Seq<char>>, donor: Map<Seq<char>, Seq<char>>) -> Map<
    Seq<char>,
    Seq<char>,
> {
    donor.union_prefer_right(m)
}

/// The byte that the fingerprint takes in after a key.
pub const KEY_END: u8 = 0x3d;

/// The byte that the fingerprint takes in after a value.
pub const VALUE_END: u8 = 0x2c;

/// The hash `h` carried on over the pairs of `p` in order: of each pair
/// the key's bytes, `KEY_END`, the value's bytes, `VALUE_END`.
pub open spec fn hash_pairs(h: u64, p: Pairs) -> u64
    decreases p.len(),
{
    if p.len() == 0 {
        h
    } else {
        let g = hash_pairs(h, p.drop_last());
        let g = hash_byte(hash_bytes(g, encode_utf8(p.last().0)), KEY_END);
        hash_byte(hash_bytes(g, encode_utf8(p.last().1)), VALUE_END)
    }
}

/// The sorted run that makes up the mapping `m`.
pub open spec fn pairs_of(m: Map<Seq<char>, Seq<char>>) -> Pairs {
    choose|p: Pairs| sorted(p) && map_of(p) == m
}

/// The fingerprint of a set of tags: the hash over its pairs in the order
/// of their keys.
pub open spec fn fingerprint_of(m: Map<Seq<char>, Seq<char>>) -> u64 {
    hash_pairs(HASH_SEED, pairs_of(m))
}

/// Two keys are the same, or one sorts before the other, and never both.
pub proof fn lemma_key_order(a: Seq<char>, b: Seq<char>)
    ensures
        key_lt(a, b) || key_lt(b, a) || a == b,
        !(key_lt(a, b) && key_lt(b, a)),
        !key_lt(a, a),
{
    lemma_lt_total(encode_utf8(a), encode_utf8(b));
    lemma_lt_irreflexive(encode_utf8(a));
    encode_utf8_decode_utf8(a);
    encode_utf8_decode_utf8(b);
    if encode_utf8(a) == encode_utf8(b) {
        assert(decode_utf8(encode_utf8(a)) == decode_utf8(encode_utf8(b)));
    }
}

/// The order of keys is transitive.
pub proof fn lemma_key_transitive(a: Seq<char>, b: Seq<char>, c: Seq<char>)
    requires
        key_lt(a, b),
        key_lt(b, c),
    ensures
        key_lt(a, c),
{
    lemma_lt_transitive(encode_utf8(a), encode_utf8(b), encode_utf8(c));
}

/// In a sorted run every key stands at one place only, and the mapping
/// gives it the value that stands beside it.
pub proof fn lemma_map_of(p: Pairs)
    requires
        sorted(p),
    ensures
        forall|i: int|
            0 <= i < p.len() ==> has_key(p, (#[trigger] p[i]).0) && index_of_key(p, p[i].0) == i
                && map_of(p).dom().contains(p[i].0) && map_of(p)[p[i].0] == p[i].1,
        forall|k: Seq<char>| #[trigger] map_of(p).dom().contains(k) <==> has_key(p, k),
{
    assert forall|i: int| 0 <= i < p.len() implies has_key(p, (#[trigger] p[i]).0) && index_of_key(
        p,
        p[i].0,
    ) == i && map_of(p).dom().contains(p[i].0) && map_of(p)[p[i].0] == p[i].1 by {
        let k = p[i].0;
        assert(has_key(p, k));
        let j = index_of_key(p, k);
        lemma_key_order(p[i].0, p[j].0);
        if i < j {
            assert(key_lt(p[i].0, p[j].0));
        }
        if j < i {
            assert(key_lt(p[j].0, p[i].0));
        }
    }
}

/// Putting a pair into a sorted run at the place where its key belongs
/// keeps the run sorted and adds the pair to the mapping.
pub proof fn lemma_insert_at(p: Pairs, i: int, k: Seq<char>, v: Seq<char>)
    requires
        sorted(p),
        0 <= i <= p.len(),
        forall|j: int| 0 <= j < i ==> key_lt((#[trigger] p[j]).0, k),
        forall|j: int| i <= j < p.len() ==> key_lt(k, (#[trigger] p[j]).0),
    ensures
        sorted(p.insert(i, (k, v))),
        map_of(p.insert(i, (k, v))) == map_of(p).insert(k, v),
{
    let q = p.insert(i, (k, v));
    assert forall|a: int, b: int| 0 <= a < b < q.len() implies key_lt(
        #[trigger] q[a].0,
        #[trigger] q[b].0,
    ) by {
        if a < i && b > i {
            assert(q[a] == p[a] && q[b] == p[b - 1]);
        } else if a < i && b < i {
            assert(q[a] == p[a] && q[b] == p[b]);
        } else if a < i && b == i {
            assert(q[a] == p[a]);
        } else if a == i {
            assert(q[b] == p[b - 1]);
        } else {
            assert(q[a] == p[a - 1] && q[b] == p[b - 1]);
        }
    }
    lemma_map_of(p);
    lemma_map_of(q);
    let m1 = map_of(q);
    let m2 = map_of(p).insert(k, v);
    assert(q[i] == (k, v));
    assert forall|x: Seq<char>| m1.dom().contains(x) <==> m2.dom().contains(x) by {
        if m1.dom().contains(x) {
            let j = index_of_key(q, x);
            if j < i {
                assert(q[j] == p[j]);
            } else if j > i {
                assert(q[j] == p[j - 1]);
            }
        }
        if m2.dom().contains(x) && x != k {
            let j = index_of_key(p, x);
            if j < i {
                assert(q[j] == p[j]);
            } else {
                assert(q[j + 1] == p[j]);
            }
        }
    }
    assert forall|x: Seq<char>| m1.dom().contains(x) implies m1[x] == m2[x] by {
        let j = index_of_key(q, x);
        if j < i {
            assert(q[j] == p[j]);
            lemma_key_order(p[j].0, k);
        } else if j > i {
            assert(q[j] == p[j - 1]);
            lemma_key_order(p[j - 1].0, k);
        }
    }
    assert(m1 =~= m2);
}

/// Giving a key of a sorted run another value keeps the run sorted and
/// changes the mapping at that key only.
pub proof fn lemma_update_at(p: Pairs, i: int, v: Seq<char>)
    requires
        sorted(p),
        0 <= i < p.len(),
    ensures
        sorted(p.update(i, (p[i].0, v))),
        map_of(p.update(i, (p[i].0, v))) == map_of(p).insert(p[i].0, v),
{
    let k = p[i].0;
    let q = p.update(i, (k, v));
    assert forall|a: int, b: int| 0 <= a < b < q.len() implies key_lt(
        #[trigger] q[a].0,
        #[trigger] q[b].0,
    ) by {
        assert(q[a].0 == p[a].0 && q[b].0 == p[b].0);
    }
    lemma_map_of(p);
    lemma_map_of(q);
    let m1 = map_of(q);
    let m2 = map_of(p).insert(k, v);
    assert(q[i].0 == k);
    assert forall|x: Seq<char>| m1.dom().contains(x) <==> m2.dom().contains(x) by {
        if m1.dom().contains(x) {
            let j = index_of_key(q, x);
            assert(q[j].0 == p[j].0);
            assert(has_key(p, x));
        }
        if m2.dom().contains(x) && x != k {
            let j = index_of_key(p, x);
            assert(q[j].0 == p[j].0);
            assert(has_key(q, x));
        }
        if x == k {
            assert(has_key(q, x));
        }
    }
    assert forall|x: Seq<char>| m1.dom().contains(x) implies m1[x] == m2[x] by {
        let j = index_of_key(q, x);
        assert(q[j].0 == p[j].0);
        if j != i {
            assert(q[j] == p[j]);
            lemma_key_order(p[j].0, k);
        }
    }
    assert(m1 =~= m2);
}

/// Taking a pair out of a sorted run keeps the run sorted and takes its
/// key out of the mapping.
pub proof fn lemma_remove_at(p: Pairs, i: int)
    requires
        sorted(p),
        0 <= i < p.len(),
    ensures
        sorted(p.remove(i)),
        map_of(p.remove(i)) == map_of(p).remove(p[i].0),
{
    let k = p[i].0;
    let q = p.remove(i);
    assert forall|a: int, b: int| 0 <= a < b < q.len() implies key_lt(
        #[trigger] q[a].0,
        #[trigger] q[b].0,
    ) by {
        let a0 = if a < i {
            a
        } else {
            a + 1
        };
        let b0 = if b < i {
            b
        } else {
            b + 1
        };
        assert(q[a] == p[a0] && q[b] == p[b0]);
    }
    lemma_map_of(p);
    lemma_map_of(q);
    let m1 = map_of(q);
    let m2 = map_of(p).remove(k);
    assert forall|x: Seq<char>| m1.dom().contains(x) <==> m2.dom().contains(x) by {
        if m1.dom().contains(x) {
            let j = index_of_key(q, x);
            let j0 = if j < i {
                j
            } else {
                j + 1
            };
            assert(q[j] == p[j0]);
            lemma_key_order(p[j0].0, k);
            if j0 < i {
                assert(key_lt(p[j0].0, p[i].0));
            } else {
                assert(key_lt(p[i].0, p[j0].0));
            }
        }
        if m2.dom().contains(x) {
            let j = index_of_key(p, x);
            if j < i {
                assert(q[j] == p[j]);
            } else {
                assert(j > i);
                assert(q[j - 1] == p[j]);
            }
        }
    }
    assert forall|x: Seq<char>| m1.dom().contains(x) implies m1[x] == m2[x] by {
        let j = index_of_key(q, x);
        let j0 = if j < i {
            j
        } else {
            j + 1
        };
        assert(q[j] == p[j0]);
    }
    assert(m1 =~= m2);
}

/// Two sorted runs that make up the same mapping are the same run.
pub proof fn lemma_same_map_same_pairs(p: Pairs, q: Pairs)
    requires
        sorted(p),
        sorted(q),
        map_of(p) == map_of(q),
    ensures
        p == q,
    decreases p.len(),
{
    lemma_map_of(p);
    lemma_map_of(q);
    if p.len() == 0 {
        if q.len() > 0 {
            assert(map_of(q).dom().contains(q[0].0));
            assert(has_key(p, q[0].0));
        }
        assert(p =~= q);
    } else {
        assert(map_of(p).dom().contains(p[0].0));
        assert(has_key(q, p[0].0));
        let j = index_of_key(q, p[0].0);
        assert(map_of(q).dom().contains(q[0].0));
        assert(has_key(p, q[0].0));
        let i = index_of_key(p, q[0].0);
        lemma_key_order(p[0].0, q[0].0);
        if j > 0 {
            assert(key_lt(q[0].0, q[j].0));
            if i > 0 {
                assert(key_lt(p[0].0, p[i].0));
            }
        }
        assert(j == 0);
        assert(p[0] == q[0]);
        lemma_remove_at(p, 0);
        lemma_remove_at(q, 0);
        lemma_same_map_same_pairs(p.remove(0), q.remove(0));
        assert(p =~= seq![p[0]] + p.remove(0));
        assert(q =~= seq![q[0]] + q.remove(0));
    }
}

/// A map from tag key to tag value. No key is empty, no key occurs twice,
/// and the pairs are held in the order of their keys.
#[derive(Debug, PartialEq, Eq)]
pub struct TagMap {
    entries: Vec<(String, String)>,
}

impl View for TagMap {
    type V = Map<Seq<char>, Seq<char>>;

    open spec fn view(&self) -> Map<Seq<char>, Seq<char>> {
        map_of(self.pairs())
    }
}

impl TagMap {
    /// The pairs of the map in the order in which they are held and handed
    /// out.
    pub closed spec fn pairs(&self) -> Pairs {
        Seq::new(self.entries@.len(), |i: int| (self.entries@[i].0@, self.entries@[i].1@))
    }

    /// What holds of every tag map: the pairs are sorted by key and no key
    /// is empty.
    #[verifier::type_invariant]
    pub closed spec fn wf(&self) -> bool {
        &&& sorted(self.pairs())
        &&& forall|i: int| 0 <= i < self.pairs().len() ==> (#[trigger] self.pairs()[i]).0.len() > 0
    }

    /// What `wf` says, for those who cannot see into the map.
    pub proof fn lemma_wf(&self)
        requires
            self.wf(),
        ensures
            sorted(self.pairs()),
            forall|i: int| 0 <= i < self.pairs().len() ==> (#[trigger] self.pairs()[i]).0.len() > 0,
            forall|k: Seq<char>| #[trigger] self@.dom().contains(k) ==> k.len() > 0,
            self@.dom().finite(),
    {
        let p = self.pairs();
        lemma_map_of(p);
        assert forall|k: Seq<char>| #[trigger] self@.dom().contains(k) implies k.len() > 0 by {
            let i = index_of_key(p, k);
            assert(p[i].0 == k);
        }
        lemma_dom_finite(p);
    }

    /// The empty map.
    pub fn new() -> (m: TagMap)
        ensures
            m.pairs() == Seq::<(Seq<char>, Seq<char>)>::empty(),
            m@ == Map::<Seq<char>, Seq<char>>::empty(),
    {
        let m = TagMap { entries: Vec::new() };
        proof {
            assert(m.pairs() =~= Seq::<(Seq<char>, Seq<char>)>::empty());
            assert(m@ =~= Map::<Seq<char>, Seq<char>>::empty());
        }
        m
    }

    /// The number of tags.
    pub fn len(&self) -> (n: usize)
        ensures
            n == self.pairs().len(),
            n == self@.dom().len(),
    {
        proof {
            use_type_invariant(self);
            lemma_dom_len(self.pairs());
        }
        self.entries.len()
    }

    /// Whether the map holds no tag.
    pub fn is_empty(&self) -> (b: bool)
        ensures
            b == (self.pairs().len() == 0),
            b == (self@ == Map::<Seq<char>, Seq<char>>::empty()),
    {
        proof {
            use_type_invariant(self);
            lemma_map_of(self.pairs());
            if self.pairs().len() == 0 {
                assert(self@ =~= Map::<Seq<char>, Seq<char>>::empty());
            } else {
                assert(self@.dom().contains(self.pairs()[0].0));
            }
        }
        self.entries.len() == 0
    }

    /// The key of the tag at place `i` in the order of keys.
    pub fn key_at(&self, i: usize) -> (k: &String)
        requires
            i < self.pairs().len(),
        ensures
            k@ == self.pairs()[i as int].0,
    {
        &self.entries[i].0
    }

    /// The value of the tag at place `i` in the order of keys.
    pub fn value_at(&self, i: usize) -> (v: &String)
        requires
            i < self.pairs().len(),
        ensures
            v@ == self.pairs()[i as int].1,
    {
        &self.entries[i].1
    }

    /// Where `key` stands in the map, or where it would have to be put.
    fn find(&self, key: &str) -> (r: (usize, bool))
        ensures
            r.0 <= self.pairs().len(),
            r.1 ==> r.0 < self.pairs().len() && self.pairs()[r.0 as int].0 == key@,
            !r.1 ==> forall|j: int| r.0 <= j < self.pairs().len() ==> key_lt(
                key@,
                (#[trigger] self.pairs()[j]).0,
            ),
            forall|j: int| 0 <= j < r.0 ==> key_lt((#[trigger] self.pairs()[j]).0, key@),
            r.1 <==> self@.dom().contains(key@),
    {
        proof {
            use_type_invariant(self);
            lemma_map_of(self.pairs());
        }
        let ghost p = self.pairs();
        let kb = key.as_bytes();
        let mut i: usize = 0;
        while i < self.entries.len()
            invariant
                p == self.pairs(),
                sorted(p),
                i <= p.len(),
                p.len() == self.entries@.len(),
                kb@ == encode_utf8(key@),
                forall|j: int| 0 <= j < i ==> key_lt((#[trigger] p[j]).0, key@),
                forall|k: Seq<char>| #[trigger] map_of(p).dom().contains(k) <==> has_key(p, k),
            decreases p.len() - i,
        {
            let eb = self.entries[i].0.as_str().as_bytes();
            assert(eb@ == encode_utf8(p[i as int].0));
            proof {
                lemma_key_order(p[i as int].0, key@);
            }
            match order_of(eb, kb) {
                Order::Less => {},
                Order::Equal => {
                    assert(p[i as int].0 == key@) by {
                        encode_utf8_decode_utf8(p[i as int].0);
                        encode_utf8_decode_utf8(key@);
                    }
                    assert(has_key(p, key@));
                    return (i, true);
                },
                Order::Greater => {
                    proof {
                        assert forall|j: int| i <= j < p.len() implies key_lt(
                            key@,
                            (#[trigger] p[j]).0,
                        ) by {
                            if j > i {
                                lemma_key_transitive(key@, p[i as int].0, p[j].0);
                            }
                        }
                        if has_key(p, key@) {
                            let w = index_of_key(p, key@);
                            lemma_key_order(p[w].0, key@);
                        }
                    }
                    return (i, false);
                },
            }
            i = i + 1;
        }
        proof {
            if has_key(p, key@) {
                let w = index_of_key(p, key@);
                lemma_key_order(p[w].0, key@);
            }
        }
        (i, false)
    }

    /// The value of the tag `key`, if the map has it.
    pub fn get(&self, key: &str) -> (r: Option<&String>)
        ensures
            r is Some <==> self@.dom().contains(key@),
            r is Some ==> r.unwrap()@ == self@[key@],
    {
        proof {
            use_type_invariant(self);
            lemma_map_of(self.pairs());
        }
        let (i, found) = self.find(key);
        if found {
            Some(&self.entries[i].1)
        } else {
            None
        }
    }

    /// Puts the tag `key` in with `value`, in place of the value it had if
    /// it was there. A tag with an empty key is not taken: the map stays as
    /// it is and the answer is `false`.
    pub fn insert(&mut self, key: String, value: String) -> (taken: bool)
        ensures
            taken == (key@.len() > 0),
            taken ==> final(self)@ == old(self)@.insert(key@, value@),
            !taken ==> final(self).pairs() == old(self).pairs(),
    {
        proof {
            use_type_invariant(&*self);
        }
        if key.as_str().is_empty() {
            return false;
        }
        let (i, found) = self.find(key.as_str());
        let ghost p = self.pairs();
        let ghost k = key@;
        let ghost v = value@;
        let mut entries: Vec<(String, String)> = Vec::new();
        std::mem::swap(&mut entries, &mut self.entries);
        if found {
            entries.set(i, (key, value));
            proof {
                lemma_update_at(p, i as int, v);
                assert(Seq::new(
                    entries@.len(),
                    |j: int| (entries@[j].0@, entries@[j].1@),
                ) =~= p.update(i as int, (k, v)));
            }
        } else {
            entries.insert(i, (key, value));
            proof {
                lemma_insert_at(p, i as int, k, v);
                assert(Seq::new(
                    entries@.len(),
                    |j: int| (entries@[j].0@, entries@[j].1@),
                ) =~= p.insert(i as int, (k, v)));
            }
        }
        self.entries = entries;
        true
    }

    /// Takes the tag `key` out and hands back the value it had, if it was
    /// there.
    pub fn remove(&mut self, key: &str) -> (r: Option<String>)
        ensures
            final(self)@ == old(self)@.remove(key@),
            r is Some <==> old(self)@.dom().contains(key@),
            r is Some ==> r.unwrap()@ == old(self)@[key@],
    {
        proof {
            use_type_invariant(&*self);
            lemma_map_of(self.pairs());
        }
        let (i, found) = self.find(key);
        let ghost p = self.pairs();
        if !found {
            assert(self@.remove(key@) =~= self@);
            return None;
        }
        let mut entries: Vec<(String, String)> = Vec::new();
        std::mem::swap(&mut entries, &mut self.entries);
        let gone = entries.remove(i);
        proof {
            lemma_remove_at(p, i as int);
            assert(Seq::new(entries@.len(), |j: int| (entries@[j].0@, entries@[j].1@)) =~= p.remove(
                i as int,
            ));
        }
        self.entries = entries;
        Some(gone.1)
    }

    /// Overlay: every tag of `donor` is put in, in place of the tag of the
    /// same key where there is one.
    pub fn overlay(&mut self, donor: &TagMap)
        ensures
            final(self)@ == overlay_of(old(self)@, donor@),
    {
        proof {
            use_type_invariant(donor);
            lemma_map_of(donor.pairs());
        }
        let ghost dp = donor.pairs();
        let ghost start = self@;
        let n = donor.len();
        let mut i: usize = 0;
        assert(map_of(dp.take(0)) =~= Map::<Seq<char>, Seq<char>>::empty());
        assert(self@ =~= overlay_of(start, map_of(dp.take(0))));
        while i < n
            invariant
                i <= n,
                n == dp.len(),
                dp == donor.pairs(),
                sorted(dp),
                forall|j: int| 0 <= j < dp.len() ==> (#[trigger] dp[j]).0.len() > 0,
                self@ == overlay_of(start, map_of(dp.take(i as int))),
            decreases n - i,
        {
            let k = donor.key_at(i).clone();
            let v = donor.value_at(i).clone();
            proof {
                lemma_take_step(dp, i as int);
                assert(dp[i as int].0.len() > 0);
            }
            let ghost before = self@;
            self.insert(k, v);
            proof {
                let t0 = map_of(dp.take(i as int));
                let t1 = map_of(dp.take(i + 1));
                assert(t1 == t0.insert(dp[i as int].0, dp[i as int].1));
                assert(before.insert(dp[i as int].0, dp[i as int].1) =~= overlay_of(start, t1));
            }
            i = i + 1;
        }
        proof {
            assert(dp.take(n as int) =~= dp);
        }
    }

    /// Merge: every tag of `donor` whose key the map does not have is put
    /// in; the tags that the map has stay as they are.
    pub fn merge(&mut self, donor: &TagMap)
        ensures
            final(self)@ == merge_of(old(self)@, donor@),
    {
        proof {
            use_type_invariant(donor);
            lemma_map_of(donor.pairs());
        }
        let ghost dp = donor.pairs();
        let ghost start = self@;
        let n = donor.len();
        let mut i: usize = 0;
        assert(map_of(dp.take(0)) =~= Map::<Seq<char>, Seq<char>>::empty());
        assert(self@ =~= merge_of(start, map_of(dp.take(0))));
        while i < n
            invariant
                i <= n,
                n == dp.len(),
                dp == donor.pairs(),
                sorted(dp),
                forall|j: int| 0 <= j < dp.len() ==> (#[trigger] dp[j]).0.len() > 0,
                self@ == merge_of(start, map_of(dp.take(i as int))),
            decreases n - i,
        {
            proof {
                lemma_take_step(dp, i as int);
                assert(dp[i as int].0.len() > 0);
            }
            let ghost before = self@;
            let ghost t0 = map_of(dp.take(i as int));
            let ghost t1 = map_of(dp.take(i + 1));
            let present = self.get(donor.key_at(i).as_str()).is_some();
            if !present {
                let k = donor.key_at(i).clone();
                let v = donor.value_at(i).clone();
                self.insert(k, v);
                proof {
                    assert(before.insert(dp[i as int].0, dp[i as int].1) =~= merge_of(start, t1));
                }
            } else {
                proof {
                    assert(!t0.dom().contains(dp[i as int].0));
                    assert(before =~= merge_of(start, t1));
                }
            }
            i = i + 1;
        }
        proof {
            assert(dp.take(n as int) =~= dp);
        }
    }

    /// The tags as a vector of pairs, in the order of their keys.
    pub fn to_pairs(&self) -> (v: Vec<(String, String)>)
        ensures
            pair_views(v@) == self.pairs(),
            pair_views(v@) == pairs_of(self@),
    {
        proof {
            use_type_invariant(self);
            lemma_same_map_same_pairs(self.pairs(), pairs_of(self@));
        }
        let ghost p = self.pairs();
        let mut v: Vec<(String, String)> = Vec::new();
        let mut i: usize = 0;
        while i < self.entries.len()
            invariant
                p == self.pairs(),
                p.len() == self.entries@.len(),
                i <= p.len(),
                pair_views(v@) == p.take(i as int),
            decreases p.len() - i,
        {
            let ghost before = pair_views(v@);
            v.push((self.entries[i].0.clone(), self.entries[i].1.clone()));
            assert(pair_views(v@) =~= before.push(p[i as int]));
            assert(p.take(i + 1) =~= p.take(i as int).push(p[i as int]));
            i = i + 1;
        }
        assert(p.take(p.len() as int) =~= p);
        v
    }

    /// The 64-bit fingerprint of the tags: a hash over the pairs in the
    /// order of their keys.
    pub fn fingerprint(&self) -> (h: u64)
        ensures
            h == hash_pairs(HASH_SEED, self.pairs()),
            h == fingerprint_of(self@),
    {
        let ghost p = self.pairs();
        proof {
            use_type_invariant(self);
            lemma_same_map_same_pairs(p, pairs_of(self@));
        }
        let mut h: u64 = HASH_SEED;
        let mut i: usize = 0;
        while i < self.entries.len()
            invariant
                p == self.pairs(),
                p.len() == self.entries@.len(),
                i <= p.len(),
                h == hash_pairs(HASH_SEED, p.take(i as int)),
            decreases p.len() - i,
        {
            proof {
                assert(p.take(i + 1).drop_last() =~= p.take(i as int));
                assert(p.take(i + 1).last() == p[i as int]);
            }
            h = hash_extend(h, self.entries[i].0.as_str().as_bytes());
            h = hash_push(h, KEY_END);
            h = hash_extend(h, self.entries[i].1.as_str().as_bytes());
            h = hash_push(h, VALUE_END);
            i = i + 1;
        }
        proof {
            assert(p.take(p.len() as int) =~= p);
        }
        h
    }
}

impl Clone for TagMap {
    fn clone(&self) -> (m: TagMap)
        ensures
            m.pairs() == self.pairs(),
            m@ == self@,
    {
        proof {
            use_type_invariant(self);
        }
        let ghost p = self.pairs();
        let mut entries: Vec<(String, String)> = Vec::new();
        let mut i: usize = 0;
        while i < self.entries.len()
            invariant
                p == self.pairs(),
                p.len() == self.entries@.len(),
                i <= p.len(),
                entries@.len() == i,
                forall|j: int|
                    0 <= j < i ==> (#[trigger] entries@[j]).0@ == p[j].0 && entries@[j].1@
                        == p[j].1,
            decreases p.len() - i,
        {
            entries.push((self.entries[i].0.clone(), self.entries[i].1.clone()));
            i = i + 1;
        }
        proof {
            assert(Seq::new(entries@.len(), |j: int| (entries@[j].0@, entries@[j].1@)) =~= p);
        }
        TagMap { entries }
    }
}

impl Default for TagMap {
    fn default() -> (m: TagMap)
        ensures
            m@ == Map::<Seq<char>, Seq<char>>::empty(),
    {
        TagMap::new()
    }
}

/// The mapping of a sorted run grows by one pair with each pair taken.
pub proof fn lemma_take_step(p: Pairs, i: int)
    requires
        sorted(p),
        0 <= i < p.len(),
    ensures
        sorted(p.take(i)),
        sorted(p.take(i + 1)),
        map_of(p.take(i + 1)) == map_of(p.take(i)).insert(p[i].0, p[i].1),
        !map_of(p.take(i)).dom().contains(p[i].0),
{
    let a = p.take(i);
    let b = p.take(i + 1);
    assert forall|x: int, y: int| 0 <= x < y < a.len() implies key_lt(
        #[trigger] a[x].0,
        #[trigger] a[y].0,
    ) by {
        assert(a[x] == p[x] && a[y] == p[y]);
    }
    assert forall|x: int, y: int| 0 <= x < y < b.len() implies key_lt(
        #[trigger] b[x].0,
        #[trigger] b[y].0,
    ) by {
        assert(b[x] == p[x] && b[y] == p[y]);
    }
    assert forall|j: int| 0 <= j < i implies key_lt((#[trigger] a[j]).0, p[i].0) by {
        assert(a[j] == p[j]);
    }
    lemma_insert_at(a, i, p[i].0, p[i].1);
    assert(a.insert(i, p[i]) =~= b);
    lemma_map_of(a);
    if map_of(a).dom().contains(p[i].0) {
        let w = index_of_key(a, p[i].0);
        assert(a[w] == p[w]);
        lemma_key_order(p[w].0, p[i].0);
    }
}

/// A run of pairs makes up a finite mapping.
pub proof fn lemma_dom_finite(p: Pairs)
    ensures
        map_of(p).dom().finite(),
    decreases p.len(),
{
    if p.len() == 0 {
        assert(map_of(p).dom() =~= Set::<Seq<char>>::empty());
    } else {
        lemma_dom_finite(p.drop_last());
        let q = p.drop_last();
        assert(map_of(p).dom() =~= map_of(q).dom().insert(p.last().0)) by {
            assert forall|k: Seq<char>| map_of(p).dom().contains(k) <==> map_of(q).dom().insert(
                p.last().0,
            ).contains(k) by {
                if has_key(p, k) {
                    let w = index_of_key(p, k);
                    if w < q.len() {
                        assert(q[w] == p[w]);
                    }
                }
                if has_key(q, k) {
                    let w = index_of_key(q, k);
                    assert(q[w] == p[w]);
                }
                if k == p.last().0 {
                    assert(p[p.len() - 1].0 == k);
                }
            }
        }
    }
}

/// A sorted run makes up a mapping of as many keys as it has pairs.
pub proof fn lemma_dom_len(p: Pairs)
    requires
        sorted(p),
    ensures
        map_of(p).dom().finite(),
        map_of(p).dom().len() == p.len(),
    decreases p.len(),
{
    lemma_dom_finite(p);
    if p.len() == 0 {
        assert(map_of(p).dom() =~= Set::<Seq<char>>::empty());
    } else {
        let i = p.len() - 1;
        lemma_take_step(p, i);
        assert(p.take(i + 1) =~= p);
        lemma_dom_len(p.take(i));
        assert(map_of(p).dom() =~= map_of(p.take(i)).dom().insert(p[i].0));
    }
}

/// The fingerprint does not depend on the order in which tags are put in:
/// two tags of different keys, put in one way round or the other, give the
/// same tags and so the same fingerprint.
pub proof fn lemma_fingerprint_order_free(
    m: Map<Seq<char>, Seq<char>>,
    k1: Seq<char>,
    v1: Seq<char>,
    k2: Seq<char>,
    v2: Seq<char>,
)
    requires
        k1 != k2,
    ensures
        m.insert(k1, v1).insert(k2, v2) == m.insert(k2, v2).insert(k1, v1),
        fingerprint_of(m.insert(k1, v1).insert(k2, v2)) == fingerprint_of(
            m.insert(k2, v2).insert(k1, v1),
        ),
{
    assert(m.insert(k1, v1).insert(k2, v2) =~= m.insert(k2, v2).insert(k1, v1));
}

/// Two tag maps with the same tags hold the same pairs in the same order,
/// and have the same fingerprint.
pub proof fn lemma_same_tags_same_fingerprint(a: TagMap, b: TagMap)
    requires
        a.wf(),
        b.wf(),
        a@ == b@,
    ensures
        a.pairs() == b.pairs(),
        hash_pairs(HASH_SEED, a.pairs()) == hash_pairs(HASH_SEED, b.pairs()),
{
    a.lemma_wf();
    b.lemma_wf();
    lemma_same_map_same_pairs(a.pairs(), b.pairs());
}

/// Overlay is idempotent: a second overlay with the same donor changes
/// nothing. After an overlay every tag of the donor is there with the
/// donor's value.
pub proof fn lemma_overlay_idempotent(
    m: Map<Seq<char>, Seq<char>>,
    donor: Map<Seq<char>, Seq<char>>,
)
    ensures
        overlay_of(overlay_of(m, donor), donor) == overlay_of(m, donor),
        forall|k: Seq<char>| #[trigger]
            donor.dom().contains(k) ==> overlay_of(m, donor).dom().contains(k) && overlay_of(
                m,
                donor,
            )[k] == donor[k],
{
    assert(overlay_of(overlay_of(m, donor), donor) =~= overlay_of(m, donor));
}

/// Merge is idempotent: a second merge with the same donor changes
/// nothing. A merge never changes a tag that was there.
pub proof fn lemma_merge_idempotent(
    m: Map<Seq<char>, Seq<char>>,
    donor: Map<Seq<char>, Seq<char>>,
)
    ensures
        merge_of(merge_of(m, donor), donor) == merge_of(m, donor),
        forall|k: Seq<char>| #[trigger]
            m.dom().contains(k) ==> merge_of(m, donor).dom().contains(k) && merge_of(m, donor)[k]
                == m[k],
{
    assert(merge_of(merge_of(m, donor), donor) =~= merge_of(m, donor));
}

} // verus!
