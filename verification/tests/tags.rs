use cernan::bytes::{hash_extend, hash_push, order_of, Order, HASH_PRIME, HASH_SEED};
use cernan::tagmap::TagMap;
use cernan::util::CString;

fn tags(pairs: &[(&str, &str)]) -> TagMap {
    let mut m = TagMap::new();
    for (k, v) in pairs {
        assert!(m.insert(k.to_string(), v.to_string()));
    }
    m
}

#[test]
fn insert_get_remove() {
    let mut m = TagMap::new();
    assert!(m.is_empty());
    assert!(m.insert("foo".into(), "bar".into()));
    assert!(m.insert("bizz".into(), "bazz".into()));
    assert_eq!(m.len(), 2);
    assert_eq!(m.get("foo"), Some(&"bar".to_string()));
    assert_eq!(m.get("bizz"), Some(&"bazz".to_string()));
    assert_eq!(m.get("other"), None);
    assert!(m.insert("foo".into(), "22".into()));
    assert_eq!(m.len(), 2);
    assert_eq!(m.get("foo"), Some(&"22".to_string()));
    assert_eq!(m.remove("foo"), Some("22".to_string()));
    assert_eq!(m.remove("foo"), None);
    assert_eq!(m.len(), 1);
}

#[test]
fn empty_key_is_not_taken() {
    let mut m = tags(&[("a", "1")]);
    assert!(!m.insert(String::new(), "x".into()));
    assert_eq!(m.len(), 1);
    assert_eq!(m.get(""), None);
}

#[test]
fn iteration_is_sorted_by_key() {
    let m = tags(&[("oof", "rab"), ("foo", "bar"), ("a", "z"), ("é", "e"), ("fo", "x")]);
    let keys: Vec<String> = (0..m.len()).map(|i| m.key_at(i).clone()).collect();
    assert_eq!(keys, vec!["a", "fo", "foo", "oof", "é"]);
    let pairs = m.to_pairs();
    assert_eq!(pairs[0], ("a".to_string(), "z".to_string()));
    assert_eq!(pairs[4], ("é".to_string(), "e".to_string()));
    assert_eq!(m.value_at(2), "bar");
}

#[test]
fn fingerprint_is_permutation_invariant() {
    let a = tags(&[("foo", "bar"), ("bizz", "bazz"), ("host", "h1")]);
    let b = tags(&[("host", "h1"), ("foo", "bar"), ("bizz", "bazz")]);
    let c = tags(&[("bizz", "bazz"), ("host", "h1"), ("foo", "bar")]);
    assert_eq!(a.fingerprint(), b.fingerprint());
    assert_eq!(a.fingerprint(), c.fingerprint());
    let d = tags(&[("host", "h2"), ("foo", "bar"), ("bizz", "bazz")]);
    assert_ne!(a.fingerprint(), d.fingerprint());
    assert_ne!(tags(&[("ab", "c")]).fingerprint(), tags(&[("a", "bc")]).fingerprint());
}

#[test]
fn fingerprint_has_its_exact_value() {
    assert_eq!(TagMap::new().fingerprint(), HASH_SEED);
    assert_eq!(HASH_SEED, 0xcbf2_9ce4_8422_2325);
    let mut h = HASH_SEED;
    for b in [b'a', 0x3d, b'b', 0x2c] {
        h = (h ^ b as u64).wrapping_mul(HASH_PRIME);
    }
    assert_eq!(tags(&[("a", "b")]).fingerprint(), h);
    assert_eq!(hash_push(HASH_SEED, b'a'), 0xaf63dc4c8601ec8c);
    assert_eq!(hash_extend(HASH_SEED, b"foobar"), 0x85944171f73967e8);
}

#[test]
fn overlay_replaces_and_is_idempotent() {
    let donor = tags(&[("foo", "bar"), ("oof", "rab")]);
    let mut m = tags(&[("foo", "22"), ("keep", "me")]);
    m.overlay(&donor);
    assert_eq!(m.to_pairs(), tags(&[("foo", "bar"), ("keep", "me"), ("oof", "rab")]).to_pairs());
    let once = m.to_pairs();
    m.overlay(&donor);
    assert_eq!(m.to_pairs(), once);
}

#[test]
fn merge_never_overwrites_and_is_idempotent() {
    let donor = tags(&[("foo", "bar"), ("oof", "rab")]);
    let mut m = tags(&[("foo", "22"), ("keep", "me")]);
    m.merge(&donor);
    assert_eq!(m.to_pairs(), tags(&[("foo", "22"), ("keep", "me"), ("oof", "rab")]).to_pairs());
    let once = m.to_pairs();
    m.merge(&donor);
    assert_eq!(m.to_pairs(), once);
}

#[test]
fn clone_is_a_copy() {
    let a = tags(&[("x", "1"), ("y", "2")]);
    let mut b = a.clone();
    assert_eq!(a.to_pairs(), b.to_pairs());
    b.insert("x".into(), "9".into());
    assert_eq!(a.get("x"), Some(&"1".to_string()));
    assert_eq!(TagMap::default().len(), 0);
}

#[test]
fn byte_strings_in_dictionary_order() {
    assert_eq!(order_of(b"abc", b"abd"), Order::Less);
    assert_eq!(order_of(b"abc", b"ab"), Order::Greater);
    assert_eq!(order_of(b"", b""), Order::Equal);
    assert_eq!(order_of(b"", b"a"), Order::Less);
    assert_eq!(order_of(b"b", b"ab"), Order::Greater);
    assert_eq!(order_of(b"same", b"same"), Order::Equal);
}

#[test]
fn cstring_set_replaces_the_text() {
    let mut a = CString::from("one");
    let b = a.clone();
    assert!(a == b);
    a.set("two");
    assert_eq!(a.as_str(), "two");
    assert_eq!(b.as_str(), "one");
    assert!(a != b);
    assert!(a.eq_str("two"));
    assert!(!a.eq_str("one"));
    assert_eq!(a.to_string(), "two".to_string());
    assert_eq!(a.order(&b), Order::Greater);
    assert_eq!(b.order(&a), Order::Less);
    assert_eq!(a.order(&a.clone()), Order::Equal);
    let shared = std::sync::Arc::new("three".to_string());
    let c = CString::from_shared(shared.clone());
    assert_eq!(c.as_str(), "three");
    a.set("");
    assert_eq!(a.as_str(), "");
}
