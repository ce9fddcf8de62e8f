//! The collections of other crates that this library keeps its state in, with
//! what is known of their methods.
use ahash::{AHashMap, AHashSet};
use hashlink::{LinkedHashMap, LinkedHashSet};
use vstd::prelude::*;

verus! {

/// `ahash::RandomState`, which hashes the keys of an `AHashMap`.
#[verifier::external_type_specification]
#[verifier::external_body]
pub struct ExRandomState(ahash::RandomState);

/// `hashlink::DefaultHashBuilder`, which hashes the keys of linked collections.
#[verifier::external_type_specification]
#[verifier::external_body]
pub struct ExDefaultHashBuilder(hashlink::DefaultHashBuilder);

/// `ahash::AHashMap`, a hash map.
#[verifier::external_type_specification]
#[verifier::external_body]
#[verifier::reject_recursive_types(K)]
#[verifier::reject_recursive_types(V)]
#[verifier::reject_recursive_types(S)]
pub struct ExAHashMap<K, V, S>(ahash::AHashMap<K, V, S>);

/// What a map from tab numbers to positions holds.
pub uninterp spec fn numbers(m: AHashMap<u64, u32>) -> Map<u64, u32>;

/// `AHashMap::new`: an empty map.
#[verifier::external_body]
pub(crate) fn no_numbers() -> (r: AHashMap<u64, u32>)
    ensures
        numbers(r).dom() == Set::<u64>::empty(),
{
    AHashMap::new()
}

/// `HashMap::insert`, which `AHashMap` derefs to: afterwards the key has the
/// given value and every other key has what it had.
#[verifier::external_body]
pub(crate) fn set_number(m: &mut AHashMap<u64, u32>, key: u64, value: u32)
    ensures
        numbers(*final(m)) == numbers(*old(m)).insert(key, value),
{
    m.insert(key, value);
}

/// `AHashMap::get`: the value of the key, if it has one.
#[verifier::external_body]
pub(crate) fn get_number(m: &AHashMap<u64, u32>, key: u64) -> (r: Option<u32>)
    ensures
        r == (if numbers(*m).dom().contains(key) {
            Some(numbers(*m)[key])
        } else {
            None
        }),
{
    m.get(&key).copied()
}

/// What a map from two byte strings to a number holds.
pub uninterp spec fn pairs(m: AHashMap<(Vec<u8>, Vec<u8>), u64>) -> Map<
    (Seq<u8>, Seq<u8>),
    u64,
>;

/// `AHashMap::new`: an empty map.
#[verifier::external_body]
pub(crate) fn no_pairs() -> (r: AHashMap<(Vec<u8>, Vec<u8>), u64>)
    ensures
        pairs(r).dom().is_empty(),
{
    AHashMap::new()
}

/// `HashMap::insert`, which `AHashMap` derefs to: afterwards the key has the
/// given value and every other key has what it had.
#[verifier::external_body]
pub(crate) fn set_pair(
    m: &mut AHashMap<(Vec<u8>, Vec<u8>), u64>,
    front: Vec<u8>,
    back: Vec<u8>,
    value: u64,
)
    ensures
        pairs(*final(m)) == pairs(*old(m)).insert((front@, back@), value),
{
    m.insert((front, back), value);
}

/// `AHashMap::get`: the value of the key, if it has one.
#[verifier::external_body]
pub(crate) fn get_pair(
    m: &AHashMap<(Vec<u8>, Vec<u8>), u64>,
    front: Vec<u8>,
    back: Vec<u8>,
) -> (r: Option<u64>)
    ensures
        r == (if pairs(*m).dom().contains((front@, back@)) {
            Some(pairs(*m)[(front@, back@)])
        } else {
            None
        }),
{
    m.get(&(front, back)).copied()
}

/// `HashMap::remove`, which `AHashMap` derefs to: the key is absent afterwards.
#[verifier::external_body]
pub(crate) fn remove_pair(m: &mut AHashMap<(Vec<u8>, Vec<u8>), u64>, front: Vec<u8>, back: Vec<u8>)
    ensures
        pairs(*final(m)) == pairs(*old(m)).remove((front@, back@)),
{
    m.remove(&(front, back));
}

/// `ahash::AHashSet`, a hash set.
#[verifier::external_type_specification]
#[verifier::external_body]
#[verifier::reject_recursive_types(T)]
#[verifier::reject_recursive_types(S)]
pub struct ExAHashSet<T, S>(ahash::AHashSet<T, S>);

/// What a hash set holds.
pub uninterp spec fn members(s: AHashSet<u64>) -> Set<u64>;

/// `AHashSet::new`: an empty set.
#[verifier::external_body]
pub(crate) fn empty_set() -> (r: AHashSet<u64>)
    ensures
        members(r) == Set::<u64>::empty(),
{
    AHashSet::new()
}

/// `HashSet::insert`, which `AHashSet` derefs to: the value is present
/// afterwards.
#[verifier::external_body]
pub(crate) fn set_insert(s: &mut AHashSet<u64>, value: u64)
    ensures
        members(*final(s)) == members(*old(s)).insert(value),
{
    s.insert(value);
}

/// `HashSet::remove`, which `AHashSet` derefs to: the value is absent
/// afterwards.
#[verifier::external_body]
pub(crate) fn set_remove(s: &mut AHashSet<u64>, value: u64)
    ensures
        members(*final(s)) == members(*old(s)).remove(value),
{
    s.remove(&value);
}

/// `HashSet::contains`, which `AHashSet` derefs to: whether the value is
/// present.
#[verifier::external_body]
pub(crate) fn set_contains(s: &AHashSet<u64>, value: u64) -> (r: bool)
    ensures
        r == members(*s).contains(value),
{
    s.contains(&value)
}

/// `hashlink::LinkedHashSet`, a hash set that remembers an order.
#[verifier::external_type_specification]
#[verifier::external_body]
#[verifier::reject_recursive_types(T)]
#[verifier::reject_recursive_types(S)]
pub struct ExLinkedHashSet<T, S>(hashlink::LinkedHashSet<T, S>);

/// What a linked set holds, from the front to the back.
pub uninterp spec fn queued(s: LinkedHashSet<u64>) -> Seq<u64>;

/// A sequence without any occurrence of `x`.
pub open spec fn without(s: Seq<u64>, x: u64) -> Seq<u64> {
    s.filter(|y: u64| y != x)
}

/// `LinkedHashSet::new`: an empty set.
#[verifier::external_body]
pub(crate) fn empty_queue() -> (r: LinkedHashSet<u64>)
    ensures
        queued(r) == Seq::<u64>::empty(),
{
    LinkedHashSet::new()
}

/// `LinkedHashSet::len`: the number of values.
#[verifier::external_body]
pub(crate) fn queue_len(s: &LinkedHashSet<u64>) -> (r: usize)
    ensures
        r == queued(*s).len(),
{
    s.len()
}

/// `LinkedHashSet::insert`: the value stands at the back afterwards, whether or
/// not it was present, and the result says that it was not.
#[verifier::external_body]
pub(crate) fn queue_insert(s: &mut LinkedHashSet<u64>, value: u64) -> (r: bool)
    ensures
        queued(*final(s)) == without(queued(*old(s)), value).push(value),
        r == !queued(*old(s)).contains(value),
{
    s.insert(value)
}

/// `LinkedHashSet::remove`: the value is gone afterwards, the others keep their
/// order, and the result says whether it was present.
#[verifier::external_body]
pub(crate) fn queue_remove(s: &mut LinkedHashSet<u64>, value: u64) -> (r: bool)
    ensures
        queued(*final(s)) == without(queued(*old(s)), value),
        r == queued(*old(s)).contains(value),
{
    s.remove(&value)
}

/// `LinkedHashSet::pop_front`: takes the value at the front, if there is one.
#[verifier::external_body]
pub(crate) fn queue_pop_front(s: &mut LinkedHashSet<u64>) -> (r: Option<u64>)
    ensures
        queued(*old(s)).len() == 0 ==> r is None && queued(*final(s)) == queued(*old(s)),
        queued(*old(s)).len() > 0 ==> r == Some(queued(*old(s))[0]) && queued(*final(s)) == queued(
            *old(s),
        ).drop_first(),
{
    s.pop_front()
}

/// `hashlink::LinkedHashMap`, a hash map that remembers an order.
#[verifier::external_type_specification]
#[verifier::external_body]
#[verifier::reject_recursive_types(K)]
#[verifier::reject_recursive_types(V)]
#[verifier::reject_recursive_types(S)]
pub struct ExLinkedHashMap<K, V, S>(hashlink::LinkedHashMap<K, V, S>);

/// What a linked map holds, from the front to the back.
pub uninterp spec fn cached(m: LinkedHashMap<Vec<u8>, u64>) -> Seq<(Seq<u8>, u64)>;

/// Whether a key stands in a list of pairs.
pub open spec fn has_key(s: Seq<(Seq<u8>, u64)>, key: Seq<u8>) -> bool {
    exists|i: int| 0 <= i < s.len() && (#[trigger] s[i]).0 == key
}

/// A list of pairs without those for `key`.
pub open spec fn without_key(s: Seq<(Seq<u8>, u64)>, key: Seq<u8>) -> Seq<(Seq<u8>, u64)> {
    s.filter(|p: (Seq<u8>, u64)| p.0 != key)
}

/// `LinkedHashMap::new`: an empty map.
#[verifier::external_body]
pub(crate) fn empty_cache() -> (r: LinkedHashMap<Vec<u8>, u64>)
    ensures
        cached(r).len() == 0,
{
    LinkedHashMap::new()
}

/// `LinkedHashMap::len`: the number of keys.
#[verifier::external_body]
pub(crate) fn cache_len(m: &LinkedHashMap<Vec<u8>, u64>) -> (r: usize)
    ensures
        r == cached(*m).len(),
{
    m.len()
}

/// `LinkedHashMap::insert`: the pair stands at the back afterwards, in place of
/// any other pair for the key, and the result is the value that the key had.
#[verifier::external_body]
pub(crate) fn cache_insert(m: &mut LinkedHashMap<Vec<u8>, u64>, key: Vec<u8>, value: u64) -> (r:
    Option<u64>)
    ensures
        cached(*final(m)) == without_key(cached(*old(m)), key@).push((key@, value)),
        r is Some <==> has_key(cached(*old(m)), key@),
        r matches Some(v) ==> cached(*old(m)).contains((key@, v)),
{
    m.insert(key, value)
}

/// `LinkedHashMap::remove`: the key is gone afterwards, the others keep their
/// order, and the result is the value that the key had.
#[verifier::external_body]
pub(crate) fn cache_remove(m: &mut LinkedHashMap<Vec<u8>, u64>, key: &Vec<u8>) -> (r: Option<u64>)
    ensures
        cached(*final(m)) == without_key(cached(*old(m)), key@),
        r is Some <==> has_key(cached(*old(m)), key@),
        r matches Some(v) ==> cached(*old(m)).contains((key@, v)),
{
    m.remove(key)
}

/// `LinkedHashMap::pop_front`: takes the pair at the front, if there is one.
#[verifier::external_body]
pub(crate) fn cache_pop_front(m: &mut LinkedHashMap<Vec<u8>, u64>) -> (r: Option<(Vec<u8>, u64)>)
    ensures
        cached(*old(m)).len() == 0 ==> r is None && cached(*final(m)) == cached(*old(m)),
        cached(*old(m)).len() > 0 ==> cached(*final(m)) == cached(*old(m)).drop_first(),
        cached(*old(m)).len() > 0 ==> (r matches Some(p) && (p.0@, p.1) == cached(*old(m))[0]),
{
    m.pop_front()
}

} // verus!
