use vstd::multiset::Multiset;
use vstd::prelude::*;

use binary_heap_plus::BinaryHeap;
use binary_heap_plus::MinComparator;
use stable_bst::TreeMap;

verus! {

/// A search tree (`stable_bst::TreeMap`, ordered by the natural order of its
/// keys) from state signatures to class ids.
#[verifier::external_body]
pub struct SignatureMap {
    map: TreeMap<Vec<u64>, usize>,
}

/// The key/value pairs that a signature map holds.
pub uninterp spec fn signature_map_contents(m: SignatureMap) -> Map<Seq<u64>, usize>;

/// An empty map: `TreeMap::new`.
#[verifier::external_body]
pub(crate) fn signature_map_new() -> (r: SignatureMap)
    ensures
        signature_map_contents(r).dom() == Set::<Seq<u64>>::empty(),
{
    SignatureMap { map: TreeMap::new() }
}

/// `TreeMap::insert`: maps `key` to `value`, replacing the value of an equal
/// key (keys are compared with the order of `Vec<u64>`, which is
/// lexicographic and equal exactly on equal vectors).  Returns the replaced
/// value.
#[verifier::external_body]
pub(crate) fn signature_map_insert(m: &mut SignatureMap, key: Vec<u64>, value: usize) -> (r: Option<usize>)
    ensures
        signature_map_contents(*final(m)) == signature_map_contents(*old(m)).insert(key@, value),
        r == if signature_map_contents(*old(m)).dom().contains(key@) {
            Some(signature_map_contents(*old(m))[key@])
        } else {
            None
        },
{
    m.map.insert(key, value)
}

/// `TreeMap::get`: the value of the key equal to `key`, if any.
#[verifier::external_body]
pub(crate) fn signature_map_get(m: &SignatureMap, key: &Vec<u64>) -> (r: Option<usize>)
    ensures
        r == if signature_map_contents(*m).dom().contains(key@) {
            Some(signature_map_contents(*m)[key@])
        } else {
            None
        },
{
    m.map.get(key).copied()
}

#[verifier::external_type_specification]
#[verifier::external_body]
#[verifier::reject_recursive_types(T)]
#[verifier::reject_recursive_types(C)]
pub struct ExBinaryHeap<T, C>(BinaryHeap<T, C>);

#[verifier::external_type_specification]
#[verifier::external_body]
pub struct ExMinComparator(MinComparator);

/// A heap that pops its smallest item first.
pub type MinHeap = BinaryHeap<(usize, usize, usize), MinComparator>;

/// The items that a heap holds.
pub uninterp spec fn heap_items(h: MinHeap) -> Multiset<(usize, usize, usize)>;

/// The lexicographic order of triples, which `Ord` gives tuples.
pub open spec fn triple_le(a: (usize, usize, usize), b: (usize, usize, usize)) -> bool {
    ||| a.0 < b.0
    ||| a.0 == b.0 && a.1 < b.1
    ||| a.0 == b.0 && a.1 == b.1 && a.2 <= b.2
}

/// An empty min-heap: `BinaryHeap::new_min`.
#[verifier::external_body]
pub(crate) fn heap_new_min() -> (r: MinHeap)
    ensures
        heap_items(r).len() == 0,
{
    BinaryHeap::new_min()
}

/// `BinaryHeap::push`: adds an item.
#[verifier::external_body]
pub(crate) fn heap_push(h: &mut MinHeap, item: (usize, usize, usize))
    ensures
        heap_items(*final(h)) == heap_items(*old(h)).insert(item),
{
    h.push(item)
}

/// `BinaryHeap::pop` on a min-heap: removes and returns a smallest item, or
/// `None` when the heap is empty.
#[verifier::external_body]
pub(crate) fn heap_pop(h: &mut MinHeap) -> (r: Option<(usize, usize, usize)>)
    ensures
        heap_items(*old(h)).len() == 0 ==> r is None && heap_items(*final(h)) == heap_items(*old(h)),
        heap_items(*old(h)).len() > 0 ==> r is Some,
        r matches Some(x) ==> heap_items(*old(h)).contains(x) && heap_items(*final(h)) == heap_items(*old(h)).remove(x)
            && forall|z: (usize, usize, usize)| #[trigger] heap_items(*old(h)).contains(z) ==> triple_le(x, z),
{
    h.pop()
}

/// `BinaryHeap::is_empty`.
#[verifier::external_body]
pub(crate) fn heap_is_empty(h: &MinHeap) -> (r: bool)
    ensures
        r == (heap_items(*h).len() == 0),
{
    h.is_empty()
}

/// An empty heap holds no item.
pub proof fn lemma_heap_empty(h: MinHeap)
    requires
        heap_items(h).len() == 0,
    ensures
        forall|z: (usize, usize, usize)| !#[trigger] heap_items(h).contains(z),
{
    vstd::multiset::lemma_multiset_empty_len(heap_items(h));
}

} // verus!
