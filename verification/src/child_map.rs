//! The children of one node: an insertion-ordered map from a child's id to
//! its place in the arena, kept in a `linked_hash_map::LinkedHashMap`.
//!
//! Nothing here is proved. Each function states what the map's own code does.

use vstd::prelude::*;
use linked_hash_map::LinkedHashMap;

verus! {

/// `linked_hash_map::LinkedHashMap`, opaque to the verifier.
#[verifier::external_type_specification]
#[verifier::external_body]
#[verifier::reject_recursive_types(K)]
#[verifier::reject_recursive_types(V)]
#[verifier::reject_recursive_types(S)]
pub struct ExLinkedHashMap<K, V, S>(LinkedHashMap<K, V, S>);

/// The entries of a child map as `LinkedHashMap::iter` walks them, the
/// oldest first: each child's id and its place in the arena.
pub uninterp spec fn child_entries(m: LinkedHashMap<String, usize>) -> Seq<(Seq<char>, usize)>;

/// `LinkedHashMap::new`: a map without entries.
#[verifier::external_body]
pub(crate) fn new_children() -> (m: LinkedHashMap<String, usize>)
    ensures
        child_entries(m) == Seq::<(Seq<char>, usize)>::empty(),
{
    LinkedHashMap::new()
}

/// `LinkedHashMap::len`: the number of entries.
#[verifier::external_body]
pub(crate) fn count_children(m: &LinkedHashMap<String, usize>) -> (n: usize)
    ensures
        n == child_entries(*m).len(),
{
    m.len()
}

/// `LinkedHashMap::get`: the value of the entry whose key is `id`; `None`
/// where no entry has that key.
#[verifier::external_body]
pub(crate) fn child_by_id(m: &LinkedHashMap<String, usize>, id: &str) -> (r: Option<usize>)
    ensures
        match r {
            Some(node) => exists|i: int|
                0 <= i < child_entries(*m).len() && #[trigger] child_entries(*m)[i] == (id@, node),
            None => forall|i: int|
                0 <= i < child_entries(*m).len() ==> (#[trigger] child_entries(*m)[i]).0 != id@,
        },
{
    m.get(id).copied()
}

/// `LinkedHashMap::insert`. A new key goes to the end with its value and
/// `None` comes back. A key that is already there leaves its place, goes to
/// the end with the new value, and its old value comes back.
#[verifier::external_body]
pub(crate) fn insert_child(m: &mut LinkedHashMap<String, usize>, id: String, node: usize) -> (r:
    Option<usize>)
    ensures
        match r {
            None => {
                &&& forall|i: int|
                    0 <= i < child_entries(*old(m)).len() ==> (#[trigger] child_entries(
                        *old(m),
                    )[i]).0 != id@
                &&& child_entries(*final(m)) == child_entries(*old(m)).push((id@, node))
            },
            Some(held) => exists|i: int|
                {
                    &&& 0 <= i < child_entries(*old(m)).len()
                    &&& #[trigger] child_entries(*old(m))[i] == (id@, held)
                    &&& child_entries(*final(m)) == child_entries(*old(m)).remove(i).push(
                        (id@, node),
                    )
                },
        },
{
    m.insert(id, node)
}

/// `LinkedHashMap::values`: the values of the entries, the oldest first.
#[verifier::external_body]
pub(crate) fn children_in_order(m: &LinkedHashMap<String, usize>) -> (nodes: Vec<usize>)
    ensures
        nodes@.len() == child_entries(*m).len(),
        forall|i: int| 0 <= i < nodes@.len() ==> nodes@[i] == (#[trigger] child_entries(*m)[i]).1,
{
    m.values().copied().collect()
}

} // verus!
