//! The slot store behind a tree: `slab::Slab`, as verified code sees it.
//!
//! Nothing in this file is proved. Each function makes one call into the
//! `slab` crate, and its contract states what that crate's source shows of
//! the call, over two names: the entries that the slab holds, and the stack of
//! the keys that it has released and will issue again.

use vstd::prelude::*;
use crate::node::Node;

verus! {

/// `slab::Slab`, as a type whose inside verified code does not see.
#[verifier::external_type_specification]
#[verifier::external_body]
#[verifier::reject_recursive_types(T)]
pub struct ExSlab<T>(slab::Slab<T>);

/// The entries of a slab, by their keys.
pub uninterp spec fn slab_entries(arena: slab::Slab<Node>) -> Map<usize, Node>;

/// The keys that a slab has released and not issued again, the one that it
/// released last first: its stack of vacant slots.
pub uninterp spec fn slab_released(arena: slab::Slab<Node>) -> Seq<usize>;

/// The key that the next insertion gets: the top of the stack of vacant
/// slots, or, with no slot vacant, the number of entries.
pub open spec fn next_key(entries: Map<usize, Node>, released: Seq<usize>) -> usize {
    if released.len() > 0 {
        released[0]
    } else {
        entries.dom().len() as usize
    }
}

/// The stack of vacant slots after an insertion: without its top.
pub open spec fn after_issue(released: Seq<usize>) -> Seq<usize> {
    if released.len() > 0 {
        released.drop_first()
    } else {
        released
    }
}

/// The number of slots of a slab, occupied and vacant.
pub open spec fn slot_count(entries: Map<usize, Node>, released: Seq<usize>) -> nat {
    entries.dom().len() + released.len()
}

/// The entries of an empty slab.
pub open spec fn no_entries() -> Map<usize, Node> {
    Map::empty()
}

/// `Slab::new`: a slab with no entry and no vacant slot.
#[verifier::external_body]
pub(crate) fn slab_new() -> (arena: slab::Slab<Node>)
    ensures
        slab_entries(arena) == no_entries(),
        slab_released(arena) == Seq::<usize>::empty(),
{
    slab::Slab::new()
}

/// `Slab::get`: the entry under `key`, if there is one.
#[verifier::external_body]
pub(crate) fn slab_get(arena: &slab::Slab<Node>, key: usize) -> (found: Option<&Node>)
    ensures
        found.is_some() == slab_entries(*arena).contains_key(key),
        found.is_some() ==> *found.unwrap() == slab_entries(*arena)[key],
{
    arena.get(key)
}

/// `Slab::get_mut`: the entry under `key`, if there is one, to be written
/// in place. The other entries and the stack of vacant slots stay.
#[verifier::external_body]
pub(crate) fn slab_get_mut(arena: &mut slab::Slab<Node>, key: usize) -> (found: Option<&mut Node>)
    ensures
        slab_released(*final(arena)) == slab_released(*old(arena)),
        match found {
            Some(node) => slab_entries(*old(arena)).contains_key(key)
                && *node == slab_entries(*old(arena))[key]
                && slab_entries(*final(arena)) == slab_entries(*old(arena)).insert(key, *final(node)),
            None => !slab_entries(*old(arena)).contains_key(key)
                && slab_entries(*final(arena)) == slab_entries(*old(arena)),
        },
{
    arena.get_mut(key)
}

/// `Slab::insert`: stores `node` under the key on top of the stack of vacant
/// slots, or under a new key where no slot is vacant, and returns the key.
/// The key held no entry. The call panics where the storage cannot grow;
/// a slab of fewer than 2^32 slots is far from that.
#[verifier::external_body]
pub(crate) fn slab_insert(arena: &mut slab::Slab<Node>, node: Node) -> (key: usize)
    requires
        slot_count(slab_entries(*old(arena)), slab_released(*old(arena))) < 0x1_0000_0000,
    ensures
        key == next_key(slab_entries(*old(arena)), slab_released(*old(arena))),
        !slab_entries(*old(arena)).contains_key(key),
        slab_entries(*final(arena)) == slab_entries(*old(arena)).insert(key, node),
        slab_released(*final(arena)) == after_issue(slab_released(*old(arena))),
{
    arena.insert(node)
}

/// `Slab::remove`: takes the entry under `key` out and returns it; the key
/// goes on top of the stack of vacant slots. The call panics where `key` has
/// no entry.
#[verifier::external_body]
pub(crate) fn slab_remove(arena: &mut slab::Slab<Node>, key: usize) -> (node: Node)
    requires
        slab_entries(*old(arena)).contains_key(key),
    ensures
        node == slab_entries(*old(arena))[key],
        slab_entries(*final(arena)) == slab_entries(*old(arena)).remove(key),
        slab_released(*final(arena)) == seq![key] + slab_released(*old(arena)),
{
    arena.remove(key)
}

} // verus!
