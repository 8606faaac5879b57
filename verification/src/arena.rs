//! The slot map that holds the nodes of Cartesian trees.
//!
//! Every function here that touches the slot map is trusted: its contract is
//! stated over `node_map`, the keys and nodes that the map holds.
use vstd::prelude::*;
use slotmap::{DefaultKey, SlotMap};
use crate::cart_tree::CartNode;

verus! {

#[verifier::external_type_specification]
#[verifier::external_body]
pub struct ExDefaultKey(DefaultKey);

/// The key of a node in a `CartNodes` map.
pub type CartNodeKey = DefaultKey;

/// Storage for the nodes of any number of Cartesian trees.
#[verifier::external_body]
pub struct CartNodes {
    slots: SlotMap<CartNodeKey, CartNode>,
}

/// The keys that `nodes` holds, each with its node.
pub uninterp spec fn node_map(nodes: CartNodes) -> Map<CartNodeKey, CartNode>;

impl CartNodes {
    /// An empty map, made by `SlotMap::with_key`.
    #[verifier::external_body]
    pub(crate) fn new() -> (fresh: CartNodes)
        ensures
            node_map(fresh).is_empty(),
    {
        CartNodes { slots: SlotMap::with_key() }
    }

    /// `SlotMap::insert`: stores `node` under a key that the map did not
    /// hold.  The map panics when it needs a fresh slot and already has
    /// `u32::MAX` of them; it takes a fresh slot only when every slot but its
    /// unused first one holds a node, so below `u32::MAX - 1` nodes it does
    /// not panic.
    #[verifier::external_body]
    pub(crate) fn insert(&mut self, node: CartNode) -> (key: CartNodeKey)
        requires
            node_map(*old(self)).dom().len() + 2 < u32::MAX,
        ensures
            !node_map(*old(self)).contains_key(key),
            node_map(*final(self)) == node_map(*old(self)).insert(key, node),
    {
        self.slots.insert(node)
    }

    /// `SlotMap::remove`: takes the node out of the map when the map holds
    /// `key`, and leaves the map as it was otherwise.
    #[verifier::external_body]
    pub(crate) fn remove(&mut self, key: CartNodeKey) -> (r: Option<CartNode>)
        ensures
            node_map(*old(self)).contains_key(key) ==> r == Some(node_map(*old(self))[key])
                && node_map(*final(self)) == node_map(*old(self)).remove(key),
            !node_map(*old(self)).contains_key(key) ==> r is None && node_map(*final(self))
                == node_map(*old(self)),
    {
        self.slots.remove(key)
    }

    /// `SlotMap::get`: the node under `key`, when the map holds `key`.
    #[verifier::external_body]
    pub(crate) fn get(&self, key: CartNodeKey) -> (r: Option<&CartNode>)
        ensures
            node_map(*self).contains_key(key) ==> r == Some(&node_map(*self)[key]),
            !node_map(*self).contains_key(key) ==> r is None,
    {
        self.slots.get(key)
    }

    /// `SlotMap::index_mut`, written through: replaces the node under `key`.
    #[verifier::external_body]
    pub(crate) fn set(&mut self, key: CartNodeKey, node: CartNode)
        requires
            node_map(*old(self)).contains_key(key),
        ensures
            node_map(*final(self)) == node_map(*old(self)).insert(key, node),
    {
        self.slots[key] = node;
    }
}

impl Clone for CartNodes {
    /// `SlotMap::clone`: a map that holds the same nodes under the same keys.
    #[verifier::external_body]
    fn clone(&self) -> (copy: CartNodes)
        ensures
            node_map(copy) == node_map(*self),
    {
        CartNodes { slots: self.slots.clone() }
    }
}

impl Default for CartNodes {
    fn default() -> (fresh: CartNodes)
        ensures
            node_map(fresh).is_empty(),
    {
        CartNodes::new()
    }
}

} // verus!
