//! The consistent-hashing ring of the `hash_ring` crate, as far as the cache
//! relies on it. Nothing in this file is proved: each contract states what
//! the crate's source shows.

use hash_ring::HashRing;
use vstd::prelude::*;

verus! {

/// A `hash_ring::HashRing` over shard ids. Its hasher type is not one that
/// can be declared here, so the ring is kept whole behind this struct.
#[verifier::external_body]
pub struct Ring {
    inner: HashRing<i8>,
}

/// The nodes that a ring was built from, in the order they were given.
pub uninterp spec fn ring_nodes(ring: Ring) -> Seq<i8>;

/// The number of positions that each node of a ring was given.
pub uninterp spec fn ring_replicas(ring: Ring) -> int;

/// The node that `HashRing::get_node` answers for `key` on a ring built from
/// `nodes` with `replicas` positions each: the owner of the first position at
/// or after the key's hash, going round the circle.
pub uninterp spec fn ring_owner(nodes: Seq<i8>, replicas: int, key: Seq<char>) -> Option<i8>;

/// `HashRing::new`: a ring over `nodes`, each with `replicas` positions. The
/// ring hashes with a fixed seed, so equal arguments give equal rings.
#[verifier::external_body]
pub(crate) fn ring_new(nodes: Vec<i8>, replicas: isize) -> (ring: Ring)
    ensures
        ring_nodes(ring) == nodes@,
        ring_replicas(ring) == replicas,
{
    Ring { inner: HashRing::new(nodes, replicas) }
}

/// `HashRing::get_node`: the owner of `key`. It depends on the ring's nodes,
/// its replica count and the key alone; it is `None` exactly on a ring
/// without positions, and otherwise one of the ring's nodes.
#[verifier::external_body]
pub(crate) fn ring_get_node(ring: &Ring, key: String) -> (node: Option<i8>)
    ensures
        node == ring_owner(ring_nodes(*ring), ring_replicas(*ring), key@),
        node is None <==> ring_nodes(*ring).len() == 0 || ring_replicas(*ring) <= 0,
        node matches Some(n) ==> ring_nodes(*ring).contains(n),
{
    ring.inner.get_node(key).copied()
}

} // verus!
