//! Per-shard append-only buffers behind a consistent-hashing router.

use crate::cache::ring::{ring_get_node, ring_new, ring_nodes, ring_owner, ring_replicas, Ring};
use std::collections::hash_map::Entry;
use std::collections::HashMap;
use vstd::prelude::*;
use vstd::std_specs::hash::spec_keys_iter;
use vstd::std_specs::iter::IteratorSpec;

verus! {

/// The byte that closes every record in a buffer: a line feed.
pub const RECORD_SEPARATOR: u8 = 10;

/// Number of shards of a cache made by [`MemCache::new`].
pub const DEFAULT_SHARDS: i8 = 5;

/// Ring positions per shard of a cache made by [`MemCache::new`].
pub const DEFAULT_REPLICAS: isize = 10;

/// Sum of the lengths of `payloads`.
pub open spec fn total_len(payloads: Seq<Seq<u8>>) -> nat
    decreases payloads.len(),
{
    if payloads.len() == 0 {
        0
    } else {
        total_len(payloads.drop_last()) + payloads.last().len()
    }
}

/// The chunks that a buffer holds for `payloads`: each payload, followed by a
/// chunk of one separator byte.
pub open spec fn framed(payloads: Seq<Seq<u8>>) -> Seq<Seq<u8>> {
    Seq::new(
        2 * payloads.len(),
        |i: int|
            if i % 2 == 0 {
                payloads[i / 2]
            } else {
                seq![RECORD_SEPARATOR]
            },
    )
}

/// The bytes of a drained buffer once its chunks are laid end to end: each
/// payload, in push order, closed by a separator.
pub open spec fn joined(payloads: Seq<Seq<u8>>) -> Seq<u8>
    decreases payloads.len(),
{
    if payloads.len() == 0 {
        Seq::empty()
    } else {
        joined(payloads.drop_last()) + payloads.last() + seq![RECORD_SEPARATOR]
    }
}

/// One more payload adds two chunks: the payload and a separator.
pub proof fn lemma_framed_push(payloads: Seq<Seq<u8>>, payload: Seq<u8>)
    ensures
        framed(payloads.push(payload)) == framed(payloads).push(payload).push(
            seq![RECORD_SEPARATOR],
        ),
{
    let longer = framed(payloads.push(payload));
    let grown = framed(payloads).push(payload).push(seq![RECORD_SEPARATOR]);
    assert forall|i: int| 0 <= i < longer.len() implies longer[i] == grown[i] by {
        if i < 2 * payloads.len() && i % 2 == 0 {
            assert(payloads.push(payload)[i / 2] == payloads[i / 2]);
        }
    }
    assert(longer =~= grown);
}

/// Laying the chunks of a buffer end to end gives `joined`.
pub proof fn lemma_framed_flatten(payloads: Seq<Seq<u8>>)
    ensures
        framed(payloads).flatten() == joined(payloads),
    decreases payloads.len(),
{
    if payloads.len() == 0 {
        assert(framed(payloads) =~= Seq::<Seq<u8>>::empty());
        assert(framed(payloads).flatten() =~= joined(payloads));
    } else {
        let front = payloads.drop_last();
        let last = payloads.last();
        assert(payloads =~= front.push(last));
        lemma_framed_push(front, last);
        lemma_framed_flatten(front);
        framed(front).lemma_flatten_push(last);
        framed(front).push(last).lemma_flatten_push(seq![RECORD_SEPARATOR]);
        assert(framed(payloads).flatten() =~= joined(payloads));
    }
}

/// Three payloads pushed to one shard drain as the first, a separator, the
/// second, a separator, the third and a separator.
pub proof fn lemma_three_payloads_joined(a: Seq<u8>, b: Seq<u8>, c: Seq<u8>)
    ensures
        framed(seq![a, b, c]).flatten() == a + seq![RECORD_SEPARATOR] + b + seq![RECORD_SEPARATOR]
            + c + seq![RECORD_SEPARATOR],
        seq![a, b, c] == Seq::<Seq<u8>>::empty().push(a).push(b).push(c),
{
    let none = Seq::<Seq<u8>>::empty();
    assert(seq![a, b, c] =~= none.push(a).push(b).push(c));
    lemma_framed_flatten(seq![a, b, c]);
    assert(seq![a, b, c].drop_last() =~= seq![a, b]);
    assert(seq![a, b].drop_last() =~= seq![a]);
    assert(seq![a].drop_last() =~= none);
    assert(joined(none) =~= Seq::<u8>::empty());
    assert(joined(seq![a]) =~= a + seq![RECORD_SEPARATOR]);
    assert(joined(seq![a, b]) =~= a + seq![RECORD_SEPARATOR] + b + seq![RECORD_SEPARATOR]);
    assert(joined(seq![a, b, c]) =~= a + seq![RECORD_SEPARATOR] + b + seq![RECORD_SEPARATOR] + c
        + seq![RECORD_SEPARATOR]);
}

/// What shard `id` holds in `shards`: nothing where it has no buffer.
pub open spec fn held(shards: Map<i8, Seq<Seq<u8>>>, id: i8) -> Seq<Seq<u8>> {
    if shards.contains_key(id) {
        shards[id]
    } else {
        Seq::empty()
    }
}

/// `shards` once `payload` is appended to what shard `id` holds.
pub open spec fn appended(shards: Map<i8, Seq<Seq<u8>>>, id: i8, payload: Seq<u8>) -> Map<
    i8,
    Seq<Seq<u8>>,
> {
    shards.insert(id, held(shards, id).push(payload))
}

/// The contents of each chunk of `chunks`.
pub open spec fn views(chunks: Seq<Vec<u8>>) -> Seq<Seq<u8>> {
    chunks.map_values(|c: Vec<u8>| c@)
}

/// The buffer of one shard: the records pushed since it was last drained.
#[derive(Debug)]
pub struct CacheMember {
    data: Vec<Vec<u8>>,
    len: usize,
}

impl CacheMember {
    /// The payloads pushed so far, oldest first.
    pub closed spec fn payloads(&self) -> Seq<Seq<u8>> {
        Seq::new(self.data@.len() / 2, |i: int| self.data@[2 * i]@)
    }

    /// The chunks are the framed payloads, and the running total is the sum
    /// of the payload lengths.
    pub closed spec fn wf(&self) -> bool {
        &&& views(self.data@) == framed(self.payloads())
        &&& self.len == total_len(self.payloads())
    }

    /// An empty buffer.
    pub fn new() -> (m: Self)
        ensures
            m.wf(),
            m.payloads() == Seq::<Seq<u8>>::empty(),
    {
        let data_cache: Vec<Vec<u8>> = Vec::new();
        let m = CacheMember { data: data_cache, len: 0 };
        assert(m.payloads() =~= Seq::<Seq<u8>>::empty());
        assert(views(m.data@) =~= framed(m.payloads()));
        m
    }

    /// Number of payload bytes held, separators not counted.
    pub fn size(&self) -> (n: usize)
        requires
            self.wf(),
        ensures
            n == total_len(self.payloads()),
    {
        self.len
    }

    /// Appends `data` and a separator.
    pub fn push(&mut self, data: Vec<u8>)
        requires
            old(self).wf(),
            total_len(old(self).payloads()) + data@.len() <= usize::MAX,
        ensures
            final(self).wf(),
            final(self).payloads() == old(self).payloads().push(data@),
    {
        let ghost before = self.payloads();
        let ghost held = self.data@;
        let ghost added = data@;
        assert(views(held).len() == framed(before).len());
        self.len += data.len();
        self.data.push(data);
        self.data.push(vec![RECORD_SEPARATOR]);
        proof {
            let after = self.payloads();
            assert(self.data@.len() == held.len() + 2);
            assert forall|i: int| 0 <= i < after.len() implies after[i] == before.push(added)[i] by {
                if i < before.len() {
                    assert(self.data@[2 * i] == held[2 * i]);
                }
            }
            assert(after =~= before.push(added));
            assert(after.drop_last() =~= before);
            assert forall|j: int| 0 <= j < self.data@.len() implies views(self.data@)[j] == framed(
                after,
            )[j] by {
                if j < held.len() {
                    assert(views(held)[j] == framed(before)[j]);
                    assert(self.data@[j] == held[j]);
                }
            }
            assert(views(self.data@) =~= framed(after));
        }
    }

    /// The chunks of the buffer, in order.
    pub fn into_chunks(self) -> (chunks: Vec<Vec<u8>>)
        requires
            self.wf(),
        ensures
            views(chunks@) == framed(self.payloads()),
    {
        self.data
    }
}

/// Why the cache refused a request.
#[derive(Debug, Clone, Copy, PartialEq, Eq, Structural)]
pub enum CacheError {
    /// The shard holds nothing: there is nothing to flush.
    Empty,
    /// The shard's byte total would no longer fit its counter.
    Overflow,
}

impl CacheError {
    /// The wording of the error.
    pub fn message(&self) -> (text: &'static str)
        ensures
            text@ == (match *self {
                CacheError::Empty => "Empty result"@,
                CacheError::Overflow => "Shard is full"@,
            }),
    {
        match self {
            CacheError::Empty => "Empty result",
            CacheError::Overflow => "Shard is full",
        }
    }
}

/// The shard ids `0, 1, .., count - 1`.
pub open spec fn shard_ids(count: int) -> Seq<i8> {
    Seq::new(count as nat, |i: int| i as i8)
}

/// A map from shard id to buffer, with the ring that assigns keys to shards.
pub struct MemCache {
    store: HashMap<i8, CacheMember>,
    hash: Ring,
}

impl MemCache {
    /// The payloads held for each shard that holds any, oldest first.
    pub closed spec fn shards(&self) -> Map<i8, Seq<Seq<u8>>> {
        Map::new(|id: i8| self.store@.contains_key(id), |id: i8| self.store@[id].payloads())
    }

    /// The shard ids on the ring.
    pub closed spec fn nodes(&self) -> Seq<i8> {
        ring_nodes(self.hash)
    }

    /// The number of ring positions of each shard.
    pub closed spec fn replicas(&self) -> int {
        ring_replicas(self.hash)
    }

    /// The shard that the ring assigns to `key`.
    pub open spec fn shard_of(&self, key: Seq<char>) -> Option<i8> {
        ring_owner(self.nodes(), self.replicas(), key)
    }

    /// Payload bytes held for `id`; 0 where the shard holds nothing.
    pub open spec fn size_of(&self, id: i8) -> nat {
        if self.shards().contains_key(id) {
            total_len(self.shards()[id])
        } else {
            0
        }
    }

    /// The ring has positions; every buffer present belongs to a shard of
    /// the ring, is well formed and holds at least one record.
    pub closed spec fn wf(&self) -> bool {
        &&& self.nodes().len() > 0
        &&& self.replicas() > 0
        &&& forall|id: i8| #[trigger]
            self.store@.contains_key(id) ==> {
                &&& self.store@[id].wf()
                &&& self.store@[id].payloads().len() > 0
                &&& self.nodes().contains(id)
            }
    }

    /// An empty cache over the default ring: shards `0..5` with 10 positions
    /// each.
    pub fn new() -> (cache: Self)
        ensures
            cache.wf(),
            cache.shards() == Map::<i8, Seq<Seq<u8>>>::empty(),
            cache.nodes() == shard_ids(DEFAULT_SHARDS as int),
            cache.replicas() == DEFAULT_REPLICAS,
    {
        MemCache::with_shards(DEFAULT_SHARDS, DEFAULT_REPLICAS)
    }

    /// An empty cache over a ring of the shards `0..count` with `replicas`
    /// positions each.
    pub fn with_shards(count: i8, replicas: isize) -> (cache: Self)
        requires
            count > 0,
            replicas > 0,
        ensures
            cache.wf(),
            cache.shards() == Map::<i8, Seq<Seq<u8>>>::empty(),
            cache.nodes() == shard_ids(count as int),
            cache.replicas() == replicas,
    {
        let data_map: HashMap<i8, CacheMember> = HashMap::new();
        let mut nodes: Vec<i8> = Vec::new();
        let mut i: i8 = 0;
        while i < count
            invariant
                0 <= i <= count,
                nodes@ == shard_ids(i as int),
            decreases count - i,
        {
            nodes.push(i);
            i = i + 1;
            assert(nodes@ =~= shard_ids(i as int));
        }
        let hash_ring = ring_new(nodes, replicas);
        let cache = MemCache { store: data_map, hash: hash_ring };
        assert(cache.shards() =~= Map::<i8, Seq<Seq<u8>>>::empty());
        cache
    }

    /// Every shard id on the ring lies in `0..count` where the ring was
    /// built over `shard_ids(count)`.
    pub proof fn lemma_shard_in_range(&self, id: i8, count: int)
        requires
            self.nodes() == shard_ids(count),
            0 <= count <= 127,
            self.nodes().contains(id),
        ensures
            0 <= id < count,
    {
        let i = choose|i: int| 0 <= i < self.nodes().len() && self.nodes()[i] == id;
        assert(shard_ids(count)[i] == i as i8);
    }

    /// A shard that holds a buffer holds at least one record.
    pub proof fn lemma_held_is_nonempty(&self, id: i8)
        requires
            self.wf(),
            self.shards().contains_key(id),
        ensures
            self.shards()[id].len() > 0,
            self.nodes().contains(id),
    {
    }

    /// Routing depends on the ring's shards, its replica count and the key
    /// alone: two caches over equal rings route every key alike, whatever
    /// they hold.
    pub proof fn lemma_routing_is_stable(&self, other: &MemCache, key: Seq<char>)
        requires
            self.nodes() == other.nodes(),
            self.replicas() == other.replicas(),
        ensures
            self.shard_of(key) == other.shard_of(key),
    {
    }

    /// The shard that `key` is routed to.
    pub fn resolve(&self, key: &str) -> (id: i8)
        requires
            self.wf(),
        ensures
            self.shard_of(key@) == Some(id),
            self.nodes().contains(id),
    {
        match ring_get_node(&self.hash, key.to_owned()) {
            Some(id) => id,
            None => unreached(),
        }
    }

    /// Appends `data` and a separator to the buffer of the shard that `key`
    /// is routed to, creating the buffer where the shard holds nothing.
    pub fn push(&mut self, key: String, data: Vec<u8>) -> (r: Result<(), CacheError>)
        requires
            old(self).wf(),
        ensures
            final(self).wf(),
            final(self).nodes() == old(self).nodes(),
            final(self).replicas() == old(self).replicas(),
            old(self).shard_of(key@) is Some,
            old(self).nodes().contains(old(self).shard_of(key@).unwrap()),
            ({
                let id = old(self).shard_of(key@).unwrap();
                let shards = old(self).shards();
                match r {
                    Ok(()) => {
                        &&& total_len(held(shards, id)) + data@.len() <= usize::MAX
                        &&& final(self).shards() == appended(shards, id, data@)
                    },
                    Err(e) => {
                        &&& e == CacheError::Overflow
                        &&& total_len(held(shards, id)) + data@.len() > usize::MAX
                        &&& final(self).shards() == shards
                    },
                }
            }),
            forall|other: i8|
                other != old(self).shard_of(key@).unwrap() ==> {
                    &&& final(self).shards().contains_key(other) == old(self).shards().contains_key(
                        other,
                    )
                    &&& old(self).shards().contains_key(other) ==> final(self).shards()[other]
                        == old(self).shards()[other]
                    &&& final(self).size_of(other) == old(self).size_of(other)
                },
    {
        broadcast use vstd::std_specs::hash::group_hash_axioms;

        let nid = self.resolve(key.as_str());
        let added: usize = data.len();
        let ghost before = self.store@;
        match self.store.entry(nid) {
            Entry::Vacant(e) => {
                let mut member = CacheMember::new();
                assert(total_len(member.payloads()) == 0);
                member.push(data);
                e.insert(member);
            },
            Entry::Occupied(mut e) => {
                if e.get().size() > usize::MAX - added {
                    assert(self.store@ =~= before);
                    assert(self.shards() =~= old(self).shards());
                    return Err(CacheError::Overflow);
                }
                e.get_mut().push(data);
            },
        }
        assert(self.shards() =~= appended(old(self).shards(), nid, data@));
        Ok(())
    }

    /// Removes the buffer of shard `key` and returns its chunks. A shard that
    /// holds nothing gives `CacheError::Empty`: there is nothing to flush.
    pub fn pop(&mut self, key: i8) -> (r: Result<Vec<Vec<u8>>, CacheError>)
        requires
            old(self).wf(),
        ensures
            final(self).wf(),
            final(self).nodes() == old(self).nodes(),
            final(self).replicas() == old(self).replicas(),
            final(self).shards() == old(self).shards().remove(key),
            final(self).size_of(key) == 0,
            match r {
                Ok(chunks) => {
                    &&& old(self).shards().contains_key(key)
                    &&& views(chunks@) == framed(old(self).shards()[key])
                },
                Err(e) => e == CacheError::Empty && !old(self).shards().contains_key(key),
            },
    {
        broadcast use vstd::std_specs::hash::group_hash_axioms;

        let removed = self.store.remove(&key);
        assert(self.shards() =~= old(self).shards().remove(key));
        match removed {
            Some(v) => Ok(v.into_chunks()),
            None => Err(CacheError::Empty),
        }
    }

    /// Payload bytes held for shard `key`, separators not counted; 0 where
    /// the shard holds nothing.
    pub fn size(&self, key: i8) -> (n: usize)
        requires
            self.wf(),
        ensures
            n == self.size_of(key),
    {
        broadcast use vstd::std_specs::hash::group_hash_axioms;

        match self.store.get(&key) {
            Some(values) => values.size(),
            None => 0,
        }
    }

    /// The shards that hold a buffer, each once, in no particular order.
    pub fn keys(&self) -> (keys: Vec<i8>)
        requires
            self.wf(),
        ensures
            keys@.no_duplicates(),
            keys@.to_set() == self.shards().dom(),
    {
        broadcast use vstd::std_specs::hash::group_hash_axioms;

        let mut keys: Vec<i8> = Vec::new();
        let ghost listed = spec_keys_iter(&self.store).remaining();
        for k in it: self.store.keys()
            invariant
                it.seq() == listed,
                keys@ == listed.take(it.index()).unref(),
        {
            keys.push(*k);
            assert(keys@ =~= listed.take(it.index() + 1).unref());
        }
        proof {
            assert(listed.take(listed.len() as int) =~= listed);
            assert(keys@ == listed.unref());
            assert(self.shards().dom() =~= self.store@.dom());
            assert forall|i: int, j: int|
                0 <= i < keys@.len() && 0 <= j < keys@.len() && i != j implies keys@[i]
                != keys@[j] by {
                assert(listed[i] != listed[j]);
            }
        }
        keys
    }
}

} // verus!
