//! The flush coordinator: what is asked of the object store, and in which
//! order. The coordinator never talks to the store itself. It is handed what
//! happened (a tick of the timer, the answer to its last request) and says
//! what to do next; whoever owns the store's client carries that out.

use crate::cache::mem_consistent_cache::{
    appended, held, joined, lemma_framed_flatten, shard_ids, total_len, views, CacheError,
    MemCache, DEFAULT_REPLICAS, DEFAULT_SHARDS, RECORD_SEPARATOR,
};
use crate::record::{Greeting, RecordError};
use crate::tools::chunked_split::{
    chunks, lemma_chunks_bounded, lemma_chunks_concat, ChunkedSplitTrait,
};
use crate::tools::decimal::{decimal, push_decimal, push_signed_decimal, signed_decimal};
use rand::Rng;
use vstd::prelude::*;
use vstd::slice::slice_to_vec;
use vstd::string::StringExecFns;

verus! {

/// Seconds between two flush cycles.
pub const FLUSH_INTERVAL_SECS: u64 = 300;

/// Seconds to wait before a failed request is made again.
pub const RETRY_DELAY_SECS: u64 = 1;

/// The largest number of bytes stored as one object.
pub const UPLOAD_CHUNK_BYTES: usize = 10000;

/// The name of the container of `shard`: `hash` and the shard id.
pub open spec fn bucket_name_of(shard: i8) -> Seq<char> {
    seq!['h', 'a', 's', 'h'] + signed_decimal(shard as int)
}

/// The key of an object stored at `date`: the date, `/` and a number.
pub open spec fn object_key_of(date: u64, nonce: u32) -> Seq<char> {
    decimal(date as nat) + seq!['/'] + decimal(nonce as nat)
}

/// The access rule that every object is stored with.
pub open spec fn public_read() -> Seq<char> {
    seq!['p', 'u', 'b', 'l', 'i', 'c', '-', 'r', 'e', 'a', 'd']
}

/// The name of the container that shard `shard` is flushed to.
pub fn bucket_name(shard: i8) -> (name: String)
    ensures
        name@ == bucket_name_of(shard),
{
    proof {
        reveal_strlit("hash");
    }
    let mut name = String::from_str("hash");
    assert(name@ =~= seq!['h', 'a', 's', 'h']);
    push_signed_decimal(&mut name, shard as i64);
    name
}

/// The key `<date>/<nonce>`.
pub fn object_key(date: u64, nonce: u32) -> (key: String)
    ensures
        key@ == object_key_of(date, nonce),
{
    proof {
        reveal_strlit("/");
    }
    let mut key = String::new();
    push_decimal(&mut key, date);
    key.append("/");
    push_decimal(&mut key, nonce as u64);
    assert(key@ =~= object_key_of(date, nonce));
    key
}

/// `rand::thread_rng().gen::<u32>()`: a number drawn by the thread's random
/// generator. Nothing is known of it.
#[verifier::external_body]
fn random_u32() -> u32 {
    rand::thread_rng().gen::<u32>()
}

/// A fresh object key for `date`: the date, `/` and a random number.
pub fn get_filename(date: u64) -> (key: String)
    ensures
        exists|nonce: u32| key@ == object_key_of(date, nonce),
{
    let nonce = random_u32();
    object_key(date, nonce)
}

/// The chunks of a drained buffer, laid end to end.
pub fn concat_chunks(values: Vec<Vec<u8>>) -> (body: Vec<u8>)
    ensures
        body@ == views(values@).flatten(),
{
    let mut values = values;
    let mut body_full: Vec<u8> = Vec::new();
    let ghost all = views(values@);
    let n = values.len();
    let mut i: usize = 0;
    assert(all.take(0).flatten() =~= Seq::<u8>::empty());
    while i < n
        invariant
            i <= n,
            n == values.len(),
            all.len() == n,
            forall|j: int| i <= j < n ==> values@[j]@ == all[j],
            body_full@ == all.take(i as int).flatten(),
        decreases n - i,
    {
        body_full.append(&mut values[i]);
        proof {
            all.take(i as int).lemma_flatten_push(all[i as int]);
            assert(all.take(i + 1) =~= all.take(i as int).push(all[i as int]));
        }
        i = i + 1;
    }
    assert(all.take(n as int) =~= all);
    body_full
}

/// How a request to create a container ended.
#[derive(Debug, Clone, Copy, PartialEq, Eq, Structural)]
pub enum CreateOutcome {
    /// The container was created.
    Created,
    /// A container of that name exists already.
    AlreadyExists,
    /// A container of that name exists already and is the caller's own.
    AlreadyOwnedByYou,
    /// The request failed for any other reason.
    Failed,
}

impl CreateOutcome {
    /// The container is there: it was created, or it existed before.
    pub open spec fn usable(self) -> bool {
        !(self is Failed)
    }

    /// Whether the container is there.
    pub fn is_usable(&self) -> (b: bool)
        ensures
            b == self.usable(),
    {
        match self {
            CreateOutcome::Failed => false,
            _ => true,
        }
    }
}

/// What the coordinator is told.
#[derive(Debug, Clone, Copy, PartialEq, Eq, Structural)]
pub enum FlushEvent {
    /// The flush interval has passed; `now` is the time in seconds since
    /// the Unix epoch.
    Tick { now: u64 },
    /// The answer to `FlushAction::HeadBucket`.
    HeadBucket { exists: bool },
    /// The answer to `FlushAction::CreateBucket`.
    CreateBucket { outcome: CreateOutcome },
    /// The answer to `FlushAction::PutObject`.
    PutObject { stored: bool },
}

/// What the coordinator asks for.
#[derive(Debug)]
pub enum FlushAction {
    /// Wait `secs` seconds, then report a `FlushEvent::Tick`.
    Sleep { secs: u64 },
    /// Ask the store whether `bucket` exists.
    HeadBucket { bucket: String },
    /// Wait `delay` seconds, then ask the store to create `bucket`.
    CreateBucket { delay: u64, bucket: String },
    /// Wait `delay` seconds, then store `body` in `bucket` under `key` with
    /// the access rule `acl`.
    PutObject { delay: u64, bucket: String, key: String, body: Vec<u8>, acl: String },
}

/// Which answer the coordinator waits for.
#[derive(Debug, Clone, Copy, PartialEq, Eq, Structural)]
pub enum Stage {
    /// Between two cycles: the next tick.
    Idle,
    /// Whether the container of the current shard exists.
    Head,
    /// Whether the container of the current shard could be created.
    Create,
    /// Whether the first part of the outbox was stored.
    Put,
}

/// Position of the first shard of `queue` that holds a buffer; the length of
/// `queue` where none does.
pub open spec fn first_held(queue: Seq<i8>, shards: Map<i8, Seq<Seq<u8>>>) -> int
    decreases queue.len(),
{
    if queue.len() == 0 || shards.contains_key(queue[0]) {
        0
    } else {
        1 + first_held(queue.drop_first(), shards)
    }
}

/// The parts that the payloads of a drained shard are stored as: the chunks
/// of their joined bytes, cut at line feeds where the cap allows it.
pub open spec fn parts_of(payloads: Seq<Seq<u8>>) -> Seq<Seq<u8>> {
    chunks(joined(payloads), RECORD_SEPARATOR, UPLOAD_CHUNK_BYTES as nat)
}

/// What is stored for a drained shard is what was pushed to it: the parts,
/// laid end to end, are the payloads in push order, each closed by a
/// separator. No part is empty and none is over the upload cap.
pub proof fn lemma_parts_of(payloads: Seq<Seq<u8>>)
    ensures
        parts_of(payloads).flatten() == joined(payloads),
        forall|i: int|
            0 <= i < parts_of(payloads).len() ==> 0 < (#[trigger] parts_of(payloads)[i]).len()
                <= UPLOAD_CHUNK_BYTES,
{
    lemma_chunks_concat(joined(payloads), RECORD_SEPARATOR, UPLOAD_CHUNK_BYTES as nat);
    lemma_chunks_bounded(joined(payloads), RECORD_SEPARATOR, UPLOAD_CHUNK_BYTES as nat);
}

/// Whether shard `id` can count the bytes of `payload` on top of what it
/// holds in `shards`.
pub open spec fn fits(shards: Map<i8, Seq<Seq<u8>>>, id: i8, payload: Seq<u8>) -> bool {
    total_len(held(shards, id)) + payload.len() <= usize::MAX
}

/// Why the sink did not take a record.
#[derive(Debug, Clone, Copy, PartialEq, Eq, Structural)]
pub enum SinkError {
    /// The record's content could not be encoded.
    Encode,
    /// The record's shard cannot count more bytes.
    Overflow,
}

/// The cache and the state of the flush that is under way.
pub struct S3Sink {
    cache: MemCache,
    stage: Stage,
    date: u64,
    queue: Vec<i8>,
    next: usize,
    shard: i8,
    parts: Vec<Vec<u8>>,
    done: usize,
}

impl S3Sink {
    /// The store of the records that wait for their flush.
    pub closed spec fn cache(&self) -> MemCache {
        self.cache
    }

    /// Which answer is awaited.
    pub closed spec fn stage(&self) -> Stage {
        self.stage
    }

    /// The time at which the current cycle began.
    pub closed spec fn date(&self) -> u64 {
        self.date
    }

    /// The shards of this cycle's snapshot that are still to be drained.
    pub closed spec fn queue(&self) -> Seq<i8> {
        self.queue@.skip(self.next as int)
    }

    /// The shard that is being flushed.
    pub closed spec fn shard(&self) -> i8 {
        self.shard
    }

    /// The parts of the current shard that are not stored yet, in order.
    pub closed spec fn outbox(&self) -> Seq<Seq<u8>> {
        views(self.parts@).skip(self.done as int)
    }

    /// The cache is well formed; between cycles nothing is queued or
    /// waiting to be stored, and within a flush something is.
    pub closed spec fn wf(&self) -> bool {
        &&& self.cache.wf()
        &&& self.next <= self.queue.len()
        &&& self.done <= self.parts.len()
        &&& self.stage is Idle ==> self.next == self.queue.len() && self.done == self.parts.len()
        &&& !(self.stage is Idle) ==> self.done < self.parts.len()
    }

    /// Whether `event` answers what the sink waits for.
    pub open spec fn accepts(&self, event: FlushEvent) -> bool {
        match event {
            FlushEvent::Tick { .. } => self.stage() is Idle,
            FlushEvent::HeadBucket { .. } => self.stage() is Head,
            FlushEvent::CreateBucket { .. } => self.stage() is Create,
            FlushEvent::PutObject { .. } => self.stage() is Put,
        }
    }

    /// `self` differs from `pre` in nothing but its stage and its outbox.
    pub open spec fn same_flush(&self, pre: S3Sink) -> bool {
        &&& self.cache().shards() == pre.cache().shards()
        &&& self.cache().nodes() == pre.cache().nodes()
        &&& self.cache().replicas() == pre.cache().replicas()
        &&& self.date() == pre.date()
        &&& self.queue() == pre.queue()
        &&& self.shard() == pre.shard()
    }

    /// `action` asks, after `delay` seconds, for the container of the
    /// current shard.
    pub open spec fn asks_create(&self, action: FlushAction, delay: u64) -> bool {
        action matches FlushAction::CreateBucket { delay: d, bucket } && d == delay && bucket@
            == bucket_name_of(self.shard())
    }

    /// `action` asks, after `delay` seconds, to store the first part of the
    /// outbox in the container of the current shard, readable by all, under
    /// a key made of the cycle's date and some number.
    pub open spec fn asks_put(&self, action: FlushAction, delay: u64) -> bool {
        &&& self.outbox().len() > 0
        &&& action matches FlushAction::PutObject { delay: d, bucket, key, body, acl } && {
            &&& d == delay
            &&& bucket@ == bucket_name_of(self.shard())
            &&& exists|nonce: u32| key@ == object_key_of(self.date(), nonce)
            &&& body@ == self.outbox()[0]
            &&& acl@ == public_read()
        }
    }

    /// `self` and `action` are what follows once the shards of `queue` are all
    /// that is left of a cycle begun at `date` over the cache `before`: the
    /// first shard of `queue` that holds a buffer is drained, its parts fill
    /// the outbox, and the store is asked whether its container exists. Where
    /// no shard of `queue` holds anything the cycle is over.
    pub open spec fn opens_next(
        &self,
        before: MemCache,
        queue: Seq<i8>,
        date: u64,
        action: FlushAction,
    ) -> bool {
        let at = first_held(queue, before.shards());
        &&& self.date() == date
        &&& self.cache().nodes() == before.nodes()
        &&& self.cache().replicas() == before.replicas()
        &&& if at < queue.len() {
            let shard = queue[at];
            &&& self.stage() == Stage::Head
            &&& self.shard() == shard
            &&& self.queue() == queue.skip(at + 1)
            &&& self.cache().shards() == before.shards().remove(shard)
            &&& self.outbox() == parts_of(before.shards()[shard])
            &&& self.outbox().len() > 0
            &&& action matches FlushAction::HeadBucket { bucket } && bucket@ == bucket_name_of(
                shard,
            )
        } else {
            &&& self.stage() == Stage::Idle
            &&& self.queue().len() == 0
            &&& self.outbox().len() == 0
            &&& self.cache().shards() == before.shards()
            &&& action matches FlushAction::Sleep { secs } && secs == FLUSH_INTERVAL_SECS
        }
    }

    /// The coordinator's rules: `self`, told `event`, becomes `post` and asks
    /// for `action`.
    pub open spec fn steps_to(&self, event: FlushEvent, post: S3Sink, action: FlushAction) -> bool {
        match event {
            FlushEvent::Tick { now } => exists|keys: Seq<i8>|
                {
                    &&& keys.no_duplicates()
                    &&& keys.to_set() == self.cache().shards().dom()
                    &&& #[trigger] post.opens_next(self.cache(), keys, now, action)
                },
            FlushEvent::HeadBucket { exists } => {
                &&& post.same_flush(*self)
                &&& post.outbox() == self.outbox()
                &&& if exists {
                    post.stage() == Stage::Put && post.asks_put(action, 0)
                } else {
                    post.stage() == Stage::Create && post.asks_create(action, 0)
                }
            },
            FlushEvent::CreateBucket { outcome } => {
                &&& post.same_flush(*self)
                &&& post.outbox() == self.outbox()
                &&& if outcome.usable() {
                    post.stage() == Stage::Put && post.asks_put(action, 0)
                } else {
                    post.stage() == Stage::Create && post.asks_create(action, RETRY_DELAY_SECS)
                }
            },
            FlushEvent::PutObject { stored } => {
                if !stored {
                    &&& post.same_flush(*self)
                    &&& post.outbox() == self.outbox()
                    &&& post.stage() == Stage::Put
                    &&& post.asks_put(action, RETRY_DELAY_SECS)
                } else if self.outbox().len() > 1 {
                    &&& post.same_flush(*self)
                    &&& post.outbox() == self.outbox().drop_first()
                    &&& post.stage() == Stage::Put
                    &&& post.asks_put(action, 0)
                } else {
                    post.opens_next(self.cache(), self.queue(), self.date(), action)
                }
            },
        }
    }

    /// A sink over an empty default cache, between two cycles.
    pub fn new() -> (sink: Self)
        ensures
            sink.wf(),
            sink.stage() == Stage::Idle,
            sink.queue().len() == 0,
            sink.outbox().len() == 0,
            sink.cache().shards() == Map::<i8, Seq<Seq<u8>>>::empty(),
            sink.cache().nodes() == shard_ids(DEFAULT_SHARDS as int),
            sink.cache().replicas() == DEFAULT_REPLICAS,
            sink.date() == 0,
    {
        S3Sink {
            cache: MemCache::new(),
            stage: Stage::Idle,
            date: 0,
            queue: Vec::new(),
            next: 0,
            shard: 0,
            parts: Vec::new(),
            done: 0,
        }
    }

    /// Whether `event` answers what the sink waits for.
    pub fn expects(&self, event: &FlushEvent) -> (b: bool)
        ensures
            b == self.accepts(*event),
    {
        match (self.stage, event) {
            (Stage::Idle, FlushEvent::Tick { .. }) => true,
            (Stage::Head, FlushEvent::HeadBucket { .. }) => true,
            (Stage::Create, FlushEvent::CreateBucket { .. }) => true,
            (Stage::Put, FlushEvent::PutObject { .. }) => true,
            _ => false,
        }
    }

    /// Drains the next shard of the queue that holds anything and asks for
    /// its container; ends the cycle where no shard is left.
    fn open_next(&mut self) -> (action: FlushAction)
        requires
            old(self).cache.wf(),
            old(self).next <= old(self).queue.len(),
        ensures
            final(self).wf(),
            final(self).opens_next(old(self).cache(), old(self).queue(), old(self).date(), action),
    {
        let ghost before = self.cache;
        let ghost all = self.queue();
        let ghost start = self.next;
        while self.next < self.queue.len()
            invariant
                self.cache.wf(),
                before.wf(),
                before == old(self).cache,
                start == old(self).next,
                start <= self.next <= self.queue.len(),
                self.queue@ == old(self).queue@,
                self.date == old(self).date,
                all == old(self).queue@.skip(start as int),
                self.cache.shards() == before.shards(),
                self.cache.nodes() == before.nodes(),
                self.cache.replicas() == before.replicas(),
                first_held(all, before.shards()) == (self.next - start) + first_held(
                    self.queue@.skip(self.next as int),
                    before.shards(),
                ),
            decreases self.queue.len() - self.next,
        {
            let ghost ahead = self.queue@.skip(self.next as int);
            let shard = self.queue[self.next];
            self.next = self.next + 1;
            assert(ahead.drop_first() =~= self.queue@.skip(self.next as int));
            assert(ahead[0] == shard);
            match self.cache.pop(shard) {
                Ok(values) => {
                    let ghost payloads = before.shards()[shard];
                    let body_full = concat_chunks(values);
                    proof {
                        before.lemma_held_is_nonempty(shard);
                        lemma_framed_flatten(payloads);
                        assert(payloads.drop_last().push(payloads.last()) =~= payloads);
                    }
                    assert(body_full@ == joined(payloads));
                    let slices = body_full.chucked_split(
                        RECORD_SEPARATOR,
                        UPLOAD_CHUNK_BYTES,
                    ).collect();
                    let mut parts: Vec<Vec<u8>> = Vec::new();
                    let mut i: usize = 0;
                    while i < slices.len()
                        invariant
                            i <= slices.len(),
                            views(parts@) == slices@.map_values(|c: &[u8]| c@).take(i as int),
                        decreases slices.len() - i,
                    {
                        let ghost copied = views(parts@);
                        parts.push(slice_to_vec(slices[i]));
                        i = i + 1;
                        proof {
                            let cut = slices@.map_values(|c: &[u8]| c@);
                            assert(views(parts@) =~= copied.push(slices@[i - 1]@));
                            assert(cut.take(i as int) =~= cut.take(i - 1).push(cut[i - 1]));
                        }
                    }
                    assert(slices@.map_values(|c: &[u8]| c@).take(i as int) =~= slices@.map_values(
                        |c: &[u8]| c@,
                    ));
                    assert(views(parts@) == parts_of(payloads));
                    assert(parts_of(payloads).len() > 0);
                    self.parts = parts;
                    self.done = 0;
                    self.shard = shard;
                    self.stage = Stage::Head;
                    proof {
                        assert(self.outbox() =~= parts_of(payloads));
                        assert(self.queue() =~= all.skip(self.next - start));
                        assert(all[self.next - start - 1] == shard);
                    }
                    return FlushAction::HeadBucket { bucket: bucket_name(shard) };
                },
                Err(_) => {},
            }
        }
        self.parts = Vec::new();
        self.done = 0;
        self.stage = Stage::Idle;
        FlushAction::Sleep { secs: FLUSH_INTERVAL_SECS }
    }

    /// The request to store the first part of the outbox.
    fn put_request(&self, delay: u64) -> (action: FlushAction)
        requires
            self.done < self.parts.len(),
        ensures
            self.asks_put(action, delay),
    {
        proof {
            reveal_strlit("public-read");
        }
        let acl = String::from_str("public-read");
        assert(acl@ =~= public_read());
        let bucket = bucket_name(self.shard);
        let key = get_filename(self.date);
        let body = slice_to_vec(self.parts[self.done].as_slice());
        proof {
            let nonce = choose|nonce: u32| key@ == object_key_of(self.date, nonce);
            assert(key@ == object_key_of(self.date(), nonce));
            assert(self.outbox()[0] == self.parts@[self.done as int]@);
        }
        FlushAction::PutObject { delay, bucket, key, body, acl }
    }

    /// One step of the coordinator: takes in what happened and says what to
    /// do next.
    pub fn run(&mut self, event: FlushEvent) -> (action: FlushAction)
        requires
            old(self).wf(),
            old(self).accepts(event),
        ensures
            final(self).wf(),
            old(self).steps_to(event, *final(self), action),
    {
        match event {
            FlushEvent::Tick { now } => {
                let keys = self.cache.keys();
                self.date = now;
                self.queue = keys;
                self.next = 0;
                let ghost snapshot = self.queue();
                assert(snapshot =~= self.queue@);
                let action = self.open_next();
                assert(self.opens_next(old(self).cache(), snapshot, now, action));
                action
            },
            FlushEvent::HeadBucket { exists } => {
                if exists {
                    self.stage = Stage::Put;
                    self.put_request(0)
                } else {
                    self.stage = Stage::Create;
                    FlushAction::CreateBucket { delay: 0, bucket: bucket_name(self.shard) }
                }
            },
            FlushEvent::CreateBucket { outcome } => {
                if outcome.is_usable() {
                    self.stage = Stage::Put;
                    self.put_request(0)
                } else {
                    FlushAction::CreateBucket {
                        delay: RETRY_DELAY_SECS,
                        bucket: bucket_name(self.shard),
                    }
                }
            },
            FlushEvent::PutObject { stored } => {
                if !stored {
                    self.put_request(RETRY_DELAY_SECS)
                } else {
                    self.done = self.done + 1;
                    assert(self.outbox() =~= old(self).outbox().drop_first());
                    if self.done < self.parts.len() {
                        self.put_request(0)
                    } else {
                        self.open_next()
                    }
                }
            },
        }
    }

    /// Takes in a record: derives its routing key and its payload and adds
    /// the payload to the shard of the key. A record whose content cannot be
    /// encoded, or whose shard cannot count the payload's bytes, is refused
    /// and changes nothing. The flush under way is not touched.
    pub fn accept(&mut self, record: Greeting) -> (r: Result<(), SinkError>)
        requires
            old(self).wf(),
        ensures
            final(self).wf(),
            final(self).stage() == old(self).stage(),
            final(self).date() == old(self).date(),
            final(self).queue() == old(self).queue(),
            final(self).shard() == old(self).shard(),
            final(self).outbox() == old(self).outbox(),
            final(self).cache().nodes() == old(self).cache().nodes(),
            final(self).cache().replicas() == old(self).cache().replicas(),
            ({
                let shards = old(self).cache().shards();
                let owner = old(self).cache().shard_of(record.routing_key());
                match r {
                    Ok(()) => {
                        &&& owner is Some
                        &&& exists|payload: Seq<u8>|
                            {
                                &&& #[trigger] fits(shards, owner.unwrap(), payload)
                                &&& final(self).cache().shards() == appended(
                                    shards,
                                    owner.unwrap(),
                                    payload,
                                )
                            }
                    },
                    Err(SinkError::Overflow) => {
                        &&& owner is Some
                        &&& exists|payload: Seq<u8>| !#[trigger] fits(shards, owner.unwrap(), payload)
                        &&& final(self).cache().shards() == shards
                    },
                    Err(SinkError::Encode) => final(self).cache().shards() == shards,
                }
            }),
    {
        let keyed = record.into_keyed_payload();
        let ghost outcome = keyed;
        let r = self.store_keyed(keyed);
        proof {
            if let Ok((key, payload)) = outcome {
                let shards = old(self).cache().shards();
                let id = old(self).cache().shard_of(key@).unwrap();
                assert(fits(shards, id, payload@) || !fits(shards, id, payload@));
            }
        }
        r
    }

    /// Adds what a record was turned into: the payload goes to the shard of
    /// the key. A record that could not be encoded is refused, and so is a
    /// payload whose bytes the shard cannot count; neither changes anything.
    /// The flush under way is not touched.
    pub fn store_keyed(&mut self, keyed: Result<(String, Vec<u8>), RecordError>) -> (r: Result<
        (),
        SinkError,
    >)
        requires
            old(self).wf(),
        ensures
            final(self).wf(),
            final(self).stage() == old(self).stage(),
            final(self).date() == old(self).date(),
            final(self).queue() == old(self).queue(),
            final(self).shard() == old(self).shard(),
            final(self).outbox() == old(self).outbox(),
            final(self).cache().nodes() == old(self).cache().nodes(),
            final(self).cache().replicas() == old(self).cache().replicas(),
            ({
                let shards = old(self).cache().shards();
                match keyed {
                    Err(_) => {
                        &&& r == Err::<(), SinkError>(SinkError::Encode)
                        &&& final(self).cache().shards() == shards
                    },
                    Ok((key, payload)) => {
                        let owner = old(self).cache().shard_of(key@);
                        &&& owner is Some
                        &&& if fits(shards, owner.unwrap(), payload@) {
                            &&& r == Ok::<(), SinkError>(())
                            &&& final(self).cache().shards() == appended(
                                shards,
                                owner.unwrap(),
                                payload@,
                            )
                        } else {
                            &&& r == Err::<(), SinkError>(SinkError::Overflow)
                            &&& final(self).cache().shards() == shards
                        }
                    },
                }
            }),
    {
        match keyed {
            Ok((key, payload)) => {
                match self.cache.push(key, payload) {
                    Ok(()) => Ok(()),
                    Err(_) => Err(SinkError::Overflow),
                }
            },
            Err(_) => Err(SinkError::Encode),
        }
    }

    /// Adds a record to the cache, as `MemCache::push` does. The flush under
    /// way is not touched.
    pub fn push(&mut self, key: String, data: Vec<u8>) -> (r: Result<(), CacheError>)
        requires
            old(self).wf(),
        ensures
            final(self).wf(),
            final(self).stage() == old(self).stage(),
            final(self).date() == old(self).date(),
            final(self).queue() == old(self).queue(),
            final(self).shard() == old(self).shard(),
            final(self).outbox() == old(self).outbox(),
            final(self).cache().nodes() == old(self).cache().nodes(),
            final(self).cache().replicas() == old(self).cache().replicas(),
            old(self).cache().shard_of(key@) is Some,
            ({
                let id = old(self).cache().shard_of(key@).unwrap();
                let shards = old(self).cache().shards();
                match r {
                    Ok(()) => {
                        &&& total_len(held(shards, id)) + data@.len() <= usize::MAX
                        &&& final(self).cache().shards() == appended(shards, id, data@)
                    },
                    Err(e) => {
                        &&& e == CacheError::Overflow
                        &&& total_len(held(shards, id)) + data@.len() > usize::MAX
                        &&& final(self).cache().shards() == shards
                    },
                }
            }),
    {
        self.cache.push(key, data)
    }
}

} // verus!
