//! Inbound records: what is read from a connection, and how a record
//! becomes a routing key and a payload.

use crate::tools::common::{in_key_order, join_btree_map, join_pairs, lists_in_key_order};
use std::collections::{BTreeMap, HashMap};
use vstd::prelude::*;

verus! {

#[verifier::external_type_specification]
#[verifier::external_body]
pub struct ExJsonError(serde_json::Error);

/// One inbound record: labels, which say where it belongs, and content.
pub struct Greeting {
    label: BTreeMap<String, String>,
    content: HashMap<String, String>,
}

/// Why a record could not be turned into a payload.
#[derive(Debug, Clone, Copy, PartialEq, Eq, Structural)]
pub enum RecordError {
    /// The content could not be written as JSON.
    Encode,
}

/// How reading from a connection and decoding what was read ended.
#[derive(Debug, Clone, Copy, PartialEq, Eq, Structural)]
pub enum ReadOutcome {
    /// Nothing was read: the peer has closed the connection.
    Closed,
    /// The bytes read hold a record.
    Record,
    /// The bytes read end in the middle of a record.
    Truncated,
    /// The bytes read are no record.
    Malformed,
}

/// What a connection's worker does after a read.
#[derive(Debug, Clone, Copy, PartialEq, Eq, Structural)]
pub enum ReadStep {
    /// End the worker: the stream is over.
    Close,
    /// Hand the record on and read again.
    Forward,
    /// Report the bytes as unreadable and read again.
    Skip,
}

/// The step that follows `outcome`: a closed connection and an input that
/// ends inside a record both end the worker; a record is handed on; anything
/// else is reported and the connection goes on.
pub fn after_read(outcome: ReadOutcome) -> (step: ReadStep)
    ensures
        step == (match outcome {
            ReadOutcome::Closed => ReadStep::Close,
            ReadOutcome::Record => ReadStep::Forward,
            ReadOutcome::Truncated => ReadStep::Close,
            ReadOutcome::Malformed => ReadStep::Skip,
        }),
{
    match outcome {
        ReadOutcome::Closed => ReadStep::Close,
        ReadOutcome::Record => ReadStep::Forward,
        ReadOutcome::Truncated => ReadStep::Close,
        ReadOutcome::Malformed => ReadStep::Skip,
    }
}

/// `serde_json::to_vec` on a map of strings: the map as a JSON object in
/// compact form. The order of its members is that in which the map is
/// walked, so nothing is stated of the bytes.
#[verifier::external_body]
fn content_to_json(content: &HashMap<String, String>) -> (r: Result<Vec<u8>, serde_json::Error>) {
    serde_json::to_vec(content)
}

impl Greeting {
    /// The labels, as a map from key to value.
    pub closed spec fn labels(&self) -> Map<Seq<char>, Seq<char>> {
        self.label.deep_view()
    }

    /// The content, as a map from key to value.
    pub closed spec fn contents(&self) -> Map<String, String> {
        self.content@
    }

    /// The routing key: the labels joined in key order as `k1=v1k2=v2...`.
    pub open spec fn routing_key(&self) -> Seq<char> {
        join_pairs(in_key_order(self.labels()))
    }

    /// A record of `label` and `content`.
    pub fn new(label: BTreeMap<String, String>, content: HashMap<String, String>) -> (g: Self)
        ensures
            g.labels() == label.deep_view(),
            g.contents() == content@,
    {
        Greeting { label, content }
    }

    /// The labels and the content.
    pub fn into_parts(self) -> (parts: (BTreeMap<String, String>, HashMap<String, String>))
        ensures
            parts.0.deep_view() == self.labels(),
            parts.1@ == self.contents(),
    {
        (self.label, self.content)
    }

    /// The routing key and the payload of the record: its labels joined in
    /// key order, and its content as JSON.
    pub fn into_keyed_payload(self) -> (r: Result<(String, Vec<u8>), RecordError>)
        ensures
            lists_in_key_order(in_key_order(self.labels()), self.labels()),
            match r {
                Ok((key, _)) => key@ == self.routing_key(),
                Err(e) => e == RecordError::Encode,
            },
    {
        let encoded = content_to_json(&self.content);
        let key = join_btree_map(self.label);
        keyed_payload(key, encoded)
    }
}

/// What a record with the routing key `key` becomes once its content went
/// through the encoder: the key with the encoded bytes, or
/// `RecordError::Encode` where the encoder failed.
pub fn keyed_payload(key: String, encoded: Result<Vec<u8>, serde_json::Error>) -> (r: Result<
    (String, Vec<u8>),
    RecordError,
>)
    ensures
        match encoded {
            Ok(bytes) => r matches Ok((k, payload)) && k@ == key@ && payload@ == bytes@,
            Err(_) => r matches Err(e) && e == RecordError::Encode,
        },
{
    match encoded {
        Ok(payload) => Ok((key, payload)),
        Err(_) => Err(RecordError::Encode),
    }
}

} // verus!
