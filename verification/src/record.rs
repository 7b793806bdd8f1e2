//! One finished run: its rank in the history bucket, its score, its duration,
//! and the grid configuration it was played on; together with the compact
//! string form in which single records travel (fixed-width little-endian
//! bytes, base64 without padding).

use vstd::prelude::*;
use base64::Engine;
use crate::lebytes::{le_bytes, le_val, lemma_le_bytes_len, lemma_le_round_trip, lemma_le_val_bound, lemma_pow256_val_16, push_le, read_le};

verus! {

/// Immutable snapshot of one completed run.
#[derive(Clone, Copy, PartialEq, Eq, Structural, Debug)]
pub struct Record {
    /// One-based insertion rank within the history bucket of its grid config.
    pub position: u32,
    /// Number of successful hits in the run.
    pub score: u32,
    /// Elapsed milliseconds from the first hit to the last.
    pub millis: u128,
    /// Grid rows of the run's configuration.
    pub rows: u32,
    /// Grid columns of the run's configuration.
    pub columns: u32,
    /// Configured simultaneous-active-cell target of the run.
    pub active: u32,
}

/// The 36-byte little-endian serialization of a record:
/// position, score, millis, rows, columns, active.
pub open spec fn record_le_bytes(r: Record) -> Seq<u8> {
    le_bytes(r.position as nat, 4) + le_bytes(r.score as nat, 4) + le_bytes(r.millis as nat, 16)
        + le_bytes(r.rows as nat, 4) + le_bytes(r.columns as nat, 4) + le_bytes(r.active as nat, 4)
}

/// The record that a 36-byte string denotes.
pub open spec fn record_of_le(s: Seq<u8>) -> Record
    recommends
        s.len() == 36,
{
    Record {
        position: le_val(s.subrange(0, 4)) as u32,
        score: le_val(s.subrange(4, 8)) as u32,
        millis: le_val(s.subrange(8, 24)) as u128,
        rows: le_val(s.subrange(24, 28)) as u32,
        columns: le_val(s.subrange(28, 32)) as u32,
        active: le_val(s.subrange(32, 36)) as u32,
    }
}

/// The base64 text (standard alphabet, no padding) of a byte string.
pub uninterp spec fn b64_of(bytes: Seq<u8>) -> Seq<char>;

/// Relies on base64's `Engine::encode` with the `STANDARD_NO_PAD` engine:
/// the encoding is a function of the input bytes alone.
#[verifier::external_body]
fn b64_encode(bytes: &Vec<u8>) -> (r: String)
    ensures
        r@ == b64_of(bytes@),
{
    base64::prelude::BASE64_STANDARD_NO_PAD.encode(bytes.as_slice())
}

/// Relies on base64's `Engine::decode` with the `STANDARD_NO_PAD` engine.
/// That engine refuses padding and non-zero trailing bits, so exactly the
/// canonical encodings decode, each to the byte string it encodes.
#[verifier::external_body]
fn b64_decode(s: &str) -> (r: Option<Vec<u8>>)
    ensures
        r is None ==> forall|bs: Seq<u8>| s@ != b64_of(bs),
        r matches Some(v) ==> s@ == b64_of(v@) && forall|bs: Seq<u8>| s@ == b64_of(bs) ==> v@ == bs,
{
    base64::prelude::BASE64_STANDARD_NO_PAD.decode(s).ok()
}

/// Reading back the serialized bytes of a record gives the record.
pub proof fn lemma_record_le_round_trip(r: Record)
    ensures
        record_le_bytes(r).len() == 36,
        record_of_le(record_le_bytes(r)) == r,
{
    let s = record_le_bytes(r);
    lemma_le_bytes_len(r.position as nat, 4);
    lemma_le_bytes_len(r.score as nat, 4);
    lemma_le_bytes_len(r.millis as nat, 16);
    lemma_le_bytes_len(r.rows as nat, 4);
    lemma_le_bytes_len(r.columns as nat, 4);
    lemma_le_bytes_len(r.active as nat, 4);
    lemma_pow256_val_16();
    assert(s.subrange(0, 4) =~= le_bytes(r.position as nat, 4));
    assert(s.subrange(4, 8) =~= le_bytes(r.score as nat, 4));
    assert(s.subrange(8, 24) =~= le_bytes(r.millis as nat, 16));
    assert(s.subrange(24, 28) =~= le_bytes(r.rows as nat, 4));
    assert(s.subrange(28, 32) =~= le_bytes(r.columns as nat, 4));
    assert(s.subrange(32, 36) =~= le_bytes(r.active as nat, 4));
    lemma_le_round_trip(r.position as nat, 4);
    lemma_le_round_trip(r.score as nat, 4);
    lemma_le_round_trip(r.millis as nat, 16);
    lemma_le_round_trip(r.rows as nat, 4);
    lemma_le_round_trip(r.columns as nat, 4);
    lemma_le_round_trip(r.active as nat, 4);
}

impl Record {
    /// Builds a record from its six fields.
    pub fn new(position: u32, score: u32, millis: u128, rows: u32, columns: u32, active: u32) -> (r: Self)
        ensures
            r == (Record { position, score, millis, rows, columns, active }),
    {
        Self { position, score, millis, rows, columns, active }
    }

    /// Reads a record from its 36-byte little-endian form; any other length
    /// is malformed.
    pub fn from_bytes(bytes: &[u8]) -> (r: Option<Self>)
        ensures
            bytes@.len() == 36 ==> r == Some(record_of_le(bytes@)),
            bytes@.len() != 36 ==> r is None,
    {
        if bytes.len() != 36 {
            return None;
        }
        proof {
            lemma_pow256_val_16();
            lemma_le_val_bound(bytes@.subrange(0, 4));
            lemma_le_val_bound(bytes@.subrange(4, 8));
            lemma_le_val_bound(bytes@.subrange(24, 28));
            lemma_le_val_bound(bytes@.subrange(28, 32));
            lemma_le_val_bound(bytes@.subrange(32, 36));
        }
        Some(Record {
            position: read_le(bytes, 0, 4) as u32,
            score: read_le(bytes, 4, 4) as u32,
            millis: read_le(bytes, 8, 16),
            rows: read_le(bytes, 24, 4) as u32,
            columns: read_le(bytes, 28, 4) as u32,
            active: read_le(bytes, 32, 4) as u32,
        })
    }

    /// The 36-byte little-endian form of this record.
    pub fn to_bytes(&self) -> (r: Vec<u8>)
        ensures
            r@ == record_le_bytes(*self),
            r@.len() == 36,
    {
        let mut out: Vec<u8> = Vec::new();
        push_le(&mut out, self.position as u128, 4);
        push_le(&mut out, self.score as u128, 4);
        push_le(&mut out, self.millis, 16);
        push_le(&mut out, self.rows as u128, 4);
        push_le(&mut out, self.columns as u128, 4);
        push_le(&mut out, self.active as u128, 4);
        proof {
            lemma_record_le_round_trip(*self);
            assert(out@ =~= record_le_bytes(*self));
        }
        out
    }

    /// Reads a record from the base64 text of its 36-byte form; anything
    /// else is malformed.
    pub fn from_str(str: &str) -> (r: Option<Self>)
        ensures
            forall|bs: Seq<u8>| (str@ == b64_of(bs) && bs.len() == 36) ==> r == Some(record_of_le(bs)),
            r matches Some(rec) ==> exists|bs: Seq<u8>|
                bs.len() == 36 && str@ == b64_of(bs) && rec == record_of_le(bs),
            forall|bs: Seq<u8>| (str@ == b64_of(bs) && bs.len() != 36) ==> r is None,
    {
        match b64_decode(str) {
            None => None,
            Some(bytes) => Record::from_bytes(bytes.as_slice()),
        }
    }

    /// The base64 text of this record's 36-byte form.
    pub fn to_string(&self) -> (r: String)
        ensures
            r@ == b64_of(record_le_bytes(*self)),
    {
        let bytes = self.to_bytes();
        b64_encode(&bytes)
    }
}

} // verus!
