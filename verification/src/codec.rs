//! The event payload codec: an event is stored as an opaque text value,
//! its fields in a compact binary form wrapped in a text-safe envelope.
//!
//! The store and the key codec never look inside these values; all the
//! engine relies on is that encoding is deterministic in the fields and
//! that decoding inverts it exactly.

use vstd::prelude::*;

use base64::Engine;
use bincode::Options;

use crate::error::StoreError;
use crate::{RaceEvent, RaceEventView};

verus! {

/// The serialized bytes of an event's fields; a function of the field
/// values alone.
pub uninterp spec fn event_bytes(e: RaceEventView) -> Seq<u8>;

/// The text that the envelope encoding produces for these bytes; a
/// function of the bytes alone.
pub uninterp spec fn base64_text(bytes: Seq<u8>) -> Seq<char>;

/// The text encoding of an event: its serialized fields in the text-safe
/// envelope.
pub open spec fn event_encoding(e: RaceEventView) -> Seq<char> {
    base64_text(event_bytes(e))
}

/// Serializes an event's fields.
///
/// Relies on `bincode::serialize` (little-endian, fixed-width integers; a
/// tuple is the plain concatenation of its encoded fields, and with no
/// size limit nothing can fail for in-memory fields).  The bytes depend
/// on the field values alone, so they are named `event_bytes`.
#[verifier::external_body]
fn encode_fields(e: &RaceEvent) -> (r: Vec<u8>)
    ensures
        r@ == event_bytes(e@),
{
    let fields = (e.venue_id, &e.venue_name, &e.event_name, &e.grade, &e.start_date,
        e.duration_days);
    bincode::serialize(&fields).unwrap()
}

/// Deserializes an event's fields.
///
/// Relies on `bincode::DefaultOptions` deserialization with fixed-width
/// integers, which rejects trailing bytes and invalid text fields: a
/// successful decode means the input is exactly the serialization of the
/// returned fields, and of no others; a failure means it is the
/// serialization of none, and is reported as a serialization error.
#[verifier::external_body]
fn decode_fields(bytes: &Vec<u8>) -> (r: Result<RaceEvent, StoreError>)
    ensures
        r matches Ok(e) ==> bytes@ == event_bytes(e@) && (forall|ev: RaceEventView|
            bytes@ == event_bytes(ev) ==> ev == e@),
        r is Err ==> !(exists|ev: RaceEventView| bytes@ == event_bytes(ev)),
        r matches Err(e) ==> e is SerializationError,
{
    let opts = bincode::DefaultOptions::new().with_fixint_encoding();
    match opts.deserialize::<(u32, String, String, String, String, u32)>(bytes) {
        Ok((venue_id, venue_name, event_name, grade, start_date, duration_days)) => Ok(
            RaceEvent { venue_id, venue_name, event_name, grade, start_date, duration_days },
        ),
        Err(e) => Err(StoreError::SerializationError(format!("Deserialize error: {}", e))),
    }
}

/// Wraps bytes in the text-safe envelope.
///
/// Relies on `base64::engine::general_purpose::STANDARD.encode`: the
/// standard alphabet with padding; the text depends on the bytes alone,
/// so it is named `base64_text`.
#[verifier::external_body]
fn envelope_encode(bytes: Vec<u8>) -> (r: String)
    ensures
        r@ == base64_text(bytes@),
{
    base64::engine::general_purpose::STANDARD.encode(bytes)
}

/// Unwraps the text-safe envelope.
///
/// Relies on `base64::engine::general_purpose::STANDARD.decode`:
/// canonical padding is required and trailing bits are rejected, so a
/// successful decode means the input is exactly the encoding of the
/// returned bytes, and of no others; a failure means it encodes nothing,
/// and is reported as a serialization error.
#[verifier::external_body]
fn envelope_decode(s: &str) -> (r: Result<Vec<u8>, StoreError>)
    ensures
        r matches Ok(b) ==> s@ == base64_text(b@) && (forall|bs: Seq<u8>|
            s@ == base64_text(bs) ==> bs == b@),
        r is Err ==> !(exists|bs: Seq<u8>| s@ == base64_text(bs)),
        r matches Err(e) ==> e is SerializationError,
{
    match base64::engine::general_purpose::STANDARD.decode(s) {
        Ok(b) => Ok(b),
        Err(e) => Err(StoreError::SerializationError(format!("Base64 decode error: {}", e))),
    }
}

/// Encodes an event for storage.
pub(crate) fn encode_event(e: &RaceEvent) -> (r: String)
    ensures
        r@ == event_encoding(e@),
{
    envelope_encode(encode_fields(e))
}

/// Decodes a stored event value: it succeeds on precisely the strings
/// `encode_event` can produce, and inverts it.
pub(crate) fn decode_event(s: &str) -> (r: Result<RaceEvent, StoreError>)
    ensures
        r matches Ok(e) ==> s@ == event_encoding(e@) && (forall|ev: RaceEventView|
            s@ == event_encoding(ev) ==> ev == e@),
        r is Err ==> !(exists|ev: RaceEventView| s@ == event_encoding(ev)),
        r matches Err(e) ==> e is SerializationError,
{
    let bytes = match envelope_decode(s) {
        Ok(b) => b,
        Err(err) => {
            proof {
                assert forall|ev: RaceEventView| s@ != event_encoding(ev) by {
                    assert(event_encoding(ev) == base64_text(event_bytes(ev)));
                }
            }
            return Err(err);
        },
    };
    match decode_fields(&bytes) {
        Ok(e) => {
            proof {
                assert forall|ev: RaceEventView| s@ == event_encoding(ev) implies ev == e@ by {
                    assert(event_bytes(ev) == bytes@);
                }
            }
            Ok(e)
        },
        Err(err) => {
            proof {
                assert forall|ev: RaceEventView| s@ != event_encoding(ev) by {
                    if s@ == base64_text(event_bytes(ev)) {
                        assert(event_bytes(ev) == bytes@);
                    }
                }
            }
            Err(err)
        },
    }
}

/// Round trip: decoding an encoded event gives the event back, for every
/// representable event.
pub fn event_round_trip(e: &RaceEvent) -> (r: RaceEvent)
    ensures
        r@ == e@,
{
    let encoded = encode_event(e);
    match decode_event(encoded.as_str()) {
        Ok(decoded) => decoded,
        Err(_) => vstd::pervasive::unreached(),
    }
}

} // verus!
