//! The wire envelope shared by both peers: every conforming packet is
//! `[MAGIC_BYTE, message type byte, ...payload]`.
//!
//! Decoding rejects a buffer that is too short to carry the envelope, that
//! opens with a foreign magic byte, or whose type byte names no known
//! message type. It does not validate the payload's length or shape: the
//! handler of each message type checks those before indexing.

use vstd::prelude::*;
use crate::shared::MAGIC_BYTE;
use crate::shared::MessageType;
use crate::shared::lemma_message_type_byte_round_trip;
use crate::shared::message_type_byte;
use crate::shared::message_type_from_byte;
use crate::shared::spec_message_type_byte;
use crate::shared::spec_message_type_from_byte;

verus! {

/// The bytes that carry message type `t` with the given payload.
pub open spec fn spec_encode(t: MessageType, payload: Seq<u8>) -> Seq<u8> {
    seq![MAGIC_BYTE, spec_message_type_byte(t)] + payload
}

/// What a received buffer decodes to, or `None` for a rejected buffer.
pub open spec fn spec_decode(bytes: Seq<u8>) -> Option<(MessageType, Seq<u8>)> {
    if bytes.len() < 2 {
        None
    } else if bytes[0] != MAGIC_BYTE {
        None
    } else {
        match spec_message_type_from_byte(bytes[1]) {
            Some(t) => Some((t, bytes.subrange(2, bytes.len() as int))),
            None => None,
        }
    }
}

/// Prepend the envelope to a payload.
pub fn encode(t: MessageType, payload: &Vec<u8>) -> (r: Vec<u8>)
    ensures
        r@ == spec_encode(t, payload@),
{
    let mut r: Vec<u8> = Vec::new();
    r.push(MAGIC_BYTE);
    r.push(message_type_byte(t));
    proof {
        assert(r@ =~= seq![MAGIC_BYTE, spec_message_type_byte(t)] + payload@.subrange(0, 0));
    }
    let mut i: usize = 0;
    while i < payload.len()
        invariant
            i <= payload.len(),
            r@ == seq![MAGIC_BYTE, spec_message_type_byte(t)] + payload@.subrange(0, i as int),
        decreases payload.len() - i,
    {
        r.push(payload[i]);
        i = i + 1;
        proof {
            assert(r@ =~= seq![MAGIC_BYTE, spec_message_type_byte(t)] + payload@.subrange(
                0,
                i as int,
            ));
        }
    }
    proof {
        assert(r@ =~= spec_encode(t, payload@));
    }
    r
}

/// Strip and check the envelope of a received buffer.
pub fn decode(bytes: &Vec<u8>) -> (r: Option<(MessageType, Vec<u8>)>)
    ensures
        match r {
            Some(p) => spec_decode(bytes@) == Some((p.0, p.1@)),
            None => spec_decode(bytes@) is None,
        },
{
    if bytes.len() < 2 {
        return None;
    }
    if bytes[0] != MAGIC_BYTE {
        return None;
    }
    match message_type_from_byte(bytes[1]) {
        None => None,
        Some(t) => {
            let mut payload: Vec<u8> = Vec::new();
            let mut i: usize = 2;
            while i < bytes.len()
                invariant
                    2 <= i <= bytes.len(),
                    payload@ == bytes@.subrange(2, i as int),
                decreases bytes.len() - i,
            {
                payload.push(bytes[i]);
                i = i + 1;
                proof {
                    assert(payload@ =~= bytes@.subrange(2, i as int));
                }
            }
            Some((t, payload))
        },
    }
}

/// Round trip: decoding an encoded message gives back exactly the message
/// type and the payload, for every type and every payload.
pub proof fn lemma_codec_round_trip(t: MessageType, payload: Seq<u8>)
    ensures
        spec_decode(spec_encode(t, payload)) == Some((t, payload)),
{
    lemma_message_type_byte_round_trip(t);
    let e = spec_encode(t, payload);
    assert(e.subrange(2, e.len() as int) =~= payload);
}

} // verus!
