//! The boundary type: an opaque sealed buffer, built from events and a key,
//! or received externally and opened later.

use vstd::prelude::*;

use crate::cipher;
use crate::cipher::dec_blocks;
use crate::cipher::enc_blocks;
use crate::cipher::pad16;
use crate::cipher::unpad16;
use crate::codec;
use crate::codec::decode_spec;
use crate::codec::encode_events;
use crate::errors::DecodeError;
use crate::errors::Error;
use crate::events::ScoreEvent;

verus! {

/// An opaque wrapper around a sealed byte buffer; it owns no decrypted state.
#[derive(Debug, Clone)]
pub struct ScoreSubmission(Vec<u8>);

impl View for ScoreSubmission {
    type V = Seq<u8>;

    closed spec fn view(&self) -> Seq<u8> {
        self.0@
    }
}

impl ScoreSubmission {
    /// Hand the sealed buffer out for transport.
    pub fn to_buffer(self) -> (r: Vec<u8>)
        ensures
            r@ == self@,
    {
        self.0
    }

    /// Wrap a buffer received externally; nothing is validated until
    /// `to_data` opens it.
    pub fn from_buffer(buffer: Vec<u8>) -> (r: Self)
        ensures
            r@ == buffer@,
    {
        Self(buffer)
    }

    /// Encode `data` canonically, pad to a block boundary, and encrypt each
    /// block under `encryption_key`. Never fails; the buffer is non-empty
    /// even for an empty event list, and decrypting it blockwise gives back
    /// the padded canonical encoding.
    pub fn from_data(data: &[ScoreEvent], encryption_key: &[u8; 16]) -> (r: Result<Self, Error>)
        requires
            data@.len() <= u32::MAX,
            13 * data@.len() + 20 <= usize::MAX,
        ensures
            r matches Ok(s) && s@ == enc_blocks(encryption_key@, pad16(encode_events(data@)))
                && dec_blocks(encryption_key@, s@) == pad16(encode_events(data@)) && s@.len() % 16
                == 0 && s@.len() > 0,
    {
        let encoded = codec::encode(data);
        let sealed = cipher::seal(&encoded, encryption_key);
        Ok(Self(sealed))
    }

    /// Decrypt each block under `encryption_key`, strip the padding, and
    /// decode the plaintext back into events. `InvalidPadding` when the
    /// padding count cannot be read or exceeds the buffer;
    /// `SerializationError` when the unpadded bytes are malformed.
    pub fn to_data(&self, encryption_key: &[u8; 16]) -> (r: Result<Vec<ScoreEvent>, Error>)
        requires
            self@.len() % 16 == 0,
        ensures
            (match unpad16(dec_blocks(encryption_key@, self@)) {
                None => r == Err::<Vec<ScoreEvent>, Error>(Error::InvalidPadding),
                Some(p) => match decode_spec(p) {
                    Ok(evs) => r matches Ok(v) && v@ == evs,
                    Err(de) => r == Err::<Vec<ScoreEvent>, Error>(Error::SerializationError(de)),
                },
            }),
    {
        let plain = match cipher::open_sealed(&self.0, encryption_key) {
            Ok(p) => p,
            Err(e) => {
                return Err(e);
            },
        };
        match codec::decode(&plain) {
            Ok(evs) => Ok(evs),
            Err(de) => Err(Error::from(de)),
        }
    }
}

/// Round trip: a sealed buffer whose blockwise decryption is the padded
/// canonical encoding of `events` — which `from_data` ensures of every
/// buffer it builds — unpads to exactly that encoding, and the encoding
/// decodes to exactly `events`. With `to_data`'s contract this pins
/// `to_data(from_data(events, key), key)` to `Ok(events)`.
pub proof fn lemma_round_trip(events: Seq<ScoreEvent>, key: Seq<u8>, sealed: Seq<u8>)
    requires
        events.len() <= u32::MAX,
        dec_blocks(key, sealed) == pad16(encode_events(events)),
    ensures
        unpad16(dec_blocks(key, sealed)) == Some(encode_events(events)),
        decode_spec(encode_events(events)) == Ok::<Seq<ScoreEvent>, DecodeError>(events),
{
    cipher::lemma_unpad_pad(encode_events(events));
    codec::lemma_decode_encode(events);
}

} // verus!
