//! A compact codec for game-score events: a deterministic binary encoding of
//! event sequences, wrapped in a PKCS5-padded, blockwise AES-128 envelope.
//!
//! Events flow through `encode` to canonical bytes, which `seal` pads to a
//! 16-byte boundary and encrypts block by block under a caller-supplied
//! 16-byte key; `open_sealed` and `decode` reverse the two steps. Each block
//! is encrypted independently under the same key — there is no chaining, no
//! IV and no integrity tag, which keeps the wire format simple but leaks
//! equal-block patterns and detects no tampering.

pub mod cipher;
pub mod codec;
pub mod errors;
pub mod events;
pub mod submission;

pub use cipher::open_sealed;
pub use cipher::seal;
pub use codec::decode;
pub use codec::encode;
pub use errors::DecodeError;
pub use errors::Error;
pub use events::Enemy;
pub use events::ScoreEvent;
pub use submission::lemma_round_trip;
pub use submission::ScoreSubmission;
