//! Identifier codec and watermark decision logic for TrustMark payloads.
use vstd::prelude::*;

pub mod bignum;
pub mod bits;
pub mod codec_laws;
pub mod engine;
pub mod error;
pub mod id_codec;
pub mod number;
pub mod options;
pub mod search;
pub mod text;

verus! {

} // verus!
