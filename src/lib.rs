//! Primitive types of the relay chain runtime and their canonical wire encoding.
pub mod codec;
pub mod parachain;
pub mod receipt;
pub mod statement;
pub mod ingress;

use vstd::prelude::*;
use crate::codec::{Input, enc_seq, parse_seq, u8_enc, u8_parse, encode_bytes, decode_bytes};

verus! {

/// An index to a block.
pub type BlockNumber = u64;

/// Identifier for a chain.
pub type ChainId = u32;

/// Index of a transaction in the relay chain.
pub type Index = u32;

/// A timestamp: seconds since the unix epoch.
pub type Timestamp = u64;

/// The balance of an account.
pub type Balance = u128;

/// A log entry in the block.
#[derive(Clone, PartialEq, Eq, Debug, Default)]
pub struct Log(pub Vec<u8>);

impl Log {
    pub fn encode_to(&self, out: &mut Vec<u8>)
        requires
            self.0.len() <= u32::MAX,
        ensures
            final(out)@ == old(out)@ + enc_seq(self.0@, u8_enc()),
    {
        encode_bytes(&self.0, out);
    }

    pub fn decode(input: &mut Input) -> (r: Option<Log>)
        ensures
            match parse_seq(old(input).rest(), u8_parse()) {
                Some((v, k)) => r is Some && r->Some_0.0@ == v && final(input).rest() == old(input).rest().skip(k as int),
                None => r is None,
            },
    {
        let b = decode_bytes(input)?;
        Some(Log(b))
    }
}

} // verus!
