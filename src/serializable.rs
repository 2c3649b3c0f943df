//! Values that know their bytes on the wire and append them to a buffer.
use vstd::prelude::*;

use crate::block::{enc_tx, write_tx, Transaction};
use crate::codec::{
    enc_bool, enc_i32, enc_i64, enc_u32, enc_u64, write_bool, write_bytes, write_i32, write_i64,
    write_u32, write_u64,
};
use crate::hash::{write_hash, HashType};
use crate::header::{enc_header, BlockHeader};
use crate::version::{enc_version, write_version, VersionMessage};

verus! {

pub trait Serializable {
    /// The bytes of the value on the wire.
    spec fn wire(&self) -> Seq<u8>;

    /// Appends the value's bytes to `stream`.
    fn serialize(&self, stream: &mut Vec<u8>)
        ensures
            final(stream)@ == old(stream)@ + self.wire(),
    ;
}

impl Serializable for i32 {
    open spec fn wire(&self) -> Seq<u8> {
        enc_i32(*self)
    }

    fn serialize(&self, stream: &mut Vec<u8>) {
        write_i32(*self, stream);
    }
}

impl Serializable for u32 {
    open spec fn wire(&self) -> Seq<u8> {
        enc_u32(*self)
    }

    fn serialize(&self, stream: &mut Vec<u8>) {
        write_u32(*self, stream);
    }
}

impl Serializable for u64 {
    open spec fn wire(&self) -> Seq<u8> {
        enc_u64(*self)
    }

    fn serialize(&self, stream: &mut Vec<u8>) {
        write_u64(*self, stream);
    }
}

impl Serializable for i64 {
    open spec fn wire(&self) -> Seq<u8> {
        enc_i64(*self)
    }

    fn serialize(&self, stream: &mut Vec<u8>) {
        write_i64(*self, stream);
    }
}

impl Serializable for bool {
    open spec fn wire(&self) -> Seq<u8> {
        enc_bool(*self)
    }

    fn serialize(&self, stream: &mut Vec<u8>) {
        write_bool(*self, stream);
    }
}

/// Raw bytes, written as they are.
impl Serializable for Vec<u8> {
    open spec fn wire(&self) -> Seq<u8> {
        self@
    }

    fn serialize(&self, stream: &mut Vec<u8>) {
        write_bytes(self, stream);
    }
}

/// A digest, written in its wire byte order.
impl Serializable for HashType {
    open spec fn wire(&self) -> Seq<u8> {
        self@
    }

    fn serialize(&self, stream: &mut Vec<u8>) {
        write_hash(self, stream);
    }
}

impl Serializable for BlockHeader {
    open spec fn wire(&self) -> Seq<u8> {
        enc_header(*self)
    }

    fn serialize(&self, stream: &mut Vec<u8>) {
        self.write(stream);
    }
}

impl Serializable for Transaction {
    open spec fn wire(&self) -> Seq<u8> {
        enc_tx(*self)
    }

    fn serialize(&self, stream: &mut Vec<u8>) {
        write_tx(self, stream);
    }
}

impl Serializable for VersionMessage {
    open spec fn wire(&self) -> Seq<u8> {
        enc_version(*self)
    }

    fn serialize(&self, stream: &mut Vec<u8>) {
        write_version(self, stream);
    }
}

} // verus!
