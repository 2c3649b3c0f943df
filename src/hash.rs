//! 32-byte digests and the double SHA-256 that the protocol hashes with.
use vstd::prelude::*;

use crate::codec::{at, lemma_at_join, lemma_at_split};
use crate::error::ErrorMessage;

verus! {

/// A 32-byte digest, in the byte order of the wire.
pub type HashType = [u8; 32];

/// The all-zero digest.
pub open spec fn is_zero_hash(h: HashType) -> bool {
    forall|i: int| 0 <= i < 32 ==> #[trigger] h@[i] == 0
}

/// The sentinel that stands for "no stop hash": all 32 bytes zero.
pub fn zero_hash() -> (r: HashType)
    ensures
        is_zero_hash(r),
{
    [0u8; 32]
}

/// What SHA-256 applied twice gives on `data`.
pub uninterp spec fn sha256d_of(data: Seq<u8>) -> [u8; 32];

/// Relies on `bitcoin_hashes::sha256d::hash`: the double SHA-256 of `data`,
/// which depends on `data` alone.
#[verifier::external_body]
pub(crate) fn sha256d(data: &Vec<u8>) -> (r: HashType)
    ensures
        r == sha256d_of(data@),
{
    bitcoin_hashes::sha256d::hash(data.as_slice()).to_byte_array()
}

/// The first four bytes of the double SHA-256 of `payload`.
pub open spec fn checksum_of(payload: Seq<u8>) -> Seq<u8> {
    sha256d_of(payload)@.subrange(0, 4)
}

pub proof fn lemma_checksum_len(payload: Seq<u8>)
    ensures
        checksum_of(payload).len() == 4,
{
}

/// The four checksum bytes that a frame carries for `payload`.
pub fn checksum(payload: &Vec<u8>) -> (r: [u8; 4])
    ensures
        r@ == checksum_of(payload@),
{
    let h = sha256d(payload);
    let r: [u8; 4] = [h[0], h[1], h[2], h[3]];
    assert(r@ =~= checksum_of(payload@));
    r
}

pub fn write_hash(h: &HashType, out: &mut Vec<u8>)
    ensures
        final(out)@ == old(out)@ + h@,
{
    let mut i: usize = 0;
    while i < 32
        invariant
            i <= 32,
            out@ == old(out)@ + h@.subrange(0, i as int),
        decreases 32 - i,
    {
        out.push(h[i]);
        i = i + 1;
        assert(out@ =~= old(out)@ + h@.subrange(0, i as int));
    }
    assert(h@.subrange(0, 32) =~= h@);
}

pub fn read_hash(bytes: &Vec<u8>, pos: usize) -> (r: Result<(HashType, usize), ErrorMessage>)
    ensures
        r is Err <==> pos + 32 > bytes@.len(),
        r matches Ok((h, next)) ==> next == pos + 32 && at(h@, bytes@, pos as int),
        forall|h: HashType| #[trigger]
            at(h@, bytes@, pos as int) ==> r == Ok::<(HashType, usize), ErrorMessage>(
                (h, (pos + 32) as usize),
            ),
{
    if bytes.len() < 32 || pos > bytes.len() - 32 {
        return Err(ErrorMessage::ErrorInDeserialization);
    }
    let mut h: HashType = [0u8; 32];
    let mut i: usize = 0;
    while i < 32
        invariant
            i <= 32,
            pos + 32 <= bytes.len(),
            forall|j: int| 0 <= j < i ==> h@[j] == bytes@[pos + j],
        decreases 32 - i,
    {
        h[i] = bytes[pos + i];
        i = i + 1;
    }
    assert(h@ =~= bytes@.subrange(pos as int, pos + 32));
    assert forall|g: HashType| #[trigger] at(g@, bytes@, pos as int) implies g == h by {
        assert(g@ =~= h@);
    }
    Ok((h, pos + 32))
}

} // verus!
