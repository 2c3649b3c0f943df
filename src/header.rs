//! Block headers: their 80-byte wire form, their hash and their proof of work.
use vstd::prelude::*;

use crate::codec::{
    at, enc_i32, enc_u32, le_bytes, le_value, le_value_leq, lemma_at_join, lemma_at_split,
    lemma_le_bytes_len, lemma_le_value_append, lemma_le_value_of_bytes, lemma_le_value_zeros,
    pow256, read_i32, read_u32, write_i32, write_u32, zeros,
};
use crate::error::ErrorMessage;
use crate::hash::{read_hash, sha256d, sha256d_of, write_hash, HashType};

verus! {

/// The header of a block, as the wire carries it.
#[derive(Debug, Clone, Copy, PartialEq, Eq)]
pub struct BlockHeader {
    pub version: i32,
    pub previous: HashType,
    pub merkle_root: HashType,
    pub timestamp: u32,
    pub n_bits: u32,
    pub nonce: u32,
}

/// The 80 bytes of a header on the wire.
pub open spec fn enc_header(h: BlockHeader) -> Seq<u8> {
    enc_i32(h.version) + h.previous@ + h.merkle_root@ + enc_u32(h.timestamp) + enc_u32(h.n_bits)
        + enc_u32(h.nonce)
}

/// The hash that identifies a header.
pub open spec fn header_hash(h: BlockHeader) -> Seq<u8> {
    sha256d_of(enc_header(h))@
}

/// The exponent of a compact target: its most significant byte.
pub open spec fn bits_exponent(bits: u32) -> nat {
    (bits / 0x100_0000) as nat
}

/// The mantissa of a compact target: its low 23 bits.
pub open spec fn bits_mantissa(bits: u32) -> nat {
    (bits % 0x80_0000) as nat
}

/// The sign bit of a compact target.
pub open spec fn bits_negative(bits: u32) -> bool {
    (bits / 0x80_0000) % 2 == 1
}

/// A compact target that stands for a positive number below 2^256.
pub open spec fn valid_bits(bits: u32) -> bool {
    !bits_negative(bits) && bits_mantissa(bits) > 0 && bits_exponent(bits) <= 32
}

/// The number that a compact target stands for: mantissa * 256^(exponent - 3).
pub open spec fn target_of(bits: u32) -> nat {
    if bits_exponent(bits) >= 3 {
        bits_mantissa(bits) * pow256((bits_exponent(bits) - 3) as nat)
    } else {
        bits_mantissa(bits) / pow256((3 - bits_exponent(bits)) as nat)
    }
}

/// The header's hash, read as a little-endian number, is at most its target.
pub open spec fn meets_target(h: BlockHeader) -> bool {
    valid_bits(h.n_bits) && le_value(header_hash(h)) <= target_of(h.n_bits)
}

pub proof fn lemma_header_len(h: BlockHeader)
    ensures
        enc_header(h).len() == 80,
{
    lemma_le_bytes_len(h.version as u32 as nat, 4);
    lemma_le_bytes_len(h.timestamp as nat, 4);
    lemma_le_bytes_len(h.n_bits as nat, 4);
    lemma_le_bytes_len(h.nonce as nat, 4);
}

/// Where each field of a header stands within its 80 bytes.
pub proof fn lemma_header_parts(h: BlockHeader, s: Seq<u8>, pos: int)
    requires
        at(enc_header(h), s, pos),
    ensures
        at(enc_i32(h.version), s, pos),
        at(h.previous@, s, pos + 4),
        at(h.merkle_root@, s, pos + 36),
        at(enc_u32(h.timestamp), s, pos + 68),
        at(enc_u32(h.n_bits), s, pos + 72),
        at(enc_u32(h.nonce), s, pos + 76),
{
    lemma_header_len(h);
    lemma_le_bytes_len(h.version as u32 as nat, 4);
    lemma_le_bytes_len(h.timestamp as nat, 4);
    lemma_le_bytes_len(h.n_bits as nat, 4);
    assert(h.previous@.len() == 32 && h.merkle_root@.len() == 32);
    let a = enc_i32(h.version);
    let b = h.previous@;
    let c = h.merkle_root@;
    let d = enc_u32(h.timestamp);
    let e = enc_u32(h.n_bits);
    let f = enc_u32(h.nonce);
    lemma_at_split(a + b + c + d + e, f, s, pos);
    lemma_at_split(a + b + c + d, e, s, pos);
    lemma_at_split(a + b + c, d, s, pos);
    lemma_at_split(a + b, c, s, pos);
    lemma_at_split(a, b, s, pos);
}

/// A header is determined by its 80 bytes: two headers with the same bytes
/// are the same header.
pub proof fn lemma_header_encoding_injective(a: BlockHeader, b: BlockHeader)
    requires
        enc_header(a) == enc_header(b),
    ensures
        a == b,
{
    let s = enc_header(a);
    assert(s.subrange(0, s.len() as int) =~= s);
    lemma_header_len(a);
    lemma_header_parts(a, s, 0);
    lemma_header_parts(b, s, 0);
    crate::codec::lemma_pow256_values();
    crate::codec::lemma_le_unique(a.version as u32 as nat, b.version as u32 as nat, 4, s, 0);
    crate::codec::lemma_le_unique(a.timestamp as nat, b.timestamp as nat, 4, s, 68);
    crate::codec::lemma_le_unique(a.n_bits as nat, b.n_bits as nat, 4, s, 72);
    crate::codec::lemma_le_unique(a.nonce as nat, b.nonce as nat, 4, s, 76);
    let (x, y) = (a.version, b.version);
    assert(x as u32 == y as u32);
    assert(x == y) by (bit_vector)
        requires
            x as u32 == y as u32,
    ;
    assert(a.previous@ =~= b.previous@);
    assert(a.merkle_root@ =~= b.merkle_root@);
    assert(a.previous =~= b.previous);
    assert(a.merkle_root =~= b.merkle_root);
}

impl BlockHeader {
    /// Appends the header's 80 bytes to `out`.
    pub fn write(&self, out: &mut Vec<u8>)
        ensures
            final(out)@ == old(out)@ + enc_header(*self),
    {
        write_i32(self.version, out);
        write_hash(&self.previous, out);
        write_hash(&self.merkle_root, out);
        write_u32(self.timestamp, out);
        write_u32(self.n_bits, out);
        write_u32(self.nonce, out);
        assert(out@ =~= old(out)@ + enc_header(*self));
    }

    /// Reads a header from its 80 bytes at `pos`.
    pub fn read(bytes: &Vec<u8>, pos: usize) -> (r: Result<(BlockHeader, usize), ErrorMessage>)
        ensures
            r matches Ok((h, next)) ==> next == pos + 80 && at(enc_header(h), bytes@, pos as int),
            forall|h: BlockHeader| #[trigger]
                at(enc_header(h), bytes@, pos as int) ==> r == Ok::<(BlockHeader, usize), ErrorMessage>(
                    (h, (pos + 80) as usize),
                ),
    {
        assert forall|h: BlockHeader| #[trigger] at(enc_header(h), bytes@, pos as int) implies at(
            enc_i32(h.version),
            bytes@,
            pos as int,
        ) && at(h.previous@, bytes@, pos + 4) && at(h.merkle_root@, bytes@, pos + 36) && at(
            enc_u32(h.timestamp),
            bytes@,
            pos + 68,
        ) && at(enc_u32(h.n_bits), bytes@, pos + 72) && at(enc_u32(h.nonce), bytes@, pos + 76)
            && pos + 80 <= bytes@.len() by {
            lemma_header_parts(h, bytes@, pos as int);
            lemma_header_len(h);
        }
        let (version, p) = match read_i32(bytes, pos) {
            Ok(x) => x,
            Err(e) => return Err(e),
        };
        let (previous, p) = match read_hash(bytes, p) {
            Ok(x) => x,
            Err(e) => return Err(e),
        };
        let (merkle_root, p) = match read_hash(bytes, p) {
            Ok(x) => x,
            Err(e) => return Err(e),
        };
        let (timestamp, p) = match read_u32(bytes, p) {
            Ok(x) => x,
            Err(e) => return Err(e),
        };
        let (n_bits, p) = match read_u32(bytes, p) {
            Ok(x) => x,
            Err(e) => return Err(e),
        };
        let (nonce, p) = match read_u32(bytes, p) {
            Ok(x) => x,
            Err(e) => return Err(e),
        };
        let h = BlockHeader { version, previous, merkle_root, timestamp, n_bits, nonce };
        proof {
            lemma_le_bytes_len(version as u32 as nat, 4);
            lemma_le_bytes_len(timestamp as nat, 4);
            lemma_le_bytes_len(n_bits as nat, 4);
            let a = enc_i32(h.version);
            let b = h.previous@;
            let c = h.merkle_root@;
            let d = enc_u32(h.timestamp);
            let e = enc_u32(h.n_bits);
            let f = enc_u32(h.nonce);
            lemma_at_join(a, b, bytes@, pos as int);
            lemma_at_join(a + b, c, bytes@, pos as int);
            lemma_at_join(a + b + c, d, bytes@, pos as int);
            lemma_at_join(a + b + c + d, e, bytes@, pos as int);
            lemma_at_join(a + b + c + d + e, f, bytes@, pos as int);
        }
        Ok((h, p))
    }

    /// The hash that identifies this header.
    pub fn get_hash256d(&self) -> (r: HashType)
        ensures
            r@ == header_hash(*self),
    {
        let mut bytes: Vec<u8> = Vec::new();
        self.write(&mut bytes);
        assert(bytes@ =~= enc_header(*self));
        sha256d(&bytes)
    }

    /// Whether the header's hash meets the target that its `n_bits` state.
    pub fn meets_target(&self) -> (r: bool)
        ensures
            r == meets_target(*self),
    {
        if !is_valid_bits(self.n_bits) {
            return false;
        }
        let target = target_bytes(self.n_bits);
        let hash = self.get_hash256d();
        le_value_leq(&hash, &target)
    }
}

/// Whether `bits` is a valid compact target.
pub fn is_valid_bits(bits: u32) -> (r: bool)
    ensures
        r == valid_bits(bits),
{
    (bits / 0x80_0000) % 2 == 0 && bits % 0x80_0000 > 0 && bits / 0x100_0000 <= 32
}

/// The 32 little-endian bytes of the target that `bits` stands for.
pub fn target_bytes(bits: u32) -> (r: [u8; 32])
    requires
        valid_bits(bits),
    ensures
        le_value(r@) == target_of(bits),
{
    let exp: u32 = bits / 0x100_0000;
    let mant: u32 = bits % 0x80_0000;
    let (k, v): (usize, u32) = if exp >= 3 {
        ((exp - 3) as usize, mant)
    } else if exp == 2 {
        (0, mant / 256)
    } else if exp == 1 {
        (0, mant / 65536)
    } else {
        (0, 0)
    };
    let mut r: [u8; 32] = [0u8; 32];
    r[k] = (v % 256) as u8;
    r[k + 1] = ((v / 256) % 256) as u8;
    r[k + 2] = ((v / 65536) % 256) as u8;
    proof {
        reveal_with_fuel(le_bytes, 4);
        reveal_with_fuel(pow256, 4);
        let low = le_bytes(v as nat, 3);
        let rest = zeros((29 - k) as nat);
        assert(r@ =~= zeros(k as nat) + (low + rest));
        lemma_le_value_append(zeros(k as nat), low + rest);
        lemma_le_value_append(low, rest);
        lemma_le_value_zeros(k as nat);
        lemma_le_value_zeros((29 - k) as nat);
        assert(v < pow256(3));
        lemma_le_value_of_bytes(v as nat, 3);
        assert(le_value(r@) == pow256(k as nat) * v);
        if exp >= 3 {
            assert(pow256(k as nat) * v == v * pow256(k as nat)) by (nonlinear_arith);
        } else {
            assert(pow256(0) == 1);
            assert(pow256(3) == 16777216);
        }
    }
    r
}

} // verus!
