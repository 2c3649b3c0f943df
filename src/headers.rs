//! The payloads that carry headers: `headers` and `getheaders`.
use vstd::prelude::*;

use crate::codec::{
    at, enc_i32, enc_varint, lemma_at_join, lemma_at_split, read_u8, read_varint, write_i32,
    write_u8, write_varint,
};
use crate::error::ErrorMessage;
use crate::hash::{write_hash, HashType};
use crate::header::{enc_header, lemma_header_len, BlockHeader};

verus! {

/// The most headers that one `headers` message carries.
pub const MAX_HEADERS: usize = 2000;

/// Each header followed by its zero transaction count.
pub open spec fn enc_header_list(hs: Seq<BlockHeader>) -> Seq<u8>
    decreases hs.len(),
{
    if hs.len() == 0 {
        Seq::empty()
    } else {
        enc_header_list(hs.drop_last()) + (enc_header(hs.last()) + seq![0u8])
    }
}

/// The payload of a `headers` message.
pub open spec fn enc_headers_payload(hs: Seq<BlockHeader>) -> Seq<u8> {
    enc_varint(hs.len() as u64) + enc_header_list(hs)
}

/// The hashes one after the other.
pub open spec fn enc_hash_list(hs: Seq<HashType>) -> Seq<u8>
    decreases hs.len(),
{
    if hs.len() == 0 {
        Seq::empty()
    } else {
        enc_hash_list(hs.drop_last()) + hs.last()@
    }
}

/// The payload of a `getheaders` message.
pub open spec fn enc_get_headers_payload(version: i32, locator: Seq<HashType>, stop: HashType) -> Seq<
    u8,
> {
    enc_i32(version) + enc_varint(locator.len() as u64) + enc_hash_list(locator) + stop@
}

pub proof fn lemma_header_list_len(hs: Seq<BlockHeader>)
    ensures
        enc_header_list(hs).len() == 81 * hs.len(),
    decreases hs.len(),
{
    if hs.len() > 0 {
        lemma_header_list_len(hs.drop_last());
        lemma_header_len(hs.last());
    }
}

/// Header `i` of a list stands 81 bytes after header `i - 1`.
pub proof fn lemma_header_list_item(hs: Seq<BlockHeader>, i: int, s: Seq<u8>, p: int)
    requires
        at(enc_header_list(hs), s, p),
        0 <= i < hs.len(),
    ensures
        at(enc_header(hs[i]) + seq![0u8], s, p + 81 * i),
    decreases hs.len(),
{
    let init = hs.drop_last();
    lemma_at_split(enc_header_list(init), enc_header(hs.last()) + seq![0u8], s, p);
    lemma_header_list_len(init);
    if i < hs.len() - 1 {
        lemma_header_list_item(init, i, s, p);
    }
}

/// In a `headers` payload, header `i` and its zero count stand 81 bytes apart.
proof fn lemma_item_at(s: Seq<u8>, p0: int, count: u64, i: int, p: int)
    requires
        0 <= i < count,
        p == p0 + 81 * i,
        forall|hs: Seq<BlockHeader>|
            #[trigger] enc_headers_payload(hs) == s && hs.len() <= MAX_HEADERS ==> hs.len() == count
                && at(enc_header_list(hs), s, p0),
    ensures
        forall|hs: Seq<BlockHeader>|
            #[trigger] enc_headers_payload(hs) == s && hs.len() <= MAX_HEADERS ==> at(
                enc_header(hs[i]),
                s,
                p,
            ) && at(crate::codec::enc_u8(0u8), s, p + 80),
{
    assert forall|hs: Seq<BlockHeader>|
        #[trigger] enc_headers_payload(hs) == s && hs.len() <= MAX_HEADERS implies at(
            enc_header(hs[i]),
            s,
            p,
        ) && at(crate::codec::enc_u8(0u8), s, p + 80) by {
        lemma_header_list_item(hs, i, s, p0);
        lemma_at_split(enc_header(hs[i]), seq![0u8], s, p);
        lemma_header_len(hs[i]);
        assert(crate::codec::enc_u8(0u8) =~= seq![0u8]);
    }
}

/// A header followed by a nonzero transaction count is no `headers` payload.
proof fn lemma_nonzero_refused(s: Seq<u8>, p0: int, count: u64, h: BlockHeader, i: int, p: int, zero: u8)
    requires
        0 <= i < count,
        p == p0 + 81 * i,
        zero != 0,
        at(enc_header(h), s, p),
        at(crate::codec::enc_u8(zero), s, p + 80),
        forall|hs: Seq<BlockHeader>|
            #[trigger] enc_headers_payload(hs) == s && hs.len() <= MAX_HEADERS ==> hs.len() == count
                && at(enc_header_list(hs), s, p0),
    ensures
        forall|hs: Seq<BlockHeader>|
            #[trigger] enc_headers_payload(hs) == s ==> hs.len() > MAX_HEADERS,
{
    assert forall|hs: Seq<BlockHeader>| #[trigger] enc_headers_payload(hs) == s implies hs.len()
        > MAX_HEADERS by {
        if hs.len() <= MAX_HEADERS {
            lemma_header_list_item(hs, i, s, p0);
            lemma_at_split(enc_header(hs[i]), seq![0u8], s, p);
            lemma_header_len(hs[i]);
            assert(s.subrange(p + 80, p + 81)[0] == 0u8);
            assert(s.subrange(p + 80, p + 81)[0] == zero);
        }
    }
}

/// One more header read keeps what `read_headers_payload` knows of the bytes.
proof fn lemma_read_step(
    s: Seq<u8>,
    p0: int,
    count: u64,
    v: Seq<BlockHeader>,
    h: BlockHeader,
    i: int,
    p: int,
    zero: u8,
)
    requires
        0 <= i < count,
        v.len() == i,
        p == p0 + 81 * i,
        zero == 0,
        at(enc_header_list(v), s, p0),
        at(enc_header(h), s, p),
        at(crate::codec::enc_u8(zero), s, p + 80),
        forall|hs: Seq<BlockHeader>|
            #[trigger] enc_headers_payload(hs) == s && hs.len() <= MAX_HEADERS ==> hs.len() == count
                && v == hs.subrange(0, i) && at(enc_header_list(hs), s, p0),
        forall|g: BlockHeader| #[trigger] at(enc_header(g), s, p) ==> g == h,
    ensures
        at(enc_header_list(v.push(h)), s, p0),
        forall|hs: Seq<BlockHeader>|
            #[trigger] enc_headers_payload(hs) == s && hs.len() <= MAX_HEADERS ==> v.push(h) == hs.subrange(
                0,
                i + 1,
            ),
{
    lemma_header_len(h);
    assert(crate::codec::enc_u8(zero) =~= seq![0u8]);
    lemma_at_join(enc_header(h), seq![0u8], s, p);
    lemma_header_list_len(v);
    lemma_at_join(enc_header_list(v), enc_header(h) + seq![0u8], s, p0);
    assert(v.push(h).drop_last() =~= v);
    assert forall|hs: Seq<BlockHeader>|
        #[trigger] enc_headers_payload(hs) == s && hs.len() <= MAX_HEADERS implies v.push(h) == hs.subrange(
            0,
            i + 1,
        ) by {
        lemma_header_list_item(hs, i, s, p0);
        lemma_at_split(enc_header(hs[i]), seq![0u8], s, p);
        assert(hs[i] == h);
        assert(v.push(h) =~= hs.subrange(0, i + 1));
    }
}

/// Appends the payload of a `headers` message that carries `hs`.
pub fn write_headers_payload(hs: &Vec<BlockHeader>, out: &mut Vec<u8>)
    ensures
        final(out)@ == old(out)@ + enc_headers_payload(hs@),
{
    write_varint(hs.len() as u64, out);
    let ghost start = out@;
    let mut i: usize = 0;
    while i < hs.len()
        invariant
            i <= hs@.len(),
            out@ == start + enc_header_list(hs@.subrange(0, i as int)),
        decreases hs@.len() - i,
    {
        hs[i].write(out);
        write_u8(0, out);
        assert(hs@.subrange(0, i + 1).drop_last() =~= hs@.subrange(0, i as int));
        i = i + 1;
        assert(out@ =~= start + enc_header_list(hs@.subrange(0, i as int)));
    }
    assert(hs@.subrange(0, i as int) =~= hs@);
    assert(out@ =~= old(out)@ + enc_headers_payload(hs@));
}

/// Reads the payload of a `headers` message; the payload must hold nothing else.
#[verifier::rlimit(60)]
pub fn read_headers_payload(bytes: &Vec<u8>) -> (r: Result<Vec<BlockHeader>, ErrorMessage>)
    ensures
        r matches Ok(v) ==> bytes@ == enc_headers_payload(v@) && v@.len() <= MAX_HEADERS,
        forall|hs: Seq<BlockHeader>|
            #[trigger] enc_headers_payload(hs) == bytes@ && hs.len() <= MAX_HEADERS ==> (r matches Ok(
                v,
            ) && v@ == hs),
{
    let ghost s = bytes@;
    assert forall|hs: Seq<BlockHeader>|
        #[trigger] enc_headers_payload(hs) == s implies at(enc_varint(hs.len() as u64), s, 0) && at(
        enc_header_list(hs),
        s,
        enc_varint(hs.len() as u64).len() as int,
    ) by {
        assert(s.subrange(0, s.len() as int) =~= s);
        lemma_at_split(enc_varint(hs.len() as u64), enc_header_list(hs), s, 0);
    }
    let (count, p0) = match read_varint(bytes, 0) {
        Ok(x) => x,
        Err(e) => return Err(e),
    };
    if count > MAX_HEADERS as u64 {
        return Err(ErrorMessage::ErrorInDeserialization);
    }
    let mut v: Vec<BlockHeader> = Vec::new();
    assert(enc_header_list(v@) =~= Seq::<u8>::empty());
    assert(s.subrange(p0 as int, p0 as int) =~= Seq::<u8>::empty());
    let mut p: usize = p0;
    let mut i: usize = 0;
    while i < count as usize
        invariant
            s == bytes@,
            i <= count <= MAX_HEADERS,
            p0 <= p <= s.len(),
            p == p0 + 81 * i,
            v@.len() == i,
            p0 == enc_varint(count).len(),
            at(enc_varint(count), s, 0),
            at(enc_header_list(v@), s, p0 as int),
            forall|hs: Seq<BlockHeader>|
                #[trigger] enc_headers_payload(hs) == s && hs.len() <= MAX_HEADERS ==> hs.len() == count
                    && v@ == hs.subrange(0, i as int) && at(enc_header_list(hs), s, p0 as int),
        decreases count - i,
    {
        proof {
            lemma_item_at(s, p0 as int, count, i as int, p as int);
        }
        let (h, q) = match BlockHeader::read(bytes, p) {
            Ok(x) => x,
            Err(e) => return Err(e),
        };
        let (zero, q) = match read_u8(bytes, q) {
            Ok(x) => x,
            Err(e) => return Err(e),
        };
        if zero != 0 {
            proof {
                lemma_nonzero_refused(s, p0 as int, count, h, i as int, p as int, zero);
            }
            return Err(ErrorMessage::ErrorInDeserialization);
        }
        proof {
            lemma_read_step(s, p0 as int, count, v@, h, i as int, p as int, zero);
        }
        v.push(h);
        p = q;
        i = i + 1;
    }
    if p != bytes.len() {
        assert forall|hs: Seq<BlockHeader>|
            #[trigger] enc_headers_payload(hs) == s && hs.len() <= MAX_HEADERS implies false by {
            lemma_header_list_len(hs);
            crate::codec::lemma_at_split(enc_varint(hs.len() as u64), enc_header_list(hs), s, 0);
        }
        return Err(ErrorMessage::ErrorInDeserialization);
    }
    proof {
        lemma_header_list_len(v@);
        assert(s.subrange(0, p0 as int) == enc_varint(count));
        assert(s.subrange(p0 as int, s.len() as int) == enc_header_list(v@));
        assert(s =~= enc_varint(count) + enc_header_list(v@));
        assert forall|hs: Seq<BlockHeader>|
            #[trigger] enc_headers_payload(hs) == s && hs.len() <= MAX_HEADERS implies v@ == hs by {
            assert(hs.subrange(0, count as int) =~= hs);
        }
    }
    Ok(v)
}

/// Appends the payload of a `getheaders` message.
pub fn write_get_headers_payload(version: i32, locator: &Vec<HashType>, stop: &HashType, out: &mut Vec<u8>)
    ensures
        final(out)@ == old(out)@ + enc_get_headers_payload(version, locator@, *stop),
{
    write_i32(version, out);
    write_varint(locator.len() as u64, out);
    let ghost start = out@;
    let mut i: usize = 0;
    while i < locator.len()
        invariant
            i <= locator@.len(),
            out@ == start + enc_hash_list(locator@.subrange(0, i as int)),
        decreases locator@.len() - i,
    {
        write_hash(&locator[i], out);
        assert(locator@.subrange(0, i + 1).drop_last() =~= locator@.subrange(0, i as int));
        i = i + 1;
        assert(out@ =~= start + enc_hash_list(locator@.subrange(0, i as int)));
    }
    assert(locator@.subrange(0, i as int) =~= locator@);
    write_hash(stop, out);
    assert(out@ =~= old(out)@ + enc_get_headers_payload(version, locator@, *stop));
}

} // verus!
