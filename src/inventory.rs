//! The payloads of `inv` and `getdata`: a list of typed hashes.
use vstd::prelude::*;

use crate::codec::{
    at, enc_u32, enc_varint, lemma_at_join, lemma_at_split, lemma_le_bytes_len, read_u32, read_varint,
    write_u32, write_varint,
};
use crate::error::ErrorMessage;
use crate::hash::{read_hash, write_hash, HashType};

verus! {

/// The most entries that one `inv` or `getdata` message carries.
pub const MAX_INVENTORY: usize = 50000;

/// What an inventory entry names.
#[derive(Debug, Clone, Copy, PartialEq, Eq, Structural)]
pub enum InventoryType {
    Error,
    Tx,
    Block,
}

/// The code of each type on the wire.
pub open spec fn type_code(t: InventoryType) -> u32 {
    match t {
        InventoryType::Error => 0,
        InventoryType::Tx => 1,
        InventoryType::Block => 2,
    }
}

/// A typed hash.
#[derive(Debug, Clone, Copy, PartialEq, Eq)]
pub struct Inventory {
    pub kind: InventoryType,
    pub hash: HashType,
}

pub open spec fn enc_inventory(i: Inventory) -> Seq<u8> {
    enc_u32(type_code(i.kind)) + i.hash@
}

pub open spec fn enc_inventory_list(xs: Seq<Inventory>) -> Seq<u8>
    decreases xs.len(),
{
    if xs.len() == 0 {
        Seq::empty()
    } else {
        enc_inventory_list(xs.drop_last()) + enc_inventory(xs.last())
    }
}

/// The payload of an `inv` or a `getdata` message.
pub open spec fn enc_inventory_payload(xs: Seq<Inventory>) -> Seq<u8> {
    enc_varint(xs.len() as u64) + enc_inventory_list(xs)
}

pub proof fn lemma_inventory_len(i: Inventory)
    ensures
        enc_inventory(i).len() == 36,
{
    lemma_le_bytes_len(type_code(i.kind) as nat, 4);
}

pub proof fn lemma_inventory_list_len(xs: Seq<Inventory>)
    ensures
        enc_inventory_list(xs).len() == 36 * xs.len(),
    decreases xs.len(),
{
    if xs.len() > 0 {
        lemma_inventory_list_len(xs.drop_last());
        lemma_inventory_len(xs.last());
    }
}

/// Entry `i` of a list stands 36 bytes after entry `i - 1`.
pub proof fn lemma_inventory_item(xs: Seq<Inventory>, i: int, s: Seq<u8>, p: int)
    requires
        at(enc_inventory_list(xs), s, p),
        0 <= i < xs.len(),
    ensures
        at(enc_inventory(xs[i]), s, p + 36 * i),
    decreases xs.len(),
{
    let init = xs.drop_last();
    lemma_at_split(enc_inventory_list(init), enc_inventory(xs.last()), s, p);
    lemma_inventory_list_len(init);
    if i < xs.len() - 1 {
        lemma_inventory_item(init, i, s, p);
    }
}

/// Appends one entry.
pub fn write_inventory(i: &Inventory, out: &mut Vec<u8>)
    ensures
        final(out)@ == old(out)@ + enc_inventory(*i),
{
    let code: u32 = match i.kind {
        InventoryType::Error => 0,
        InventoryType::Tx => 1,
        InventoryType::Block => 2,
    };
    write_u32(code, out);
    write_hash(&i.hash, out);
    assert(out@ =~= old(out)@ + enc_inventory(*i));
}

/// Reads one entry; a type code other than 0, 1 and 2 is refused.
pub fn read_inventory(bytes: &Vec<u8>, pos: usize) -> (r: Result<(Inventory, usize), ErrorMessage>)
    ensures
        r matches Ok((i, next)) ==> next == pos + 36 && at(enc_inventory(i), bytes@, pos as int),
        forall|i: Inventory| #[trigger]
            at(enc_inventory(i), bytes@, pos as int) ==> r == Ok::<(Inventory, usize), ErrorMessage>(
                (i, (pos + 36) as usize),
            ),
{
    assert forall|i: Inventory| #[trigger] at(enc_inventory(i), bytes@, pos as int) implies at(
        enc_u32(type_code(i.kind)),
        bytes@,
        pos as int,
    ) && at(i.hash@, bytes@, pos + 4) by {
        lemma_le_bytes_len(type_code(i.kind) as nat, 4);
        lemma_at_split(enc_u32(type_code(i.kind)), i.hash@, bytes@, pos as int);
    }
    let (code, p) = match read_u32(bytes, pos) {
        Ok(x) => x,
        Err(e) => return Err(e),
    };
    let kind = if code == 0 {
        InventoryType::Error
    } else if code == 1 {
        InventoryType::Tx
    } else if code == 2 {
        InventoryType::Block
    } else {
        return Err(ErrorMessage::ErrorInDeserialization);
    };
    let (hash, next) = match read_hash(bytes, p) {
        Ok(x) => x,
        Err(e) => return Err(e),
    };
    let i = Inventory { kind, hash };
    proof {
        lemma_le_bytes_len(code as nat, 4);
        lemma_at_join(enc_u32(code), hash@, bytes@, pos as int);
    }
    Ok((i, next))
}

/// Appends the payload that carries `xs`.
pub fn write_inventory_payload(xs: &Vec<Inventory>, out: &mut Vec<u8>)
    ensures
        final(out)@ == old(out)@ + enc_inventory_payload(xs@),
{
    write_varint(xs.len() as u64, out);
    let ghost start = out@;
    let mut i: usize = 0;
    while i < xs.len()
        invariant
            i <= xs@.len(),
            out@ == start + enc_inventory_list(xs@.subrange(0, i as int)),
        decreases xs@.len() - i,
    {
        write_inventory(&xs[i], out);
        assert(xs@.subrange(0, i + 1).drop_last() =~= xs@.subrange(0, i as int));
        i = i + 1;
        assert(out@ =~= start + enc_inventory_list(xs@.subrange(0, i as int)));
    }
    assert(xs@.subrange(0, i as int) =~= xs@);
    assert(out@ =~= old(out)@ + enc_inventory_payload(xs@));
}

/// In a payload, entry `i` stands 36 bytes after entry `i - 1`.
proof fn lemma_payload_item_at(s: Seq<u8>, p0: int, count: u64, i: int, p: int)
    requires
        0 <= i < count,
        p == p0 + 36 * i,
        forall|xs: Seq<Inventory>|
            #[trigger] enc_inventory_payload(xs) == s && xs.len() <= MAX_INVENTORY ==> xs.len() == count
                && at(enc_inventory_list(xs), s, p0),
    ensures
        forall|xs: Seq<Inventory>|
            #[trigger] enc_inventory_payload(xs) == s && xs.len() <= MAX_INVENTORY ==> at(
                enc_inventory(xs[i]),
                s,
                p,
            ),
{
    assert forall|xs: Seq<Inventory>|
        #[trigger] enc_inventory_payload(xs) == s && xs.len() <= MAX_INVENTORY implies at(
            enc_inventory(xs[i]),
            s,
            p,
        ) by {
        lemma_inventory_item(xs, i, s, p0);
    }
}

/// One more entry read keeps what `read_inventory_payload` knows of the bytes.
proof fn lemma_payload_step(s: Seq<u8>, p0: int, count: u64, v: Seq<Inventory>, x: Inventory, i: int, p: int)
    requires
        0 <= i < count,
        v.len() == i,
        p == p0 + 36 * i,
        at(enc_inventory_list(v), s, p0),
        at(enc_inventory(x), s, p),
        forall|xs: Seq<Inventory>|
            #[trigger] enc_inventory_payload(xs) == s && xs.len() <= MAX_INVENTORY ==> xs.len() == count
                && v == xs.subrange(0, i) && at(enc_inventory_list(xs), s, p0),
        forall|y: Inventory| #[trigger] at(enc_inventory(y), s, p) ==> y == x,
    ensures
        at(enc_inventory_list(v.push(x)), s, p0),
        forall|xs: Seq<Inventory>|
            #[trigger] enc_inventory_payload(xs) == s && xs.len() <= MAX_INVENTORY ==> v.push(x)
                == xs.subrange(0, i + 1),
{
    lemma_inventory_list_len(v);
    lemma_at_join(enc_inventory_list(v), enc_inventory(x), s, p0);
    assert(v.push(x).drop_last() =~= v);
    assert forall|xs: Seq<Inventory>|
        #[trigger] enc_inventory_payload(xs) == s && xs.len() <= MAX_INVENTORY implies v.push(x)
        == xs.subrange(0, i + 1) by {
        lemma_inventory_item(xs, i, s, p0);
        assert(xs[i] == x);
        assert(v.push(x) =~= xs.subrange(0, i + 1));
    }
}

/// Reads the payload of an `inv` or a `getdata` message; the payload must
/// hold nothing else.
#[verifier::rlimit(60)]
pub fn read_inventory_payload(bytes: &Vec<u8>) -> (r: Result<Vec<Inventory>, ErrorMessage>)
    ensures
        r matches Ok(v) ==> bytes@ == enc_inventory_payload(v@) && v@.len() <= MAX_INVENTORY,
        forall|xs: Seq<Inventory>|
            #[trigger] enc_inventory_payload(xs) == bytes@ && xs.len() <= MAX_INVENTORY ==> (r matches Ok(
                v,
            ) && v@ == xs),
{
    let ghost s = bytes@;
    assert forall|xs: Seq<Inventory>| #[trigger] enc_inventory_payload(xs) == s implies at(
        enc_varint(xs.len() as u64),
        s,
        0,
    ) && at(enc_inventory_list(xs), s, enc_varint(xs.len() as u64).len() as int) by {
        assert(s.subrange(0, s.len() as int) =~= s);
        lemma_at_split(enc_varint(xs.len() as u64), enc_inventory_list(xs), s, 0);
    }
    let (count, p0) = match read_varint(bytes, 0) {
        Ok(x) => x,
        Err(e) => return Err(e),
    };
    if count > MAX_INVENTORY as u64 {
        return Err(ErrorMessage::ErrorInDeserialization);
    }
    let mut v: Vec<Inventory> = Vec::new();
    assert(enc_inventory_list(v@) =~= Seq::<u8>::empty());
    assert(s.subrange(p0 as int, p0 as int) =~= Seq::<u8>::empty());
    let mut p: usize = p0;
    let mut i: usize = 0;
    while i < count as usize
        invariant
            s == bytes@,
            i <= count <= MAX_INVENTORY,
            p0 <= p <= s.len(),
            p == p0 + 36 * i,
            v@.len() == i,
            p0 == enc_varint(count).len(),
            at(enc_varint(count), s, 0),
            at(enc_inventory_list(v@), s, p0 as int),
            forall|xs: Seq<Inventory>|
                #[trigger] enc_inventory_payload(xs) == s && xs.len() <= MAX_INVENTORY ==> xs.len() == count
                    && v@ == xs.subrange(0, i as int) && at(enc_inventory_list(xs), s, p0 as int),
        decreases count - i,
    {
        proof {
            lemma_payload_item_at(s, p0 as int, count, i as int, p as int);
        }
        let (x, q) = match read_inventory(bytes, p) {
            Ok(x) => x,
            Err(e) => return Err(e),
        };
        proof {
            lemma_payload_step(s, p0 as int, count, v@, x, i as int, p as int);
            lemma_inventory_len(x);
        }
        v.push(x);
        p = q;
        i = i + 1;
    }
    if p != bytes.len() {
        assert forall|xs: Seq<Inventory>|
            #[trigger] enc_inventory_payload(xs) == s && xs.len() <= MAX_INVENTORY implies false by {
            lemma_inventory_list_len(xs);
            lemma_at_split(enc_varint(xs.len() as u64), enc_inventory_list(xs), s, 0);
        }
        return Err(ErrorMessage::ErrorInDeserialization);
    }
    proof {
        lemma_inventory_list_len(v@);
        assert(s.subrange(0, p0 as int) == enc_varint(count));
        assert(s.subrange(p0 as int, s.len() as int) == enc_inventory_list(v@));
        assert(s =~= enc_varint(count) + enc_inventory_list(v@));
        assert forall|xs: Seq<Inventory>|
            #[trigger] enc_inventory_payload(xs) == s && xs.len() <= MAX_INVENTORY implies v@ == xs by {
            assert(xs.subrange(0, count as int) =~= xs);
        }
    }
    Ok(v)
}

} // verus!
