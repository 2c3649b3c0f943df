//! Transactions, their identifiers, and blocks with their Merkle check.
use vstd::prelude::*;

use crate::codec::{
    enc_i32, enc_i64, enc_u32, enc_var_bytes, enc_varint, write_i32, write_i64, write_u32,
    write_var_bytes, write_varint,
};
use crate::hash::{sha256d, sha256d_of, write_hash, HashType};
use crate::header::BlockHeader;

verus! {

/// An output that a transaction input spends: a transaction id and an index.
#[derive(Debug, Clone, Copy, PartialEq, Eq)]
pub struct OutPoint {
    pub hash: HashType,
    pub index: u32,
}

#[derive(Debug)]
pub struct TxIn {
    pub previous_output: OutPoint,
    pub script_sig: Vec<u8>,
    pub sequence: u32,
}

#[derive(Debug)]
pub struct TxOut {
    /// Satoshis.
    pub value: i64,
    pub script_pubkey: Vec<u8>,
}

#[derive(Debug)]
pub struct Transaction {
    pub version: i32,
    pub inputs: Vec<TxIn>,
    pub outputs: Vec<TxOut>,
    pub lock_time: u32,
}

/// The parts one after the other.
pub open spec fn concat_all(parts: Seq<Seq<u8>>) -> Seq<u8>
    decreases parts.len(),
{
    if parts.len() == 0 {
        Seq::empty()
    } else {
        concat_all(parts.drop_last()) + parts.last()
    }
}

pub open spec fn enc_txin(i: TxIn) -> Seq<u8> {
    i.previous_output.hash@ + enc_u32(i.previous_output.index) + enc_var_bytes(i.script_sig@)
        + enc_u32(i.sequence)
}

pub open spec fn enc_txout(o: TxOut) -> Seq<u8> {
    enc_i64(o.value) + enc_var_bytes(o.script_pubkey@)
}

pub open spec fn enc_inputs(ins: Seq<TxIn>) -> Seq<u8> {
    enc_varint(ins.len() as u64) + concat_all(ins.map_values(|i: TxIn| enc_txin(i)))
}

pub open spec fn enc_outputs(outs: Seq<TxOut>) -> Seq<u8> {
    enc_varint(outs.len() as u64) + concat_all(outs.map_values(|o: TxOut| enc_txout(o)))
}

/// The bytes of a transaction on the wire.
pub open spec fn enc_tx(tx: Transaction) -> Seq<u8> {
    enc_i32(tx.version) + enc_inputs(tx.inputs@) + enc_outputs(tx.outputs@) + enc_u32(tx.lock_time)
}

/// The identifier of a transaction: the double SHA-256 of its bytes.
pub open spec fn txid_of(tx: Transaction) -> HashType {
    sha256d_of(enc_tx(tx))
}

/// One level of a Merkle tree up: each pair hashed together, the last
/// doubled where the count is odd.
pub open spec fn merkle_level(hs: Seq<HashType>) -> Seq<HashType> {
    Seq::new(
        ((hs.len() + 1) / 2) as nat,
        |i: int|
            sha256d_of(
                hs[2 * i]@ + hs[if 2 * i + 1 < hs.len() {
                    2 * i + 1
                } else {
                    2 * i
                }]@,
            ),
    )
}

/// The Merkle root of a non-empty sequence of hashes.
pub open spec fn merkle_root(hs: Seq<HashType>) -> HashType
    decreases hs.len(),
{
    if hs.len() <= 1 {
        hs[0]
    } else {
        merkle_root(merkle_level(hs))
    }
}

pub fn write_tx(tx: &Transaction, out: &mut Vec<u8>)
    ensures
        final(out)@ == old(out)@ + enc_tx(*tx),
{
    write_i32(tx.version, out);
    write_varint(tx.inputs.len() as u64, out);
    let ghost start = out@;
    let ghost ins = tx.inputs@;
    let mut i: usize = 0;
    while i < tx.inputs.len()
        invariant
            ins == tx.inputs@,
            i <= ins.len(),
            out@ == start + concat_all(ins.subrange(0, i as int).map_values(|x: TxIn| enc_txin(x))),
        decreases ins.len() - i,
    {
        let input = &tx.inputs[i];
        write_hash(&input.previous_output.hash, out);
        write_u32(input.previous_output.index, out);
        write_var_bytes(&input.script_sig, out);
        write_u32(input.sequence, out);
        assert(ins.subrange(0, i + 1).map_values(|x: TxIn| enc_txin(x)).drop_last() =~= ins.subrange(
            0,
            i as int,
        ).map_values(|x: TxIn| enc_txin(x)));
        i = i + 1;
        assert(out@ =~= start + concat_all(ins.subrange(0, i as int).map_values(|x: TxIn| enc_txin(x))));
    }
    assert(ins.subrange(0, i as int) =~= ins);
    write_varint(tx.outputs.len() as u64, out);
    let ghost mid = out@;
    let ghost outs = tx.outputs@;
    let mut k: usize = 0;
    while k < tx.outputs.len()
        invariant
            outs == tx.outputs@,
            k <= outs.len(),
            out@ == mid + concat_all(outs.subrange(0, k as int).map_values(|x: TxOut| enc_txout(x))),
        decreases outs.len() - k,
    {
        let output = &tx.outputs[k];
        write_i64(output.value, out);
        write_var_bytes(&output.script_pubkey, out);
        assert(outs.subrange(0, k + 1).map_values(|x: TxOut| enc_txout(x)).drop_last() =~= outs.subrange(
            0,
            k as int,
        ).map_values(|x: TxOut| enc_txout(x)));
        k = k + 1;
        assert(out@ =~= mid + concat_all(outs.subrange(0, k as int).map_values(|x: TxOut| enc_txout(x))));
    }
    assert(outs.subrange(0, k as int) =~= outs);
    write_u32(tx.lock_time, out);
    assert(out@ =~= old(out)@ + enc_tx(*tx));
}

impl Transaction {
    /// The transaction's identifier.
    pub fn txid(&self) -> (r: HashType)
        ensures
            r == txid_of(*self),
    {
        let mut bytes: Vec<u8> = Vec::new();
        write_tx(self, &mut bytes);
        assert(bytes@ =~= enc_tx(*self));
        sha256d(&bytes)
    }
}

/// The Merkle root of `hashes`, which must not be empty.
pub fn compute_merkle_root(hashes: Vec<HashType>) -> (r: HashType)
    requires
        hashes@.len() > 0,
    ensures
        r == merkle_root(hashes@),
{
    let mut level: Vec<HashType> = hashes;
    while level.len() > 1
        invariant
            level@.len() > 0,
            merkle_root(level@) == merkle_root(hashes@),
        decreases level@.len(),
    {
        let mut next: Vec<HashType> = Vec::new();
        let n = level.len();
        let count = n / 2 + n % 2;
        let mut j: usize = 0;
        while j < count
            invariant
                n == level@.len(),
                count == (n + 1) / 2,
                j <= count,
                next@.len() == j,
                forall|k: int| 0 <= k < j ==> #[trigger] next@[k] == merkle_level(level@)[k],
            decreases count - j,
        {
            let left: usize = 2 * j;
            let right: usize = if left + 1 < n {
                left + 1
            } else {
                left
            };
            let mut pair: Vec<u8> = Vec::new();
            write_hash(&level[left], &mut pair);
            write_hash(&level[right], &mut pair);
            assert(pair@ =~= level@[left as int]@ + level@[right as int]@);
            let h = sha256d(&pair);
            next.push(h);
            j = j + 1;
        }
        assert(next@ =~= merkle_level(level@));
        level = next;
    }
    level[0]
}

/// A block: its header and its transactions.
#[derive(Debug)]
pub struct Block {
    pub header: BlockHeader,
    pub transactions: Vec<Transaction>,
}

/// The identifiers of the transactions, in order.
pub open spec fn txids_of(txs: Seq<Transaction>) -> Seq<HashType> {
    txs.map_values(|t: Transaction| txid_of(t))
}

impl Block {
    /// A block with `header` and no transactions yet.
    pub fn new(header: BlockHeader) -> (r: Block)
        ensures
            r.header == header,
            r.transactions@.len() == 0,
    {
        Block { header, transactions: Vec::new() }
    }

    /// Whether the block has transactions and their Merkle root is the one
    /// that its header states.
    pub fn proof_of_inclusion(&self) -> (r: bool)
        ensures
            r == (self.transactions@.len() > 0 && merkle_root(txids_of(self.transactions@))
                == self.header.merkle_root),
    {
        if self.transactions.len() == 0 {
            return false;
        }
        let mut ids: Vec<HashType> = Vec::new();
        let mut i: usize = 0;
        while i < self.transactions.len()
            invariant
                i <= self.transactions@.len(),
                ids@ == txids_of(self.transactions@.subrange(0, i as int)),
            decreases self.transactions@.len() - i,
        {
            ids.push(self.transactions[i].txid());
            i = i + 1;
            assert(ids@ =~= txids_of(self.transactions@.subrange(0, i as int)));
        }
        assert(self.transactions@.subrange(0, i as int) =~= self.transactions@);
        let root = compute_merkle_root(ids);
        crate::chain::hash_eq(&root, &self.header.merkle_root)
    }

    /// Appends `transaction` to the block's transactions.
    pub fn agregar_transaccion(&mut self, transaction: Transaction)
        ensures
            final(self).header == old(self).header,
            final(self).transactions@ == old(self).transactions@.push(transaction),
    {
        self.transactions.push(transaction);
    }
}

} // verus!
