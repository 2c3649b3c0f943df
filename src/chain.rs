//! The header chain: headers indexed by hash, rooted at genesis, with the tip
//! of greatest cumulative work.
use vstd::prelude::*;

use crate::codec::{le_value, lemma_le_bytes_of_value, lemma_pow256_values, lemma_le_value_append, lemma_pow_mono, pow256};
use crate::error::ErrorBlock;
use crate::hash::HashType;
use crate::header::{header_hash, meets_target, target_bytes, target_of, valid_bits, BlockHeader};

verus! {

/// The work of a header: 2^256 / (target + 1) in fixed point, counted in units
/// of 2^128 (the target is first divided by 2^128).
pub open spec fn block_work(bits: u32) -> nat {
    ((pow256(16) - 1) as nat) / (target_of(bits) / pow256(16) + 1)
}

/// The work that a header of target `bits` adds to its chain.
pub fn work_of_bits(bits: u32) -> (r: u128)
    requires
        valid_bits(bits),
    ensures
        r == block_work(bits),
{
    let t = target_bytes(bits);
    proof {
        lemma_pow256_values();
    }
    let mut acc: u128 = 0;
    let mut i: usize = 32;
    while i > 16
        invariant
            16 <= i <= 32,
            t@.len() == 32,
            pow256(16) == 0x1_0000_0000_0000_0000_0000_0000_0000_0000,
            pow256(15) == 0x100_0000_0000_0000_0000_0000_0000_0000,
            acc as nat == le_value(t@.subrange(i as int, 32)),
        decreases i,
    {
        let ghost tail = t@.subrange(i as int, 32);
        assert(t@.subrange(i - 1, 32).drop_first() =~= tail);
        proof {
            lemma_le_bytes_of_value(tail);
            lemma_pow_mono(tail.len(), 15);
        }
        let b = t[i - 1];
        assert(acc as nat * 256 + b < 0x1_0000_0000_0000_0000_0000_0000_0000_0000) by (nonlinear_arith)
            requires
                acc < pow256(tail.len()),
                pow256(tail.len()) <= pow256(15),
                pow256(15) == 0x100_0000_0000_0000_0000_0000_0000_0000,
                b < 256,
        ;
        acc = acc * 256 + b as u128;
        i = i - 1;
    }
    proof {
        let lo = t@.subrange(0, 16);
        let hi = t@.subrange(16, 32);
        assert(t@ =~= lo + hi);
        lemma_le_value_append(lo, hi);
        lemma_le_bytes_of_value(lo);
        assert(le_value(t@) == le_value(hi) * pow256(16) + le_value(lo)) by (nonlinear_arith)
            requires
                le_value(t@) == le_value(lo) + pow256(16) * le_value(hi),
        ;
        vstd::arithmetic::div_mod::lemma_fundamental_div_mod_converse(
            le_value(t@) as int,
            pow256(16) as int,
            le_value(hi) as int,
            le_value(lo) as int,
        );
    }
    assert(acc == target_of(bits) / pow256(16));
    if acc == u128::MAX {
        assert((pow256(16) - 1) as nat / (acc + 1) as nat == 0) by (nonlinear_arith)
            requires
                acc + 1 == pow256(16),
        ;
        return 0;
    }
    u128::MAX / (acc + 1)
}

/// A header of the chain with what the chain knows of it.
#[derive(Debug, Clone, Copy)]
pub struct ChainNode {
    pub header: BlockHeader,
    /// The header's hash.
    pub hash: HashType,
    /// The index of the header that `previous` names; genesis names itself.
    pub parent: usize,
    pub height: usize,
    /// The work of the header and all of its ancestors.
    pub work: u128,
}

/// What `append_header` did with a header that it accepted.
#[derive(Debug, Clone, Copy, PartialEq, Eq, Structural)]
pub enum AppendOutcome {
    Admitted,
    Duplicate,
}

/// Node `i` is tied to its parent as the chain demands.
pub open spec fn linked(s: Seq<ChainNode>, i: int) -> bool {
    let n = s[i];
    if i == 0 {
        n.parent == 0 && n.height == 0 && n.work == block_work(n.header.n_bits)
    } else {
        &&& n.parent < i
        &&& n.header.previous == s[n.parent as int].hash
        &&& n.height == s[n.parent as int].height + 1
        &&& n.work == s[n.parent as int].work + block_work(n.header.n_bits)
    }
}

/// The invariant of a chain of nodes `s` whose main tip is `tip`.
#[verifier::opaque]
pub open spec fn chain_wf(s: Seq<ChainNode>, tip: int) -> bool {
    &&& s.len() >= 1
    &&& 0 <= tip < s.len()
    &&& forall|i: int|
        0 <= i < s.len() ==> {
            &&& (#[trigger] s[i]).hash@ == header_hash(s[i].header)
            &&& meets_target(s[i].header)
            &&& linked(s, i)
            &&& s[i].height <= i
            &&& s[i].work <= s[tip].work
        }
    &&& forall|i: int, j: int| 0 <= i < j < s.len() ==> (#[trigger] s[i]).hash != (#[trigger] s[j]).hash
}

/// Some node of `s` has hash `h`.
pub open spec fn has_hash(s: Seq<ChainNode>, h: Seq<u8>) -> bool {
    exists|i: int| 0 <= i < s.len() && (#[trigger] s[i]).hash@ == h
}

/// The timestamps of node `i` and of its ancestors, `k` of them at most,
/// nearest first.
pub open spec fn ancestor_times(s: Seq<ChainNode>, i: int, k: nat) -> Seq<u32>
    decreases k,
{
    if k == 0 || !(0 <= i < s.len()) {
        Seq::empty()
    } else if i == 0 {
        seq![s[0].header.timestamp]
    } else {
        seq![s[i].header.timestamp] + ancestor_times(s, s[i].parent as int, (k - 1) as nat)
    }
}

/// How many of `ts` are below `t`.
pub open spec fn count_below(ts: Seq<u32>, t: u32) -> nat
    decreases ts.len(),
{
    if ts.len() == 0 {
        0
    } else {
        (if ts[0] < t {
            1nat
        } else {
            0nat
        }) + count_below(ts.drop_first(), t)
    }
}

/// `t` is above the median of the timestamps of node `p` and of its 10
/// nearest ancestors: more than half of them are below `t`.
pub open spec fn after_median_time(s: Seq<ChainNode>, p: int, t: u32) -> bool {
    let ts = ancestor_times(s, p, 11);
    count_below(ts, t) > ts.len() / 2
}

/// What admitting `h` does to the nodes `s` with tip `tip`: the new nodes, the
/// new tip and the result.
pub open spec fn append_model(s: Seq<ChainNode>, tip: int, h: BlockHeader) -> (
    Seq<ChainNode>,
    int,
    Result<AppendOutcome, ErrorBlock>,
) {
    if has_hash(s, header_hash(h)) {
        (s, tip, Ok(AppendOutcome::Duplicate))
    } else if !has_hash(s, h.previous@) {
        (s, tip, Err(ErrorBlock::UnknownPrevious))
    } else if !meets_target(h) {
        (s, tip, Err(ErrorBlock::InsufficientProofOfWork))
    } else {
        let p = choose|i: int| 0 <= i < s.len() && (#[trigger] s[i]).hash@ == h.previous@;
        let work = s[p].work + block_work(h.n_bits);
        if !after_median_time(s, p, h.timestamp) {
            (s, tip, Err(ErrorBlock::TimestampTooOld))
        } else if work > u128::MAX {
            (s, tip, Err(ErrorBlock::WorkOverflow))
        } else {
            let node = ChainNode {
                header: h,
                hash: choose|a: HashType| a@ == header_hash(h),
                parent: p as usize,
                height: (s[p].height + 1) as usize,
                work: work as u128,
            };
            (s.push(node), if work > s[tip].work {
                s.len() as int
            } else {
                tip
            }, Ok(AppendOutcome::Admitted))
        }
    }
}

/// What admitting the headers `hs` in order does, stopping at the first error;
/// an `Ok` counts the headers that were admitted.
pub open spec fn append_all(s: Seq<ChainNode>, tip: int, hs: Seq<BlockHeader>) -> (
    Seq<ChainNode>,
    int,
    Result<nat, ErrorBlock>,
)
    decreases hs.len(),
{
    if hs.len() == 0 {
        (s, tip, Ok(0))
    } else {
        let (s1, t1, r1) = append_all(s, tip, hs.drop_last());
        match r1 {
            Err(e) => (s1, t1, Err(e)),
            Ok(c) => {
                let (s2, t2, r2) = append_model(s1, t1, hs.last());
                match r2 {
                    Err(e) => (s2, t2, Err(e)),
                    Ok(AppendOutcome::Admitted) => (s2, t2, Ok(c + 1)),
                    Ok(AppendOutcome::Duplicate) => (s2, t2, Ok(c)),
                }
            },
        }
    }
}

/// Admitting a node that is new, linked and meets its target, with the tip
/// moved to it only on greater work, keeps the chain's invariant.
proof fn lemma_push_keeps_wf(s: Seq<ChainNode>, tip: int, node: ChainNode, new_tip: int)
    requires
        chain_wf(s, tip),
        node.hash@ == header_hash(node.header),
        meets_target(node.header),
        linked(s.push(node), s.len() as int),
        node.height <= s.len(),
        forall|i: int| 0 <= i < s.len() ==> (#[trigger] s[i]).hash != node.hash,
        new_tip == (if node.work > s[tip].work {
            s.len() as int
        } else {
            tip
        }),
    ensures
        chain_wf(s.push(node), new_tip),
{
    reveal(chain_wf);
    let t = s.push(node);
    assert forall|i: int| 0 <= i < t.len() implies {
        &&& (#[trigger] t[i]).hash@ == header_hash(t[i].header)
        &&& meets_target(t[i].header)
        &&& linked(t, i)
        &&& t[i].height <= i
        &&& t[i].work <= t[new_tip].work
    } by {
        if i < s.len() {
            assert(t[i] == s[i]);
            assert(linked(s, i));
            if i > 0 {
                assert(t[s[i].parent as int] == s[s[i].parent as int]);
            }
        }
    }
    assert forall|i: int, j: int| 0 <= i < j < t.len() implies (#[trigger] t[i]).hash
        != (#[trigger] t[j]).hash by {
        if j == s.len() {
            assert(t[i] == s[i]);
        } else {
            assert(t[i] == s[i] && t[j] == s[j]);
        }
    }
}

/// What the invariant says of one node.
pub proof fn lemma_wf_node(s: Seq<ChainNode>, tip: int, i: int)
    requires
        chain_wf(s, tip),
        0 <= i < s.len(),
    ensures
        s.len() >= 1,
        0 <= tip < s.len(),
        s[i].hash@ == header_hash(s[i].header),
        meets_target(s[i].header),
        linked(s, i),
        s[i].height <= i,
        s[i].work <= s[tip].work,
{
    reveal(chain_wf);
    assert(s[i].hash@ == header_hash(s[i].header));
}

/// No two nodes share a hash.
pub proof fn lemma_wf_unique(s: Seq<ChainNode>, tip: int, i: int, j: int)
    requires
        chain_wf(s, tip),
        0 <= i < s.len(),
        0 <= j < s.len(),
        s[i].hash == s[j].hash,
    ensures
        i == j,
{
    reveal(chain_wf);
    if i < j {
        assert(s[i].hash != s[j].hash);
    } else if j < i {
        assert(s[j].hash != s[i].hash);
    }
}

/// The index of the ancestor of node `i` at `height`, or -1 if there is none.
pub open spec fn ancestor_at(s: Seq<ChainNode>, i: int, height: int) -> int
    decreases i,
{
    if !(0 <= i < s.len()) || height > s[i].height {
        -1
    } else if s[i].height == height {
        i
    } else if 0 <= s[i].parent < i {
        ancestor_at(s, s[i].parent as int, height)
    } else {
        -1
    }
}

/// Every height from genesis up to a node's own has an ancestor there.
pub proof fn lemma_ancestor_exists(s: Seq<ChainNode>, tip: int, i: int, height: int)
    requires
        chain_wf(s, tip),
        0 <= i < s.len(),
        0 <= height <= s[i].height,
    ensures
        0 <= ancestor_at(s, i, height) < s.len(),
        s[ancestor_at(s, i, height)].height == height,
    decreases i,
{
    lemma_wf_node(s, tip, i);
    if s[i].height != height {
        if i == 0 {
            assert(false);
        }
        lemma_ancestor_exists(s, tip, s[i].parent as int, height);
    }
}

/// The offset from the tip that follows `off` in a locator: 1, 2, 4, 8, ...
pub open spec fn next_offset(off: nat) -> nat {
    if off == 0 {
        1
    } else {
        2 * off
    }
}

/// The heights of a locator from the tip at `tip` down, offset `off` on:
/// tip, tip - 1, tip - 2, tip - 4, ..., and genesis last.
pub open spec fn locator_from(tip: nat, off: nat) -> Seq<nat>
    decreases tip - off,
{
    if off >= tip {
        seq![0]
    } else {
        let next = next_offset(off);
        seq![(tip - off) as nat] + if next >= tip {
            locator_from(tip, tip)
        } else {
            locator_from(tip, next)
        }
    }
}

/// The heights of the locator of a chain whose tip is at height `tip`.
pub open spec fn locator_heights(tip: nat) -> Seq<nat> {
    locator_from(tip, 0)
}

/// Admitting headers only adds nodes, and an `Ok` counts exactly the nodes
/// added, never more than the headers given.
pub proof fn lemma_append_all_grows(s: Seq<ChainNode>, tip: int, hs: Seq<BlockHeader>)
    ensures
        ({
            let (s2, t2, m) = append_all(s, tip, hs);
            &&& s2.len() >= s.len()
            &&& s2.subrange(0, s.len() as int) == s
            &&& (m matches Ok(c) ==> c <= hs.len() && s2.len() == s.len() + c)
        }),
    decreases hs.len(),
{
    if hs.len() == 0 {
        assert(s.subrange(0, s.len() as int) =~= s);
    } else {
        lemma_append_all_grows(s, tip, hs.drop_last());
        let (s1, t1, r1) = append_all(s, tip, hs.drop_last());
        let (s2, t2, r2) = append_model(s1, t1, hs.last());
        assert(s2.len() >= s1.len());
        assert(s2.subrange(0, s1.len() as int) =~= s1);
        assert(s2.subrange(0, s.len() as int) =~= s1.subrange(0, s.len() as int));
    }
}

/// Once all of `hs` is accepted, each of its headers is in the chain, either
/// admitted now or held before.
pub proof fn lemma_append_all_holds_all(s: Seq<ChainNode>, tip: int, hs: Seq<BlockHeader>)
    ensures
        append_all(s, tip, hs).2 is Ok ==> forall|k: int|
            0 <= k < hs.len() ==> has_hash(append_all(s, tip, hs).0, header_hash(#[trigger] hs[k])),
    decreases hs.len(),
{
    if hs.len() > 0 {
        let init = hs.drop_last();
        lemma_append_all_holds_all(s, tip, init);
        let (s1, t1, r1) = append_all(s, tip, init);
        let (s2, t2, r2) = append_model(s1, t1, hs.last());
        if r1 is Ok && r2 is Ok {
            assert forall|k: int| 0 <= k < hs.len() implies has_hash(s2, header_hash(#[trigger] hs[k])) by {
                if k < hs.len() - 1 {
                    assert(hs[k] == init[k]);
                    let i = choose|i: int| 0 <= i < s1.len() && (#[trigger] s1[i]).hash@ == header_hash(init[k]);
                    assert(s2[i] == s1[i]);
                } else if has_hash(s1, header_hash(hs.last())) {
                    let i = choose|i: int| 0 <= i < s1.len() && (#[trigger] s1[i]).hash@ == header_hash(hs.last());
                    assert(s2[i] == s1[i]);
                } else {
                    let a = crate::hash::sha256d_of(crate::header::enc_header(hs.last()));
                    assert(a@ == header_hash(hs.last()));
                    assert(s2[s1.len() as int].hash@ == header_hash(hs.last()));
                }
            }
        }
    }
}

/// Once admitting a prefix of `hs` fails, admitting all of `hs` fails the same way.
pub proof fn lemma_append_all_err_stays(s: Seq<ChainNode>, tip: int, hs: Seq<BlockHeader>, n: int)
    requires
        0 <= n <= hs.len(),
        append_all(s, tip, hs.subrange(0, n)).2 is Err,
    ensures
        append_all(s, tip, hs) == append_all(s, tip, hs.subrange(0, n)),
    decreases hs.len(),
{
    if hs.len() > n {
        assert(hs.drop_last().subrange(0, n) =~= hs.subrange(0, n));
        lemma_append_all_err_stays(s, tip, hs.drop_last(), n);
    } else {
        assert(hs.subrange(0, n) =~= hs);
    }
}

/// Whether two digests are equal.
pub fn hash_eq(a: &HashType, b: &HashType) -> (r: bool)
    ensures
        r == (a == b),
{
    let mut i: usize = 0;
    while i < 32
        invariant
            i <= 32,
            forall|j: int| 0 <= j < i ==> a@[j] == b@[j],
        decreases 32 - i,
    {
        if a[i] != b[i] {
            return false;
        }
        i = i + 1;
    }
    assert(a =~= b);
    true
}

/// The header chain.
pub struct BlockChain {
    nodes: Vec<ChainNode>,
    tip: usize,
}

impl BlockChain {
    /// The nodes, in the order they were admitted; genesis first.
    pub closed spec fn nodes(&self) -> Seq<ChainNode> {
        self.nodes@
    }

    /// The index of the main tip.
    pub closed spec fn tip(&self) -> int {
        self.tip as int
    }

    pub open spec fn wf(&self) -> bool {
        &&& self.nodes().len() >= 1
        &&& 0 <= self.tip() < self.nodes().len()
        &&& chain_wf(self.nodes(), self.tip())
    }

    /// The header of the main chain at `height`, if the main chain is that long.
    pub open spec fn main_at(&self, height: int) -> int {
        ancestor_at(self.nodes(), self.tip(), height)
    }

    /// The locator of the chain: the main-chain hashes at `locator_heights`.
    pub open spec fn locator(&self) -> Seq<HashType> {
        let heights = locator_heights(self.tip_height() as nat);
        Seq::new(heights.len(), |k: int| self.nodes()[self.main_at(heights[k] as int)].hash)
    }

    /// The height of the main tip.
    pub open spec fn tip_height(&self) -> int {
        self.nodes()[self.tip()].height as int
    }

    /// A chain that holds `genesis` alone, if its proof of work holds.
    pub fn new(genesis: BlockHeader) -> (r: Result<BlockChain, ErrorBlock>)
        ensures
            r is Err <==> !meets_target(genesis),
            r matches Ok(c) ==> c.wf() && c.nodes().len() == 1 && c.nodes()[0].header == genesis
                && c.tip() == 0,
    {
        if !genesis.meets_target() {
            return Err(ErrorBlock::InsufficientProofOfWork);
        }
        let hash = genesis.get_hash256d();
        let work = work_of_bits(genesis.n_bits);
        let node = ChainNode { header: genesis, hash, parent: 0, height: 0, work };
        let mut nodes: Vec<ChainNode> = Vec::new();
        nodes.push(node);
        proof {
            reveal(chain_wf);
            assert(linked(nodes@, 0));
        }
        Ok(BlockChain { nodes, tip: 0 })
    }

    /// The index of the node whose hash is `hash`, if there is one.
    fn find(&self, hash: &HashType) -> (r: Option<usize>)
        ensures
            r matches Some(i) ==> i < self.nodes().len() && self.nodes()[i as int].hash == *hash,
            r is None ==> forall|i: int| 0 <= i < self.nodes().len() ==> (#[trigger] self.nodes()[i]).hash != *hash,
    {
        let mut i: usize = 0;
        while i < self.nodes.len()
            invariant
                i <= self.nodes@.len(),
                forall|j: int| 0 <= j < i ==> (#[trigger] self.nodes@[j]).hash != *hash,
            decreases self.nodes@.len() - i,
        {
            if hash_eq(&self.nodes[i].hash, hash) {
                return Some(i);
            }
            i = i + 1;
        }
        None
    }

    /// The main tip.
    pub fn tip_header(&self) -> (r: BlockHeader)
        requires
            self.wf(),
        ensures
            r == self.nodes()[self.tip()].header,
    {
        proof {
            lemma_wf_node(self.nodes@, self.tip as int, 0);
        }
        self.nodes[self.tip].header
    }

    /// The height of the main tip.
    pub fn height(&self) -> (r: usize)
        requires
            self.wf(),
        ensures
            r == self.tip_height(),
    {
        proof {
            lemma_wf_node(self.nodes@, self.tip as int, 0);
        }
        self.nodes[self.tip].height
    }

    /// The number of headers in the chain, on every branch.
    pub fn len(&self) -> (r: usize)
        ensures
            r == self.nodes().len(),
    {
        self.nodes.len()
    }

    /// The index of the main-chain node at `height`.
    fn main_index_at(&self, height: usize) -> (r: Option<usize>)
        requires
            self.wf(),
        ensures
            r matches Some(i) ==> i == self.main_at(height as int) && i < self.nodes().len(),
            r is None <==> self.main_at(height as int) == -1,
            r is Some <==> height <= self.tip_height(),
    {
        let ghost s = self.nodes@;
        proof {
            lemma_wf_node(s, self.tip as int, 0);
            if height <= self.tip_height() {
                lemma_ancestor_exists(s, self.tip as int, self.tip as int, height as int);
            }
        }
        let mut i: usize = self.tip;
        loop
            invariant
                self.wf(),
                s == self.nodes@,
                0 <= i < s.len(),
                ancestor_at(s, i as int, height as int) == ancestor_at(s, self.tip as int, height as int),
                height <= self.tip_height() ==> ancestor_at(s, self.tip as int, height as int) >= 0,
            decreases i,
        {
            proof {
                lemma_wf_node(s, self.tip as int, i as int);
            }
            let n = self.nodes[i];
            if n.height == height {
                assert(ancestor_at(s, i as int, height as int) == i);
                assert(height <= s[self.tip as int].height);
                return Some(i);
            }
            if height > n.height || i == 0 {
                assert(ancestor_at(s, i as int, height as int) == -1);
                return None;
            }
            i = n.parent;
        }
    }

    /// The header of the main chain at `height`; `None` above the tip.
    pub fn get_by_height(&self, height: usize) -> (r: Option<BlockHeader>)
        requires
            self.wf(),
        ensures
            r is Some <==> height <= self.tip_height(),
            r matches Some(h) ==> h == self.nodes()[self.main_at(height as int)].header,
    {
        match self.main_index_at(height) {
            Some(i) => Some(self.nodes[i].header),
            None => None,
        }
    }

    /// The header whose hash is `hash`, on any branch.
    pub fn get_by_hash(&self, hash: &HashType) -> (r: Option<BlockHeader>)
        requires
            self.wf(),
        ensures
            r is Some <==> has_hash(self.nodes(), hash@),
            r matches Some(h) ==> exists|i: int|
                0 <= i < self.nodes().len() && self.nodes()[i].hash == *hash && (#[trigger] self.nodes()[i]).header == h,
    {
        match self.find(hash) {
            Some(i) => {
                assert(self.nodes()[i as int].hash@ == hash@);
                Some(self.nodes[i].header)
            },
            None => {
                assert forall|i: int| 0 <= i < self.nodes().len() implies (#[trigger] self.nodes()[i]).hash@ != hash@ by {
                    if self.nodes()[i].hash@ == hash@ {
                        assert(self.nodes()[i].hash =~= *hash);
                    }
                }
                None
            },
        }
    }

    /// The hashes of the main chain at the heights of `locator_heights`: the
    /// tip, then back by 1, 2, 4, 8, ... and genesis last.
    pub fn locator_hashes(&self) -> (r: Vec<HashType>)
        requires
            self.wf(),
        ensures
            r@ == self.locator(),
            r@.len() == locator_heights(self.tip_height() as nat).len(),
            forall|k: int| 0 <= k < r@.len() ==> #[trigger] r@[k] == self.nodes()[self.main_at(
                locator_heights(self.tip_height() as nat)[k] as int,
            )].hash,
    {
        let th = self.height();
        let ghost full = locator_heights(th as nat);
        let ghost mut done: Seq<nat> = Seq::empty();
        let mut out: Vec<HashType> = Vec::new();
        let mut off: usize = 0;
        while off < th
            invariant
                self.wf(),
                th == self.tip_height(),
                off <= th,
                done + locator_from(th as nat, off as nat) == full,
                out@.len() == done.len(),
                forall|k: int| 0 <= k < out@.len() ==> #[trigger] out@[k] == self.nodes()[self.main_at(
                    done[k] as int,
                )].hash,
            decreases th - off,
        {
            let i = match self.main_index_at(th - off) {
                Some(i) => i,
                None => {
                    assert(false);
                    0
                },
            };
            out.push(self.nodes[i].hash);
            let next: usize = if off == 0 {
                1
            } else if off >= th - off {
                th
            } else {
                off * 2
            };
            proof {
                assert(locator_from(th as nat, off as nat) == seq![(th - off) as nat] + locator_from(
                    th as nat,
                    next as nat,
                ));
                done = done.push((th - off) as nat);
                assert(done + locator_from(th as nat, next as nat) =~= full);
            }
            off = next;
        }
        let g = match self.main_index_at(0) {
            Some(i) => i,
            None => {
                assert(false);
                0
            },
        };
        out.push(self.nodes[g].hash);
        proof {
            assert(locator_from(th as nat, off as nat) == seq![0nat]);
            done = done.push(0);
            assert(done =~= full);
            assert(out@ =~= self.locator());
        }
        out
    }

    /// Admits the headers `hs` in order, as `append_header` does each, and
    /// stops at the first that is refused; counts those admitted.
    pub fn append_headers(&mut self, hs: &Vec<BlockHeader>) -> (r: Result<u32, ErrorBlock>)
        requires
            old(self).wf(),
            hs@.len() <= u32::MAX,
        ensures
            final(self).wf(),
            ({
                let (s, t, m) = append_all(old(self).nodes(), old(self).tip(), hs@);
                &&& final(self).nodes() == s
                &&& final(self).tip() == t
                &&& match m {
                    Ok(c) => r == Ok::<u32, ErrorBlock>(c as u32),
                    Err(e) => r == Err::<u32, ErrorBlock>(e),
                }
            }),
    {
        let mut count: u32 = 0;
        let mut i: usize = 0;
        while i < hs.len()
            invariant
                self.wf(),
                i <= hs@.len() <= u32::MAX,
                count <= i,
                append_all(old(self).nodes(), old(self).tip(), hs@.subrange(0, i as int)) == (
                self.nodes(),
                self.tip(),
                Ok::<nat, ErrorBlock>(count as nat),
            ),
            decreases hs@.len() - i,
        {
            let ghost before = hs@.subrange(0, i as int);
            let ghost after = hs@.subrange(0, i + 1);
            assert(after.drop_last() =~= before);
            assert(after.last() == hs@[i as int]);
            match self.append_header(&hs[i]) {
                Ok(AppendOutcome::Admitted) => {
                    count = count + 1;
                },
                Ok(AppendOutcome::Duplicate) => {},
                Err(e) => {
                    proof {
                        lemma_append_all_err_stays(old(self).nodes(), old(self).tip(), hs@, i + 1);
                    }
                    return Err(e);
                },
            }
            i = i + 1;
        }
        assert(hs@.subrange(0, i as int) =~= hs@);
        Ok(count)
    }

    /// Whether `t` is above the median time of node `p` and its 10 nearest ancestors.
    fn after_median_time(&self, p: usize, t: u32) -> (r: bool)
        requires
            self.wf(),
            p < self.nodes().len(),
        ensures
            r == after_median_time(self.nodes(), p as int, t),
    {
        let ghost s = self.nodes@;
        let ghost full = ancestor_times(s, p as int, 11);
        let ghost mut rest = full;
        let mut cur: usize = p;
        let mut k: usize = 11;
        let mut below: usize = 0;
        let mut seen: usize = 0;
        let mut done = false;
        while !done
            invariant
                self.wf(),
                s == self.nodes@,
                cur < s.len(),
                k <= 11,
                !done ==> seen + k <= 11,
                seen <= 11,
                below <= seen,
                below + count_below(rest, t) == count_below(full, t),
                seen + rest.len() == full.len(),
                done ==> rest.len() == 0,
                !done ==> rest == ancestor_times(s, cur as int, k as nat),
            decreases k + if done {
                0nat
            } else {
                1nat
            },
        {
            if k == 0 {
                done = true;
                proof {
                    rest = Seq::empty();
                }
            } else {
                proof {
                    lemma_wf_node(s, self.tip as int, cur as int);
                }
                let n = self.nodes[cur];
                let ghost tail = rest.drop_first();
                assert(rest.len() > 0);
                assert(rest[0] == n.header.timestamp);
                assert(count_below(rest, t) == (if rest[0] < t {
                    1nat
                } else {
                    0nat
                }) + count_below(tail, t));
                if n.header.timestamp < t {
                    below = below + 1;
                }
                seen = seen + 1;
                proof {
                    rest = tail;
                }
                if cur == 0 {
                    done = true;
                    assert(rest.len() == 0);
                } else {
                    cur = n.parent;
                    k = k - 1;
                    assert(rest =~= ancestor_times(s, cur as int, k as nat));
                }
            }
        }
        below > seen / 2
    }

    /// Admits `h` if it is new, its `previous` is in the chain and its proof of
    /// work holds; the tip moves to it only on strictly greater cumulative work.
    #[verifier::rlimit(40)]
    pub fn append_header(&mut self, h: &BlockHeader) -> (r: Result<AppendOutcome, ErrorBlock>)
        requires
            old(self).wf(),
        ensures
            final(self).wf(),
            (final(self).nodes(), final(self).tip(), r) == append_model(
                old(self).nodes(),
                old(self).tip(),
                *h,
            ),
    {
        let ghost s = self.nodes@;
        let hash = h.get_hash256d();
        match self.find(&hash) {
            Some(i) => {
                assert(has_hash(s, header_hash(*h))) by {
                    assert(s[i as int].hash@ == header_hash(*h));
                }
                return Ok(AppendOutcome::Duplicate);
            },
            None => {},
        }
        assert forall|i: int| 0 <= i < s.len() implies (#[trigger] s[i]).hash@ != header_hash(*h) by {
            if s[i].hash@ == hash@ {
                assert(s[i].hash =~= hash);
            }
        }
        assert(!has_hash(s, header_hash(*h)));
        let p = match self.find(&h.previous) {
            Some(p) => p,
            None => {
                assert forall|i: int| 0 <= i < s.len() implies (#[trigger] s[i]).hash@ != h.previous@ by {
                    if s[i].hash@ == h.previous@ {
                        assert(s[i].hash =~= h.previous);
                    }
                }
                assert(!has_hash(s, h.previous@));
                return Err(ErrorBlock::UnknownPrevious);
            },
        };
        assert(has_hash(s, h.previous@)) by {
            assert(s[p as int].hash@ == h.previous@);
        }
        if !h.meets_target() {
            return Err(ErrorBlock::InsufficientProofOfWork);
        }
        let ghost cp = choose|i: int| 0 <= i < s.len() && (#[trigger] s[i]).hash@ == h.previous@;
        assert(s[cp].hash =~= s[p as int].hash);
        proof {
            lemma_wf_unique(s, old(self).tip as int, cp, p as int);
            lemma_wf_node(s, old(self).tip as int, p as int);
        }
        let len = self.nodes.len();
        assert(self.nodes@[p as int].height <= p && p < len);
        if !self.after_median_time(p, h.timestamp) {
            return Err(ErrorBlock::TimestampTooOld);
        }
        let w = work_of_bits(h.n_bits);
        let pw = self.nodes[p].work;
        if pw > u128::MAX - w {
            return Err(ErrorBlock::WorkOverflow);
        }
        let node = ChainNode {
            header: *h,
            hash,
            parent: p,
            height: self.nodes[p].height + 1,
            work: pw + w,
        };
        let ghost ch = choose|a: HashType| a@ == header_hash(*h);
        assert(ch =~= hash);
        let idx = self.nodes.len();
        proof {
            lemma_wf_node(s, old(self).tip as int, 0);
        }
        let tip_work = self.nodes[self.tip].work;
        self.nodes.push(node);
        if node.work > tip_work {
            self.tip = idx;
        }
        proof {
            lemma_push_keeps_wf(s, old(self).tip as int, node, self.tip as int);
        }
        Ok(AppendOutcome::Admitted)
    }
}

} // verus!
