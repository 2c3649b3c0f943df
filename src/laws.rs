//! What holds of every chain that the library builds.
use vstd::prelude::*;

use crate::chain::{append_model, has_hash, lemma_append_all_holds_all, lemma_wf_node, BlockChain};
use crate::error::ErrorNode;
use crate::header::header_hash;
use crate::ihd::admitted_from;
use crate::codec::le_value;
use crate::hash::sha256d_of;
use crate::header::{enc_header, target_of, BlockHeader};

verus! {

/// Every header of the chain meets its proof of work: the double SHA-256 of
/// its 80 bytes, read as a little-endian number, is at most the target that
/// its `n_bits` encode.
pub proof fn lemma_admitted_headers_meet_target(chain: BlockChain, i: int)
    requires
        chain.wf(),
        0 <= i < chain.nodes().len(),
    ensures
        le_value(sha256d_of(enc_header(chain.nodes()[i].header))@) <= target_of(
            chain.nodes()[i].header.n_bits,
        ),
{
    lemma_wf_node(chain.nodes(), chain.tip(), i);
}

/// The chain is connected: the `previous` of every header but genesis is the
/// hash of a header of the chain, admitted before it.
pub proof fn lemma_chain_connected(chain: BlockChain, i: int)
    requires
        chain.wf(),
        0 < i < chain.nodes().len(),
    ensures
        has_hash(chain.nodes(), chain.nodes()[i].header.previous@),
        exists|j: int| 0 <= j < i && (#[trigger] chain.nodes()[j]).hash == chain.nodes()[i].header.previous,
{
    lemma_wf_node(chain.nodes(), chain.tip(), i);
    let j = chain.nodes()[i].parent as int;
    assert(chain.nodes()[j].hash == chain.nodes()[i].header.previous);
}

/// The main tip has the greatest cumulative work of all the headers the chain
/// holds, on any branch: whatever a peer delivered and the chain admitted,
/// the tip's work is at least that of the peer's best header.
pub proof fn lemma_tip_has_most_work(chain: BlockChain, i: int)
    requires
        chain.wf(),
        0 <= i < chain.nodes().len(),
    ensures
        chain.nodes()[i].work <= chain.nodes()[chain.tip()].work,
{
    lemma_wf_node(chain.nodes(), chain.tip(), i);
}

/// The local tip is at least as heavy as any tip a peer delivered: once a
/// peer's headers are accepted (`get_headers` gave `Ok`), each of them is in
/// the chain and has no more cumulative work than the main tip. Over a round
/// of consistent peers this holds of every peer's best tip.
pub proof fn lemma_delivered_headers_not_heavier(
    before: BlockChain,
    after: BlockChain,
    hs: Seq<BlockHeader>,
    r: Result<u32, ErrorNode>,
)
    requires
        after.wf(),
        admitted_from(before, after, hs, r),
        r is Ok,
    ensures
        forall|k: int|
            0 <= k < hs.len() ==> exists|i: int|
                0 <= i < after.nodes().len() && (#[trigger] after.nodes()[i]).hash@ == header_hash(#[trigger] hs[k])
                    && after.nodes()[i].work <= after.nodes()[after.tip()].work,
{
    lemma_append_all_holds_all(before.nodes(), before.tip(), hs);
    assert forall|k: int| 0 <= k < hs.len() implies exists|i: int|
        0 <= i < after.nodes().len() && (#[trigger] after.nodes()[i]).hash@ == header_hash(#[trigger] hs[k])
            && after.nodes()[i].work <= after.nodes()[after.tip()].work by {
        assert(has_hash(after.nodes(), header_hash(hs[k])));
        let i = choose|i: int| 0 <= i < after.nodes().len() && (#[trigger] after.nodes()[i]).hash@ == header_hash(hs[k]);
        lemma_wf_node(after.nodes(), after.tip(), i);
    }
}

/// Admitting a header never removes one: the nodes before are a prefix of
/// the nodes after.
pub proof fn lemma_append_keeps_headers(chain: BlockChain, h: BlockHeader)
    requires
        chain.wf(),
    ensures
        ({
            let (s, t, r) = append_model(chain.nodes(), chain.tip(), h);
            &&& s.len() >= chain.nodes().len()
            &&& s.subrange(0, chain.nodes().len() as int) == chain.nodes()
        }),
{
    let (s, t, r) = append_model(chain.nodes(), chain.tip(), h);
    assert(s.subrange(0, chain.nodes().len() as int) =~= chain.nodes());
}

} // verus!
