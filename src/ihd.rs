//! Initial header download: the request that asks a peer for headers, what is
//! done with its answer, and when a peer or the whole download is done.
use vstd::prelude::*;

use crate::chain::{append_all, lemma_append_all_grows, BlockChain};
use crate::error::{ErrorMessage, ErrorNode};
use crate::frame::{command_bytes, deserialize_until_found, enc_frame, frame_search, write_frame, CommandName, MAX_PAYLOAD, MAX_SKIPPED_FRAMES};
use crate::header::BlockHeader;
use crate::hash::{is_zero_hash, zero_hash};
use crate::headers::{enc_get_headers_payload, enc_headers_payload, read_headers_payload, write_get_headers_payload, MAX_HEADERS};

verus! {

/// Asks peers for headers and feeds their answers to the chain.
#[derive(Debug, Clone, Copy)]
pub struct InitialHeaderDownload {
    pub protocol_version: i32,
    pub magic_number: u32,
}

/// The `getheaders` payload that asks for the headers after `chain`'s locator.
pub open spec fn get_headers_request(version: i32, chain: BlockChain) -> Seq<u8> {
    let stop = choose|z: crate::hash::HashType| is_zero_hash(z);
    enc_get_headers_payload(version, chain.locator(), stop)
}

/// Admitting `hs` to `before`, as `append_headers` does, gives `after` and the
/// result `r`: a count of those admitted, or the chain's refusal.
pub open spec fn admitted_from(
    before: BlockChain,
    after: BlockChain,
    hs: Seq<crate::header::BlockHeader>,
    r: Result<u32, ErrorNode>,
) -> bool {
    let (s, t, m) = append_all(before.nodes(), before.tip(), hs);
    &&& after.nodes() == s
    &&& after.tip() == t
    &&& match m {
        Ok(c) => r == Ok::<u32, ErrorNode>(c as u32),
        Err(e) => r == Err::<u32, ErrorNode>(ErrorNode::WhileValidating(e)),
    }
}

/// The headers of the reply in `received`: the payload of the first
/// `headers` frame that the frame search finds, decoded; `None` when the
/// search finds none or the payload is no `headers` payload.
pub open spec fn headers_reply(received: Seq<u8>, magic: u32) -> Option<Seq<BlockHeader>> {
    match frame_search(received, 0, magic, command_bytes(CommandName::Headers), MAX_SKIPPED_FRAMES as nat) {
        Err(_) => None,
        Ok((payload, _)) => if exists|hs: Seq<BlockHeader>| enc_headers_payload(hs) == payload && hs.len() <= MAX_HEADERS {
            Some(choose|hs: Seq<BlockHeader>| enc_headers_payload(hs) == payload && hs.len() <= MAX_HEADERS)
        } else {
            None
        },
    }
}

impl InitialHeaderDownload {
    pub fn new(protocol_version: i32, magic_number: u32) -> (r: InitialHeaderDownload)
        ensures
            r.protocol_version == protocol_version,
            r.magic_number == magic_number,
    {
        InitialHeaderDownload { protocol_version, magic_number }
    }

    /// The frame of the `getheaders` message for `block_chain`: its locator and
    /// no stop hash.
    pub fn send_get_headers_message(&self, block_chain: &BlockChain) -> (r: Result<Vec<u8>, ErrorNode>)
        requires
            block_chain.wf(),
        ensures
            r is Err <==> get_headers_request(self.protocol_version, *block_chain).len() > MAX_PAYLOAD,
            r matches Ok(bytes) ==> bytes@ == enc_frame(
                self.magic_number,
                command_bytes(CommandName::GetHeaders),
                get_headers_request(self.protocol_version, *block_chain),
            ),
    {
        let locator = block_chain.locator_hashes();
        let stop = zero_hash();
        let mut payload: Vec<u8> = Vec::new();
        write_get_headers_payload(self.protocol_version, &locator, &stop, &mut payload);
        let ghost z = choose|z: crate::hash::HashType| is_zero_hash(z);
        assert(z =~= stop);
        if payload.len() > MAX_PAYLOAD as usize {
            return Err(ErrorNode::WhileSerializing(ErrorMessage::OversizedMessage));
        }
        let mut out: Vec<u8> = Vec::new();
        write_frame(self.magic_number, CommandName::GetHeaders, &payload, &mut out);
        assert(out@ =~= enc_frame(
            self.magic_number,
            command_bytes(CommandName::GetHeaders),
            payload@,
        ));
        Ok(out)
    }

    /// Takes the bytes that a peer sent after the request, finds its `headers`
    /// message among them and admits its headers to `block_chain`; returns how
    /// many were admitted.
    pub fn get_headers(&self, received: &Vec<u8>, block_chain: &mut BlockChain) -> (r: Result<u32, ErrorNode>)
        requires
            old(block_chain).wf(),
        ensures
            final(block_chain).wf(),
            r matches Err(ErrorNode::NodeNotResponding(_)) <==> headers_reply(received@, self.magic_number) is None,
            r matches Err(ErrorNode::NodeNotResponding(_)) ==> *final(block_chain) == *old(block_chain),
            frame_search(received@, 0, self.magic_number, command_bytes(CommandName::Headers), MAX_SKIPPED_FRAMES as nat) matches Err(e)
                ==> r == Err::<u32, ErrorNode>(ErrorNode::NodeNotResponding(e)),
            headers_reply(received@, self.magic_number) matches Some(hs) ==> hs.len() <= MAX_HEADERS
                && admitted_from(*old(block_chain), *final(block_chain), hs, r),
            r matches Ok(n) ==> n <= MAX_HEADERS && final(block_chain).nodes().len() == old(block_chain).nodes().len() + n,
            final(block_chain).nodes().len() >= old(block_chain).nodes().len(),
            final(block_chain).nodes().subrange(0, old(block_chain).nodes().len() as int) == old(block_chain).nodes(),
            !(r matches Err(ErrorNode::WhileSerializing(_))),
    {
        let ghost cb = command_bytes(CommandName::Headers);
        let (payload, _next) = match deserialize_until_found(
            received,
            0,
            self.magic_number,
            CommandName::Headers,
        ) {
            Ok(x) => x,
            Err(e) => {
                assert(old(block_chain).nodes().subrange(0, old(block_chain).nodes().len() as int) =~= old(block_chain).nodes());
                return Err(ErrorNode::NodeNotResponding(e));
            },
        };
        let headers = match read_headers_payload(&payload) {
            Ok(v) => v,
            Err(e) => {
                assert(!exists|hs: Seq<BlockHeader>| enc_headers_payload(hs) == payload@ && hs.len() <= MAX_HEADERS);
                assert(old(block_chain).nodes().subrange(0, old(block_chain).nodes().len() as int) =~= old(block_chain).nodes());
                return Err(ErrorNode::NodeNotResponding(e));
            },
        };
        let ghost hv = headers@;
        proof {
            assert(enc_headers_payload(hv) == payload@ && hv.len() <= MAX_HEADERS);
            let c = choose|hs: Seq<BlockHeader>| enc_headers_payload(hs) == payload@ && hs.len() <= MAX_HEADERS;
            assert(c == hv);
            assert(headers_reply(received@, self.magic_number) == Some(hv));
            lemma_append_all_grows(old(block_chain).nodes(), old(block_chain).tip(), hv);
        }
        match block_chain.append_headers(&headers) {
            Ok(count) => {
                let r: Result<u32, ErrorNode> = Ok(count);
                assert(admitted_from(*old(block_chain), *block_chain, hv, r));
                r
            },
            Err(e) => {
                let r: Result<u32, ErrorNode> = Err(ErrorNode::WhileValidating(e));
                assert(admitted_from(*old(block_chain), *block_chain, hv, r));
                r
            },
        }
    }
}

/// Where the download stands with one peer.
#[derive(Debug, Clone, Copy, PartialEq, Eq, Structural)]
pub enum PeerState {
    /// Still asked for headers; `last_short` is its last answer below a full
    /// message, if its last answer was one.
    Live { last_short: Option<u32> },
    /// Caught up: two short answers in a row, the second no longer than the first.
    Synced,
    /// Failed and taken out of the rotation.
    Closed,
}

/// Where the whole download stands.
#[derive(Debug, Clone, Copy, PartialEq, Eq, Structural)]
pub enum IhdStatus {
    InProgress,
    Complete,
    StalledNoPeers,
}

/// What a peer's answer makes of its state.
pub open spec fn next_peer_state(old: PeerState, answer: Result<u32, ErrorNode>) -> PeerState {
    match answer {
        Err(_) => PeerState::Closed,
        Ok(n) => if n >= MAX_HEADERS {
            PeerState::Live { last_short: None }
        } else {
            match old {
                PeerState::Live { last_short: Some(m) } => if n <= m {
                    PeerState::Synced
                } else {
                    PeerState::Live { last_short: Some(n) }
                },
                _ => PeerState::Live { last_short: Some(n) },
            }
        },
    }
}

pub open spec fn is_live(p: PeerState) -> bool {
    p is Live
}

/// The download goes on while a peer is live; with none, it stalled if every
/// peer failed before the tip advanced, and is complete otherwise.
pub open spec fn status_of(peers: Seq<PeerState>, tip_advanced: bool) -> IhdStatus {
    if exists|i: int| 0 <= i < peers.len() && is_live(#[trigger] peers[i]) {
        IhdStatus::InProgress
    } else if !tip_advanced && forall|i: int| 0 <= i < peers.len() ==> #[trigger] peers[i] == PeerState::Closed {
        IhdStatus::StalledNoPeers
    } else {
        IhdStatus::Complete
    }
}

/// The download's progress over a set of peers.
pub struct IhdProgress {
    pub peers: Vec<PeerState>,
    pub tip_advanced: bool,
}

impl IhdProgress {
    /// Every one of `n` peers live, nothing admitted yet.
    pub fn new(n: usize) -> (r: IhdProgress)
        ensures
            r.peers@ == Seq::new(n as nat, |i: int| PeerState::Live { last_short: None }),
            !r.tip_advanced,
    {
        let mut peers: Vec<PeerState> = Vec::new();
        let mut i: usize = 0;
        while i < n
            invariant
                i <= n,
                peers@ == Seq::new(i as nat, |j: int| PeerState::Live { last_short: None }),
            decreases n - i,
        {
            peers.push(PeerState::Live { last_short: None });
            i = i + 1;
            assert(peers@ =~= Seq::new(i as nat, |j: int| PeerState::Live { last_short: None }));
        }
        IhdProgress { peers, tip_advanced: false }
    }

    /// Records the answer of peer `peer` (the count that `get_headers` gave, or its error).
    pub fn record(&mut self, peer: usize, answer: Result<u32, ErrorNode>)
        requires
            peer < old(self).peers@.len(),
        ensures
            final(self).peers@ == old(self).peers@.update(
                peer as int,
                next_peer_state(old(self).peers@[peer as int], answer),
            ),
            final(self).tip_advanced == (old(self).tip_advanced || (answer matches Ok(n) && n > 0)),
    {
        let old_state = self.peers[peer];
        let next = match answer {
            Err(_) => PeerState::Closed,
            Ok(n) => if n >= MAX_HEADERS as u32 {
                PeerState::Live { last_short: None }
            } else {
                match old_state {
                    PeerState::Live { last_short: Some(m) } => if n <= m {
                        PeerState::Synced
                    } else {
                        PeerState::Live { last_short: Some(n) }
                    },
                    _ => PeerState::Live { last_short: Some(n) },
                }
            },
        };
        self.peers.set(peer, next);
        match answer {
            Ok(n) => {
                if n > 0 {
                    self.tip_advanced = true;
                }
            },
            Err(_) => {},
        }
    }

    /// The first live peer, which is the next to ask.
    pub fn next_peer(&self) -> (r: Option<usize>)
        ensures
            r matches Some(i) ==> i < self.peers@.len() && is_live(self.peers@[i as int]) && forall|j: int|
                0 <= j < i ==> !is_live(#[trigger] self.peers@[j]),
            r is None ==> forall|j: int| 0 <= j < self.peers@.len() ==> !is_live(#[trigger] self.peers@[j]),
    {
        let mut i: usize = 0;
        while i < self.peers.len()
            invariant
                i <= self.peers@.len(),
                forall|j: int| 0 <= j < i ==> !is_live(#[trigger] self.peers@[j]),
            decreases self.peers@.len() - i,
        {
            match self.peers[i] {
                PeerState::Live { .. } => {
                    return Some(i);
                },
                _ => {},
            }
            i = i + 1;
        }
        None
    }

    /// Where the download stands.
    pub fn status(&self) -> (r: IhdStatus)
        ensures
            r == status_of(self.peers@, self.tip_advanced),
    {
        match self.next_peer() {
            Some(i) => {
                assert(is_live(self.peers@[i as int]));
                return IhdStatus::InProgress;
            },
            None => {},
        }
        let mut all_closed = true;
        let mut i: usize = 0;
        while i < self.peers.len()
            invariant
                i <= self.peers@.len(),
                all_closed == forall|j: int| 0 <= j < i ==> #[trigger] self.peers@[j] == PeerState::Closed,
            decreases self.peers@.len() - i,
        {
            if self.peers[i] != PeerState::Closed {
                all_closed = false;
            }
            i = i + 1;
        }
        if all_closed && !self.tip_advanced {
            IhdStatus::StalledNoPeers
        } else {
            IhdStatus::Complete
        }
    }
}

} // verus!
