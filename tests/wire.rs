use cargosos_bitcoin::chain::BlockChain;
use cargosos_bitcoin::codec::write_u32;
use cargosos_bitcoin::error::{ErrorMessage, ErrorNode};
use cargosos_bitcoin::frame::{
    deserialize_until_found, read_frame, write_frame, CommandName, MAGIC_MAINNET, MAGIC_REGTEST,
    MAGIC_TESTNET,
};
use cargosos_bitcoin::header::BlockHeader;
use cargosos_bitcoin::headers::{read_headers_payload, write_get_headers_payload, write_headers_payload};
use cargosos_bitcoin::ihd::{InitialHeaderDownload, IhdProgress, IhdStatus, PeerState};
use cargosos_bitcoin::version::{pong_for, read_version, write_version, NetAddr, VersionMessage};
use cargosos_bitcoin::handshake::{handshake_next, HandshakeAction, HandshakeEvent, HandshakeState};

fn mine(previous: [u8; 32], timestamp: u32) -> BlockHeader {
    let mut h = BlockHeader {
        version: 1,
        previous,
        merkle_root: [3; 32],
        timestamp,
        n_bits: 0x207f_ffff,
        nonce: 0,
    };
    while !h.meets_target() {
        h.nonce += 1;
    }
    h
}

fn chain_after(from: &BlockHeader, n: usize) -> Vec<BlockHeader> {
    let mut out = Vec::new();
    let mut prev = *from;
    for i in 0..n {
        let h = mine(prev.get_hash256d(), from.timestamp + 1 + i as u32);
        out.push(h);
        prev = h;
    }
    out
}

fn frame(magic: u32, command: CommandName, payload: &Vec<u8>) -> Vec<u8> {
    let mut out = Vec::new();
    write_frame(magic, command, payload, &mut out);
    out
}

#[test]
fn frame_layout() {
    let out = frame(MAGIC_MAINNET, CommandName::VerAck, &Vec::new());
    assert_eq!(out.len(), 24);
    assert_eq!(&out[0..4], &[0xF9, 0xBE, 0xB4, 0xD9]);
    assert_eq!(&out[4..16], b"verack\0\0\0\0\0\0");
    assert_eq!(&out[16..20], &[0, 0, 0, 0]);
    assert_eq!(&out[20..24], &[0x5d, 0xf6, 0xe0, 0xe2]);
}

#[test]
fn frame_round_trip() {
    let payload = vec![1u8, 2, 3, 4, 5];
    let out = frame(MAGIC_TESTNET, CommandName::Ping, &payload);
    let (f, next) = read_frame(&out, 0, MAGIC_TESTNET).unwrap();
    assert_eq!(next, out.len());
    assert_eq!(f.payload, payload);
    assert_eq!(&f.command, b"ping\0\0\0\0\0\0\0\0");
    assert_eq!(CommandName::from_bytes(&f.command), Some(CommandName::Ping));
}

#[test]
fn frame_wrong_magic() {
    let out = frame(MAGIC_TESTNET, CommandName::Ping, &vec![0; 8]);
    assert!(matches!(read_frame(&out, 0, MAGIC_REGTEST), Err(ErrorMessage::WrongMagic)));
}

#[test]
fn frame_corrupt_payload() {
    let mut out = frame(MAGIC_REGTEST, CommandName::Ping, &vec![0; 8]);
    out[30] ^= 1;
    assert!(matches!(read_frame(&out, 0, MAGIC_REGTEST), Err(ErrorMessage::CorruptPayload)));
}

#[test]
fn frame_oversized() {
    let mut out = frame(MAGIC_REGTEST, CommandName::Ping, &vec![0; 8]);
    out[16..20].copy_from_slice(&[0x01, 0x00, 0x00, 0x02]);
    assert!(matches!(read_frame(&out, 0, MAGIC_REGTEST), Err(ErrorMessage::OversizedMessage)));
}

#[test]
fn frame_truncated() {
    let out = frame(MAGIC_REGTEST, CommandName::Ping, &vec![0; 8]);
    assert!(matches!(
        read_frame(&out[..30].to_vec(), 0, MAGIC_REGTEST),
        Err(ErrorMessage::ErrorInDeserialization)
    ));
}

#[test]
fn unknown_command_name() {
    assert_eq!(CommandName::from_bytes(b"alert\0\0\0\0\0\0\0"), None);
    assert_eq!(CommandName::Headers.to_bytes(), *b"headers\0\0\0\0\0");
}

#[test]
fn until_found_skips_other_frames() {
    let mut bytes = frame(MAGIC_REGTEST, CommandName::Ping, &vec![1; 8]);
    bytes.extend(frame(MAGIC_REGTEST, CommandName::Inv, &vec![0]));
    bytes.extend(frame(MAGIC_REGTEST, CommandName::Headers, &vec![0]));
    let (payload, next) =
        deserialize_until_found(&bytes, 0, MAGIC_REGTEST, CommandName::Headers).unwrap();
    assert_eq!(payload, vec![0]);
    assert_eq!(next, bytes.len());
}

#[test]
fn until_found_gives_up() {
    let mut bytes = Vec::new();
    for _ in 0..100 {
        bytes.extend(frame(MAGIC_REGTEST, CommandName::Ping, &vec![1; 8]));
    }
    bytes.extend(frame(MAGIC_REGTEST, CommandName::Headers, &vec![0]));
    assert!(matches!(
        deserialize_until_found(&bytes, 0, MAGIC_REGTEST, CommandName::Headers),
        Err(ErrorMessage::NodeNotResponding)
    ));
}

#[test]
fn headers_payload_round_trip() {
    let g = mine([0; 32], 100);
    let hs = chain_after(&g, 3);
    let mut out = Vec::new();
    write_headers_payload(&hs, &mut out);
    assert_eq!(out.len(), 1 + 81 * 3);
    assert_eq!(out[81], 0);
    assert_eq!(read_headers_payload(&out), Ok(hs));
}

#[test]
fn headers_payload_with_transactions_is_refused() {
    let g = mine([0; 32], 100);
    let mut out = Vec::new();
    write_headers_payload(&vec![g], &mut out);
    out[81] = 1;
    assert!(read_headers_payload(&out).is_err());
}

#[test]
fn headers_payload_over_limit_is_refused() {
    let mut out = Vec::new();
    out.push(0xFD);
    write_u32(2001, &mut out);
    out.truncate(3);
    assert!(read_headers_payload(&out).is_err());
}

#[test]
fn get_headers_against_genesis() {
    let g = mine([0; 32], 1_000);
    let mut chain = BlockChain::new(g).unwrap();
    let ihd = InitialHeaderDownload::new(70015, MAGIC_REGTEST);
    let request = ihd.send_get_headers_message(&chain).unwrap();
    let mut expected_payload = Vec::new();
    write_get_headers_payload(70015, &vec![g.get_hash256d()], &[0; 32], &mut expected_payload);
    assert_eq!(request, frame(MAGIC_REGTEST, CommandName::GetHeaders, &expected_payload));
    assert_eq!(expected_payload.len(), 4 + 1 + 32 + 32);

    let hs = chain_after(&g, 2000);
    let mut payload = Vec::new();
    write_headers_payload(&hs, &mut payload);
    let mut answer = frame(MAGIC_REGTEST, CommandName::Ping, &vec![5; 8]);
    answer.extend(frame(MAGIC_REGTEST, CommandName::Headers, &payload));
    assert_eq!(ihd.get_headers(&answer, &mut chain), Ok(2000));
    assert_eq!(chain.height(), 2000);
    assert_eq!(chain.locator_hashes()[0], hs[1999].get_hash256d());
}

#[test]
fn get_headers_without_answer() {
    let g = mine([0; 32], 1_000);
    let mut chain = BlockChain::new(g).unwrap();
    let ihd = InitialHeaderDownload::new(70015, MAGIC_REGTEST);
    assert!(matches!(
        ihd.get_headers(&Vec::new(), &mut chain),
        Err(ErrorNode::NodeNotResponding(_))
    ));
    assert_eq!(chain.len(), 1);
}

#[test]
fn get_headers_refused_by_chain() {
    let g = mine([0; 32], 1_000);
    let mut chain = BlockChain::new(g).unwrap();
    let ihd = InitialHeaderDownload::new(70015, MAGIC_REGTEST);
    let orphan = mine([8; 32], 5);
    let mut payload = Vec::new();
    write_headers_payload(&vec![orphan], &mut payload);
    let answer = frame(MAGIC_REGTEST, CommandName::Headers, &payload);
    assert!(matches!(
        ihd.get_headers(&answer, &mut chain),
        Err(ErrorNode::WhileValidating(_))
    ));
}

fn sample_version(version: i32) -> VersionMessage {
    let addr = NetAddr { services: 1, ip: [0; 16], port: 18444 };
    VersionMessage {
        version,
        services: 1,
        timestamp: 1_700_000_000,
        addr_recv: addr,
        addr_from: addr,
        nonce: 0xDEAD_BEEF,
        user_agent: b"/cargosos:0.1/".to_vec(),
        start_height: 0,
        relay: true,
    }
}

#[test]
fn version_framing_round_trip() {
    let m = sample_version(70015);
    let mut payload = Vec::new();
    write_version(&m, &mut payload);
    assert_eq!(payload.len(), 4 + 8 + 8 + 26 + 26 + 8 + 15 + 4 + 1);
    let bytes = frame(MAGIC_REGTEST, CommandName::Version, &payload);
    let (f, _) = read_frame(&bytes, 0, MAGIC_REGTEST).unwrap();
    let back = read_version(&f.payload).unwrap();
    let mut again = Vec::new();
    write_version(&back, &mut again);
    assert_eq!(again, payload);
    assert_eq!(frame(MAGIC_REGTEST, CommandName::Version, &again), bytes);
    assert_eq!(back.version, 70015);
    assert_eq!(back.services, 1);
    assert_eq!(back.timestamp, 1_700_000_000);
    assert_eq!(back.nonce, 0xDEAD_BEEF);
    assert_eq!(back.user_agent, b"/cargosos:0.1/".to_vec());
    assert_eq!(back.start_height, 0);
    assert!(back.relay);
    assert_eq!(back.addr_recv, m.addr_recv);
}

#[test]
fn version_without_relay_flag() {
    let m = sample_version(60002);
    let mut payload = Vec::new();
    write_version(&m, &mut payload);
    assert_eq!(payload.len(), 4 + 8 + 8 + 26 + 26 + 8 + 15 + 4);
    let back = read_version(&payload).unwrap();
    assert!(!back.relay);
    assert_eq!(&payload[44..46], &[0x48, 0x0c]);
}

#[test]
fn version_new_keeps_fields() {
    let addr = NetAddr { services: 0, ip: [1; 16], port: 8333 };
    let m = VersionMessage::new(70015, 1, addr, addr, 7, b"/x/".to_vec(), 5, false);
    assert_eq!(m.version, 70015);
    assert_eq!(m.start_height, 5);
    assert!(m.timestamp > 1_600_000_000);
}

#[test]
fn pong_echoes_nonce() {
    let ping = vec![1, 2, 3, 4, 5, 6, 7, 8];
    assert_eq!(pong_for(&ping), Ok(ping.clone()));
    assert!(pong_for(&vec![1, 2]).is_err());
}

#[test]
fn handshake_version_then_verack() {
    let mock_version = 70012;
    let (s, a) = handshake_next(
        70015,
        HandshakeState::Handshaking,
        HandshakeEvent::Version { remote_version: mock_version },
    )
    .unwrap();
    assert_eq!(a, HandshakeAction::SendVerAck);
    let (s, a) = handshake_next(70015, s, HandshakeEvent::VerAck).unwrap();
    assert_eq!(a, HandshakeAction::Nothing);
    assert_eq!(s, HandshakeState::Ready { negotiated_version: 70012 });
}

#[test]
fn handshake_verack_then_version() {
    let (s, _) = handshake_next(70015, HandshakeState::Handshaking, HandshakeEvent::VerAck).unwrap();
    let (s, a) =
        handshake_next(70015, s, HandshakeEvent::Version { remote_version: 80000 }).unwrap();
    assert_eq!(a, HandshakeAction::SendVerAck);
    assert_eq!(s, HandshakeState::Ready { negotiated_version: 70015 });
}

#[test]
fn handshake_protocol_violation() {
    assert_eq!(
        handshake_next(70015, HandshakeState::Handshaking, HandshakeEvent::Other),
        Err(ErrorMessage::ProtocolViolation)
    );
    let (s, _) = handshake_next(70015, HandshakeState::Handshaking, HandshakeEvent::VerAck).unwrap();
    assert_eq!(
        handshake_next(70015, s, HandshakeEvent::VerAck),
        Err(ErrorMessage::ProtocolViolation)
    );
}

#[test]
fn peer_timeout_during_download() {
    let mut progress = IhdProgress::new(2);
    assert_eq!(progress.next_peer(), Some(0));
    progress.record(0, Ok(2000));
    progress.record(0, Err(ErrorNode::NodeNotResponding(ErrorMessage::NodeNotResponding)));
    assert_eq!(progress.peers[0], PeerState::Closed);
    assert_eq!(progress.next_peer(), Some(1));
    assert_eq!(progress.status(), IhdStatus::InProgress);
    progress.record(1, Ok(2000));
    progress.record(1, Ok(120));
    assert_eq!(progress.status(), IhdStatus::InProgress);
    progress.record(1, Ok(0));
    assert_eq!(progress.peers[1], PeerState::Synced);
    assert_eq!(progress.next_peer(), None);
    assert_eq!(progress.status(), IhdStatus::Complete);
    assert_ne!(progress.status(), IhdStatus::StalledNoPeers);
}

#[test]
fn all_peers_fail_before_any_header() {
    let mut progress = IhdProgress::new(2);
    progress.record(0, Err(ErrorNode::NodeNotResponding(ErrorMessage::WrongMagic)));
    progress.record(1, Err(ErrorNode::NodeNotResponding(ErrorMessage::CorruptPayload)));
    assert_eq!(progress.status(), IhdStatus::StalledNoPeers);
}

#[test]
fn short_answer_that_grows_keeps_peer_live() {
    let mut progress = IhdProgress::new(1);
    progress.record(0, Ok(10));
    progress.record(0, Ok(20));
    assert_eq!(progress.peers[0], PeerState::Live { last_short: Some(20) });
}

#[test]
fn get_headers_after_other_frames_fork_switch() {
    let g = mine([0; 32], 1_000);
    let mut chain = BlockChain::new(g).unwrap();
    let a = chain_after(&g, 6);
    chain.append_headers(&a).unwrap();
    let mut b = Vec::new();
    let mut prev = a[2];
    for i in 0..5 {
        let h = mine(prev.get_hash256d(), a[2].timestamp + 100 + i);
        b.push(h);
        prev = h;
    }
    let mut payload = Vec::new();
    write_headers_payload(&b, &mut payload);
    let ihd = InitialHeaderDownload::new(70015, MAGIC_REGTEST);
    let mut answer = frame(MAGIC_REGTEST, CommandName::Inv, &vec![0]);
    answer.extend(frame(MAGIC_REGTEST, CommandName::Ping, &vec![1; 8]));
    answer.extend(frame(MAGIC_REGTEST, CommandName::Headers, &payload));
    let before = chain.len();
    assert_eq!(ihd.get_headers(&answer, &mut chain), Ok(5));
    assert_eq!(chain.len(), before + 5);
    assert_eq!(chain.tip_header(), b[4]);
    assert_eq!(chain.get_by_height(5), Some(b[1]));
    assert_eq!(chain.get_by_hash(&a[5].get_hash256d()), Some(a[5]));
}

#[test]
fn get_headers_undecodable_payload() {
    let g = mine([0; 32], 1_000);
    let mut chain = BlockChain::new(g).unwrap();
    let ihd = InitialHeaderDownload::new(70015, MAGIC_REGTEST);
    let answer = frame(MAGIC_REGTEST, CommandName::Headers, &vec![1, 2, 3]);
    assert!(matches!(
        ihd.get_headers(&answer, &mut chain),
        Err(ErrorNode::NodeNotResponding(_))
    ));
    assert_eq!(chain.len(), 1);
}
