use cargosos_bitcoin::chain::{AppendOutcome, BlockChain};
use cargosos_bitcoin::error::ErrorBlock;
use cargosos_bitcoin::header::{target_bytes, BlockHeader};

const REGTEST_BITS: u32 = 0x207f_ffff;

fn mainnet_genesis() -> BlockHeader {
    let merkle_display = [
        0x4a, 0x5e, 0x1e, 0x4b, 0xaa, 0xb8, 0x9f, 0x3a, 0x32, 0x51, 0x8a, 0x88, 0xc3, 0x1b, 0xc8,
        0x7f, 0x61, 0x8f, 0x76, 0x67, 0x3e, 0x2c, 0xc7, 0x7a, 0xb2, 0x12, 0x7b, 0x7a, 0xfd, 0xed,
        0xa3, 0x3b,
    ];
    let mut merkle_root = merkle_display;
    merkle_root.reverse();
    BlockHeader {
        version: 1,
        previous: [0; 32],
        merkle_root,
        timestamp: 1_231_006_505,
        n_bits: 0x1d00_ffff,
        nonce: 2_083_236_893,
    }
}

fn mine(previous: [u8; 32], timestamp: u32, tag: u8) -> BlockHeader {
    let mut h = BlockHeader {
        version: 1,
        previous,
        merkle_root: [tag; 32],
        timestamp,
        n_bits: REGTEST_BITS,
        nonce: 0,
    };
    while !h.meets_target() {
        h.nonce += 1;
    }
    h
}

fn regtest_genesis() -> BlockHeader {
    mine([0; 32], 1_296_688_602, 0)
}

/// A chain of `n` headers after `from`, each on the one before.
fn extend(from: &BlockHeader, n: usize, tag: u8) -> Vec<BlockHeader> {
    let mut out = Vec::new();
    let mut prev = *from;
    for i in 0..n {
        let h = mine(prev.get_hash256d(), from.timestamp + 600 * (i as u32 + 1), tag);
        out.push(h);
        prev = h;
    }
    out
}

#[test]
fn mainnet_genesis_hash_and_proof_of_work() {
    let g = mainnet_genesis();
    let mut expected = [
        0x00, 0x00, 0x00, 0x00, 0x00, 0x19, 0xd6, 0x68, 0x9c, 0x08, 0x5a, 0xe1, 0x65, 0x83, 0x1e,
        0x93, 0x4f, 0xf7, 0x63, 0xae, 0x46, 0xa2, 0xa6, 0xc1, 0x72, 0xb3, 0xf1, 0xb6, 0x0a, 0x8c,
        0xe2, 0x6f,
    ];
    expected.reverse();
    assert_eq!(g.get_hash256d(), expected);
    assert!(g.meets_target());
}

#[test]
fn header_round_trip() {
    let g = mainnet_genesis();
    let mut out = Vec::new();
    g.write(&mut out);
    assert_eq!(out.len(), 80);
    assert_eq!(&out[0..4], &[1, 0, 0, 0]);
    assert_eq!(BlockHeader::read(&out, 0), Ok((g, 80)));
}

#[test]
fn compact_target_expands() {
    let t = target_bytes(0x1d00_ffff);
    let mut expected = [0u8; 32];
    expected[26] = 0xff;
    expected[27] = 0xff;
    assert_eq!(t, expected);
    let t = target_bytes(0x0300_1234);
    let mut expected = [0u8; 32];
    expected[0] = 0x34;
    expected[1] = 0x12;
    assert_eq!(t, expected);
}

#[test]
fn header_above_target_is_refused() {
    let mut g = mainnet_genesis();
    let mut chain = BlockChain::new(g).unwrap();
    g.previous = g.get_hash256d();
    g.nonce = 1;
    assert!(!g.meets_target());
    assert_eq!(chain.append_header(&g), Err(ErrorBlock::InsufficientProofOfWork));
    assert_eq!(chain.len(), 1);
}

#[test]
fn genesis_must_meet_target() {
    let mut g = mainnet_genesis();
    g.nonce = 7;
    assert!(BlockChain::new(g).is_err());
}

#[test]
fn unknown_previous_and_duplicate() {
    let g = regtest_genesis();
    let mut chain = BlockChain::new(g).unwrap();
    let orphan = mine([7; 32], 1_296_688_700, 1);
    assert_eq!(chain.append_header(&orphan), Err(ErrorBlock::UnknownPrevious));
    let next = extend(&g, 1, 2)[0];
    assert_eq!(chain.append_header(&next), Ok(AppendOutcome::Admitted));
    assert_eq!(chain.append_header(&next), Ok(AppendOutcome::Duplicate));
    assert_eq!(chain.append_header(&g), Ok(AppendOutcome::Duplicate));
    assert_eq!(chain.len(), 2);
    assert_eq!(chain.height(), 1);
    assert_eq!(chain.tip_header(), next);
}

#[test]
fn append_headers_counts_admitted_and_stops_at_refusal() {
    let g = regtest_genesis();
    let mut chain = BlockChain::new(g).unwrap();
    let mut hs = extend(&g, 3, 3);
    hs.insert(1, hs[0]);
    assert_eq!(chain.append_headers(&hs), Ok(3));
    let orphan = mine([9; 32], 1, 4);
    let more = vec![extend(&hs[3], 1, 5)[0], orphan, extend(&hs[3], 2, 6)[1]];
    assert_eq!(chain.append_headers(&more), Err(ErrorBlock::UnknownPrevious));
    assert_eq!(chain.height(), 4);
}

#[test]
fn get_by_height_and_hash() {
    let g = regtest_genesis();
    let mut chain = BlockChain::new(g).unwrap();
    let hs = extend(&g, 5, 1);
    assert_eq!(chain.append_headers(&hs), Ok(5));
    assert_eq!(chain.get_by_height(0), Some(g));
    assert_eq!(chain.get_by_height(3), Some(hs[2]));
    assert_eq!(chain.get_by_height(6), None);
    assert_eq!(chain.get_by_hash(&hs[4].get_hash256d()), Some(hs[4]));
    assert_eq!(chain.get_by_hash(&[1; 32]), None);
}

#[test]
fn locator_is_dense_then_sparse() {
    let g = regtest_genesis();
    let mut chain = BlockChain::new(g).unwrap();
    assert_eq!(chain.locator_hashes(), vec![g.get_hash256d()]);
    let hs = extend(&g, 20, 1);
    chain.append_headers(&hs).unwrap();
    let loc = chain.locator_hashes();
    let heights = [20usize, 19, 18, 16, 12, 4, 0];
    assert_eq!(loc.len(), heights.len());
    for (k, h) in heights.iter().enumerate() {
        assert_eq!(loc[k], chain.get_by_height(*h).unwrap().get_hash256d());
    }
}

#[test]
fn fork_resolution() {
    let g = regtest_genesis();
    let mut chain = BlockChain::new(g).unwrap();
    let base = extend(&g, 99, 1);
    chain.append_headers(&base).unwrap();
    let a = extend(&base[98], 11, 2);
    assert_eq!(chain.append_headers(&a), Ok(11));
    assert_eq!(chain.height(), 110);
    assert_eq!(chain.get_by_height(108), Some(a[8]));
    let fork_point = a[4];
    let b = extend(&fork_point, 11, 3);
    assert_eq!(chain.append_headers(&b), Ok(11));
    assert_eq!(chain.height(), 115);
    assert_eq!(chain.tip_header(), b[10]);
    assert_eq!(chain.get_by_height(108), Some(b[3]));
    assert_ne!(chain.get_by_height(108), Some(a[8]));
    assert_eq!(chain.get_by_height(104), Some(fork_point));
}

#[test]
fn equal_work_keeps_incumbent() {
    let g = regtest_genesis();
    let mut chain = BlockChain::new(g).unwrap();
    let a = extend(&g, 3, 1);
    chain.append_headers(&a).unwrap();
    let b = extend(&g, 3, 2);
    chain.append_headers(&b).unwrap();
    assert_eq!(chain.tip_header(), a[2]);
    let c = extend(&b[2], 1, 3);
    chain.append_headers(&c).unwrap();
    assert_eq!(chain.tip_header(), c[0]);
}

#[test]
fn timestamp_must_exceed_median_time() {
    let g = regtest_genesis();
    let mut chain = BlockChain::new(g).unwrap();
    let same_time = mine(g.get_hash256d(), g.timestamp, 9);
    assert_eq!(chain.append_header(&same_time), Err(ErrorBlock::TimestampTooOld));
    let hs = extend(&g, 11, 1);
    chain.append_headers(&hs).unwrap();
    let median = hs[5].timestamp;
    let at_median = mine(hs[10].get_hash256d(), median, 10);
    assert_eq!(chain.append_header(&at_median), Err(ErrorBlock::TimestampTooOld));
    let above_median = mine(hs[10].get_hash256d(), median + 1, 11);
    assert_eq!(chain.append_header(&above_median), Ok(AppendOutcome::Admitted));
}
