use cargosos_bitcoin::account::{create_account, ErrorAccount, Wallet};
use cargosos_bitcoin::block::{Block, OutPoint, Transaction, TxIn, TxOut};
use cargosos_bitcoin::config::{deserialize, parse_decimal, ParseError};
use cargosos_bitcoin::error::ErrorWallet;
use cargosos_bitcoin::header::BlockHeader;
use cargosos_bitcoin::serializable::Serializable;
use cargosos_bitcoin::wallet::{create_transaction, select_coins, Utxo};

fn utxo(tag: u8, value: u64) -> Utxo {
    Utxo { outpoint: OutPoint { hash: [tag; 32], index: tag as u32 }, value }
}

#[test]
fn insufficient_funds_emits_error() {
    let utxos = vec![utxo(1, 5000)];
    let r = create_transaction(&utxos, &vec![0x76, 0xa9], &vec![0x51], 10_000, 1000);
    assert!(matches!(r, Err(ErrorWallet::InsufficientFunds)));
}

#[test]
fn coin_selection_largest_first() {
    assert_eq!(select_coins(&vec![3000, 8000, 5000, 1000], 9000, 500), Ok(vec![1, 2]));
    assert_eq!(select_coins(&vec![3000, 8000], 8000, 0), Ok(vec![1]));
    assert_eq!(select_coins(&vec![], 0, 0), Ok(vec![]));
    assert_eq!(
        select_coins(&vec![3000, 8000], 11_000, 1),
        Err(ErrorWallet::InsufficientFunds)
    );
    assert_eq!(select_coins(&vec![3000, 8000], 10_000, 1000), Ok(vec![1, 0]));
}

#[test]
fn transaction_inputs_cover_outputs_and_fee() {
    let utxos = vec![utxo(1, 3000), utxo(2, 8000), utxo(3, 5000)];
    let tx = create_transaction(&utxos, &vec![0xAA], &vec![0xBB], 9000, 500).unwrap();
    assert_eq!(tx.inputs.len(), 2);
    assert_eq!(tx.inputs[0].previous_output, utxos[1].outpoint);
    assert_eq!(tx.inputs[1].previous_output, utxos[2].outpoint);
    assert_eq!(tx.outputs.len(), 2);
    assert_eq!(tx.outputs[0].value, 9000);
    assert_eq!(tx.outputs[0].script_pubkey, vec![0xAA]);
    assert_eq!(tx.outputs[1].value, 3500);
    assert_eq!(tx.outputs[1].script_pubkey, vec![0xBB]);
    let inputs: i64 = 13_000;
    let outputs: i64 = tx.outputs.iter().map(|o| o.value).sum();
    assert!(inputs >= outputs + 500);
}

#[test]
fn exact_amount_has_no_change() {
    let utxos = vec![utxo(1, 6000)];
    let tx = create_transaction(&utxos, &vec![0xAA], &vec![0xBB], 5000, 1000).unwrap();
    assert_eq!(tx.outputs.len(), 1);
}

#[test]
fn amount_beyond_signed_range_is_refused() {
    let utxos = vec![utxo(1, u64::MAX)];
    let r = create_transaction(&utxos, &vec![], &vec![], 1, 0);
    assert!(matches!(r, Err(ErrorWallet::InvalidAmount)));
}

fn sample_tx(tag: u8) -> Transaction {
    Transaction {
        version: 1,
        inputs: vec![TxIn {
            previous_output: OutPoint { hash: [tag; 32], index: 0 },
            script_sig: vec![1, 2, 3],
            sequence: 0xFFFF_FFFF,
        }],
        outputs: vec![TxOut { value: 50, script_pubkey: vec![0x51] }],
        lock_time: 0,
    }
}

#[test]
fn transaction_bytes() {
    let tx = sample_tx(7);
    let mut out = Vec::new();
    tx.serialize(&mut out);
    assert_eq!(out.len(), 4 + 1 + (32 + 4 + 1 + 3 + 4) + 1 + (8 + 1 + 1) + 4);
    assert_eq!(&out[0..5], &[1, 0, 0, 0, 1]);
    assert_ne!(tx.txid(), sample_tx(8).txid());
}

fn header_with_root(root: [u8; 32]) -> BlockHeader {
    BlockHeader {
        version: 1,
        previous: [0; 32],
        merkle_root: root,
        timestamp: 0,
        n_bits: 0x207f_ffff,
        nonce: 0,
    }
}

#[test]
fn merkle_of_one_transaction_is_its_id() {
    let tx = sample_tx(1);
    let mut block = Block::new(header_with_root(tx.txid()));
    assert!(!block.proof_of_inclusion());
    block.agregar_transaccion(tx);
    assert_eq!(block.transactions.len(), 1);
    assert!(block.proof_of_inclusion());
}

#[test]
fn merkle_of_three_transactions() {
    let txs = vec![sample_tx(1), sample_tx(2), sample_tx(3)];
    let ids: Vec<[u8; 32]> = txs.iter().map(|t| t.txid()).collect();
    let left = cargosos_bitcoin::block::compute_merkle_root(vec![ids[0], ids[1]]);
    let right = cargosos_bitcoin::block::compute_merkle_root(vec![ids[2], ids[2]]);
    let root = cargosos_bitcoin::block::compute_merkle_root(vec![left, right]);
    assert_eq!(cargosos_bitcoin::block::compute_merkle_root(ids.clone()), root);
    let mut block = Block::new(header_with_root(root));
    for tx in txs {
        block.agregar_transaccion(tx);
    }
    assert!(block.proof_of_inclusion());
    let mut wrong = Block::new(header_with_root([0; 32]));
    wrong.agregar_transaccion(sample_tx(1));
    assert!(!wrong.proof_of_inclusion());
}

#[test]
fn merkle_pair_hash_differs_from_inputs() {
    let a = [1u8; 32];
    let b = [2u8; 32];
    let r = cargosos_bitcoin::block::compute_merkle_root(vec![a, b]);
    assert_ne!(r, a);
    assert_ne!(r, b);
    assert_eq!(cargosos_bitcoin::block::compute_merkle_root(vec![a]), a);
}

fn settings() -> Vec<(String, String)> {
    vec![
        ("network".to_string(), "regtest".to_string()),
        ("protocol_version".to_string(), "70015".to_string()),
        ("protocol_version".to_string(), "1".to_string()),
        ("port".to_string(), "99999999999999999999".to_string()),
    ]
}

#[test]
fn deserialize_reads_first_value() {
    assert_eq!(deserialize("protocol_version", &settings()), Ok(70015));
}

#[test]
fn deserialize_missing_name() {
    assert_eq!(deserialize("wallet_path", &settings()), Err(ParseError::ErrorReadableError));
}

#[test]
fn deserialize_value_not_a_number() {
    assert_eq!(deserialize("network", &settings()), Err(ParseError::ErrorCantParseValue));
    assert_eq!(deserialize("port", &settings()), Err(ParseError::ErrorCantParseValue));
}

#[test]
fn decimal_parsing() {
    assert_eq!(parse_decimal("0"), Some(0));
    assert_eq!(parse_decimal("18446744073709551615"), Some(u64::MAX));
    assert_eq!(parse_decimal("18446744073709551616"), None);
    assert_eq!(parse_decimal(""), None);
    assert_eq!(parse_decimal("12a"), None);
    assert_eq!(parse_decimal("+12"), Some(12));
    assert_eq!(parse_decimal("+"), None);
    assert_eq!(parse_decimal("++1"), None);
    assert_eq!(parse_decimal("-1"), None);
}

#[test]
fn deserialize_accepts_leading_plus() {
    let settings = vec![("peers".to_string(), "+5".to_string())];
    assert_eq!(deserialize("peers", &settings), Ok(5));
}

fn compressed_key(parity: u8) -> Vec<u8> {
    let mut k = vec![parity];
    k.extend_from_slice(&[7u8; 32]);
    k
}

#[test]
fn create_account_adds_it_last() {
    let mut wallet = Wallet::new();
    assert_eq!(create_account(&mut wallet, b"alice".to_vec(), &vec![1; 32], &compressed_key(2)), Ok(()));
    assert_eq!(create_account(&mut wallet, b"bob".to_vec(), &vec![2; 32], &compressed_key(3)), Ok(()));
    assert_eq!(wallet.accounts.len(), 2);
    assert_eq!(wallet.accounts[1].name, b"bob".to_vec());
    assert_eq!(wallet.accounts[1].private_key, [2; 32]);
    assert_eq!(wallet.accounts[1].public_key[0], 3);
    assert_eq!(wallet.selected, None);
}

#[test]
fn create_account_invalid_private_key() {
    let mut wallet = Wallet::new();
    assert_eq!(
        create_account(&mut wallet, b"a".to_vec(), &vec![1; 31], &vec![9; 5]),
        Err(ErrorAccount::InvalidPrivateKey)
    );
    assert!(wallet.accounts.is_empty());
}

#[test]
fn create_account_invalid_public_key() {
    let mut wallet = Wallet::new();
    assert_eq!(
        create_account(&mut wallet, b"a".to_vec(), &vec![1; 32], &compressed_key(4)),
        Err(ErrorAccount::InvalidPublicKey)
    );
    assert_eq!(
        create_account(&mut wallet, b"a".to_vec(), &vec![1; 32], &vec![2; 32]),
        Err(ErrorAccount::InvalidPublicKey)
    );
    assert!(wallet.accounts.is_empty());
}
