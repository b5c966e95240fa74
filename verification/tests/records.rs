use ledger::bytemap::BalanceMap;
use ledger::hexcode::{hex_decode, hex_encode};
use ledger::merkle::{MerkleTree, MerkleProof};
use ledger::pool::TransactionPool;
use ledger::transaction::{NonceTracker, Transaction, TransactionType};
use ledger::{bytes_to_u32, u128_to_bytes, u32_to_bytes, u64_to_bytes};

#[test]
fn byte_helpers_round() {
    assert_eq!(u32_to_bytes(&0x01020304), [1, 2, 3, 4]);
    assert_eq!(u64_to_bytes(&1)[7], 1);
    let b = u128_to_bytes(&0x0102);
    assert_eq!(b[15], 2);
    assert_eq!(b[14], 1);
    assert_eq!(bytes_to_u32(&b), 0x0102);
}

#[test]
fn hex_round_trip() {
    let data = vec![0u8, 15, 16, 255, 171];
    let enc = hex_encode(&data);
    assert_eq!(enc, b"000f10ffab".to_vec());
    assert_eq!(hex_decode(&enc), Some(data));
    assert_eq!(hex_decode(b"0"), None);
    assert_eq!(hex_decode(b"zz"), None);
    assert_eq!(hex_decode(b"AB"), Some(vec![171u8]));
}

#[test]
fn merkle_proofs_reconstruct_root() {
    let leaves: Vec<Vec<u8>> = (0u8..5).map(|i| vec![i; 32]).collect();
    let tree = MerkleTree::from_hashes(leaves.clone());
    let root = tree.get_root_hash().expect("root");
    for leaf in &leaves {
        let proof = tree.generate_proof(leaf).expect("proof");
        assert!(MerkleTree::verify_proof(&root, leaf, &proof));
        assert!(!MerkleTree::verify_proof(&root, &vec![99u8; 32], &proof));
    }
    assert!(tree.generate_proof(&vec![9u8; 32]).is_none());
    let empty = MerkleTree::from_hashes(Vec::new());
    assert!(empty.get_root_hash().is_none());
    let bad = MerkleProof { proof: Vec::new() };
    assert!(!MerkleTree::verify_proof(&root, &vec![1u8; 32], &bad));
}

#[test]
fn signed_transactions_verify() {
    let (sk, pk) = Transaction::generate_keypair();
    let tx = Transaction::create_transfer(&sk, vec![7u8; 32], 50, 1, 10).expect("tx");
    assert_eq!(tx.data.sender, pk);
    assert!(tx.verify());
    let mut bad = tx.duplicate();
    bad.data.amount = Some(51);
    assert!(!bad.verify(), "tampered payload fails verification");
    assert!(Transaction::create_transfer(&sk, vec![7u8; 32], 0, 1, 10).is_err());
    assert!(Transaction::create_transfer(&sk, vec![7u8; 3], 5, 1, 10).is_err());
}

#[test]
fn data_transactions_sanitized() {
    let (sk, _pk) = Transaction::generate_keypair();
    let tx = Transaction::create_data_tx(&sk, b"he\x01llo\n".to_vec(), 1, 10).expect("tx");
    assert_eq!(tx.data.data.as_ref().unwrap(), &b"hello\n".to_vec());
    assert_eq!(tx.data.tx_type, TransactionType::Data);
    assert!(tx.verify());
    assert!(Transaction::create_data_tx(&sk, Vec::new(), 1, 10).is_err());
    assert!(Transaction::create_data_tx(&sk, vec![b'a'; 2000], 1, 10).is_err());
}

#[test]
fn nonce_tracker_strict_sequence() {
    let mut t = NonceTracker::new();
    let sender = vec![1u8; 32];
    assert_eq!(t.get_nonce(&sender), 0);
    assert!(t.validate_and_update(&sender, 1));
    assert!(!t.validate_and_update(&sender, 3), "gap rejected");
    assert!(!t.validate_and_update(&sender, 1), "replay rejected");
    assert!(t.validate_and_update(&sender, 2));
    assert_eq!(t.get_nonce(&sender), 2);
}

#[test]
fn balance_map_bindings() {
    let mut m = BalanceMap::new();
    let k1 = vec![1u8];
    let k2 = vec![2u8];
    assert_eq!(m.get(&k1), 0);
    m.set(&k1, 10);
    m.set(&k2, 20);
    m.set(&k1, 30);
    assert_eq!(m.get(&k1), 30);
    assert_eq!(m.get(&k2), 20);
    m.clear();
    assert_eq!(m.get(&k2), 0);
}

#[test]
fn pool_admission_and_sweep() {
    let (sk, pk) = Transaction::generate_keypair();
    let receiver = vec![7u8; 32];
    let mut pool = TransactionPool::new();
    let tx1 = Transaction::create_transfer(&sk, receiver.clone(), 50, 1, 100_000).expect("tx1");
    let t = tx1.data.timestamp;
    pool.add_transaction_at(tx1.duplicate(), t).expect("admit");
    assert_eq!(pool.size(), 1);
    // re-adding the same signed transaction fails and leaves the size alone
    assert!(pool.add_transaction_at(tx1.duplicate(), t).is_err());
    assert_eq!(pool.size(), 1);
    // a nonce gap is rejected
    let tx3 = Transaction::create_transfer(&sk, receiver.clone(), 50, 3, 100_000).expect("tx3");
    assert!(pool.add_transaction_at(tx3, t).is_err());
    assert_eq!(pool.size(), 1);
    let tx2 = Transaction::create_transfer(&sk, receiver.clone(), 60, 2, 100_000).expect("tx2");
    pool.add_transaction_at(tx2.duplicate(), t).expect("next nonce");
    assert_eq!(pool.size(), 2);
    assert!(pool.get_transaction(&tx1.tx_hash).is_some());
    let pending = pool.get_pending_by_sender(&pk);
    assert_eq!(pending.len(), 2);
    assert_eq!(pending[0].data.nonce, 1);
    assert_eq!(pending[1].data.nonce, 2);
    let selected = pool.get_transactions_for_block(1_000_000, 10_000_000);
    assert_eq!(selected.len(), 2);
    assert_eq!(selected[0].data.nonce, 1);
    assert_eq!(selected[1].data.nonce, 2);
    // committing nonce 1 leaves only entries strictly above it
    pool.process_block(&vec![tx1.duplicate()]);
    assert_eq!(pool.size(), 1);
    assert!(pool.get_transaction(&tx1.tx_hash).is_none());
    pool.process_block(&vec![tx2.duplicate()]);
    assert_eq!(pool.size(), 0);
    // a low fee is rejected
    let cheap = Transaction::create_transfer(&sk, receiver, 5, 3, 10).expect("cheap");
    assert!(pool.add_transaction_at(cheap, t).is_err());
}
