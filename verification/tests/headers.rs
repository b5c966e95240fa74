use ledger::blockchain::{Blockchain, LightClient};
use ledger::transaction::Transaction;

#[test]
fn light_client_follows_headers_and_checks_inclusion() {
    let (alice_sk, alice_pk) = Transaction::generate_keypair();
    let (_s, bob_pk) = Transaction::generate_keypair();
    let mut chain = Blockchain::new_with_allocations(vec![(alice_pk.clone(), 1000)], 2);
    let genesis_ts = chain.blocks[0].timestamp;
    let tx = Transaction::create_transfer(&alice_sk, bob_pk, 100, 1, 10).expect("tx");
    let tx_hash = tx.tx_hash.clone();
    let ts = genesis_ts + 1000;
    let mut candidate = chain.create_block_at(vec![tx], ts).expect("create");
    chain.mine_block(&mut candidate).expect("mine");
    chain.add_block_at(candidate, ts).expect("add");

    let mut lc = LightClient::new();
    for h in chain.get_block_headers() {
        lc.add_header(h).expect("link");
    }
    assert_eq!(lc.get_height(), 2);
    let proof = chain.get_transaction_proof(1, &tx_hash).expect("proof");
    assert!(lc.verify_transaction(&tx_hash, &proof, 1));
    assert!(!lc.verify_transaction(&vec![0u8; 32], &proof, 1));
    assert!(chain.verify_transaction_in_chain(&tx_hash, &proof, 1));

    // a header that does not link is refused
    let mut lc2 = LightClient::new();
    let h0 = chain.get_block_header(0).expect("h0");
    let mut h1 = chain.get_block_header(1).expect("h1");
    h1.prev_hash = vec![5u8; 32];
    lc2.add_header(h0).expect("first");
    assert!(lc2.add_header(h1).is_err());
}
