use ledger::block::Block;
use ledger::blockchain::{BlockError, Blockchain};
use ledger::transaction::Transaction;

fn mine_next(
    chain: &mut Blockchain,
    txs: Vec<Transaction>,
    ts: u128,
) -> Block {
    let mut candidate = chain.create_block_at(txs, ts).expect("create");
    chain.mine_block(&mut candidate).expect("mine");
    let mined = candidate.duplicate();
    chain.add_block_at(candidate, ts).expect("add");
    mined
}

#[test]
fn solo_mining_three_blocks() {
    let mut chain = Blockchain::new_with_allocations(Vec::new(), 2);
    let genesis_ts = chain.blocks[0].timestamp;
    for i in 1..=3u128 {
        let b = mine_next(&mut chain, Vec::new(), genesis_ts + i * 1000);
        assert_eq!(b.hash[0], 0, "two leading zero hex digits");
    }
    assert_eq!(chain.get_block_height(), 4);
    for i in 1..4 {
        assert_eq!(chain.blocks[i].prev_hash, chain.blocks[i - 1].hash);
        assert_eq!(chain.blocks[i].index as usize, i);
    }
}

#[test]
fn transfer_ordering_and_balances() {
    let (alice_sk, alice_pk) = Transaction::generate_keypair();
    let (_bob_sk, bob_pk) = Transaction::generate_keypair();
    let (_charlie_sk, charlie_pk) = Transaction::generate_keypair();
    let mut chain = Blockchain::new_with_allocations(vec![(alice_pk.clone(), 1_000_000)], 2);
    let genesis_ts = chain.blocks[0].timestamp;
    let tx1 = Transaction::create_transfer(&alice_sk, bob_pk.clone(), 200, 1, 10).expect("tx1");
    let tx2 =
        Transaction::create_transfer(&alice_sk, charlie_pk.clone(), 300, 2, 10).expect("tx2");
    let ts = genesis_ts + 1000;
    let b = mine_next(&mut chain, vec![tx1, tx2], ts);
    assert_eq!(b.transactions.len(), 2);
    assert_eq!(b.transactions[0].data.nonce, 1);
    assert_eq!(b.transactions[1].data.nonce, 2);
    assert_eq!(chain.get_balance(&alice_pk), 999_480);
    assert_eq!(chain.get_balance(&bob_pk), 200);
    assert_eq!(chain.get_balance(&charlie_pk), 300);
    assert_eq!(chain.get_next_nonce(&alice_pk), 3);
}

#[test]
fn insufficient_balance_rejected() {
    let (alice_sk, alice_pk) = Transaction::generate_keypair();
    let (_s, bob_pk) = Transaction::generate_keypair();
    let mut chain = Blockchain::new_with_allocations(vec![(alice_pk.clone(), 100)], 2);
    let genesis_ts = chain.blocks[0].timestamp;
    let tx = Transaction::create_transfer(&alice_sk, bob_pk, 200, 1, 10).expect("tx");
    let ts = genesis_ts + 1000;
    let mut candidate = chain.create_block_at(vec![tx], ts).expect("create");
    chain.mine_block(&mut candidate).expect("mine");
    let r = chain.add_block_at(candidate, ts);
    assert_eq!(r, Err(BlockError::InsufficientBalance));
    assert_eq!(chain.get_block_height(), 1);
}

#[test]
fn bad_link_and_bad_time_rejected() {
    let mut chain = Blockchain::new_with_allocations(Vec::new(), 2);
    let genesis_ts = chain.blocks[0].timestamp;
    // too small a timestamp gap
    let mut b = chain.create_block_at(Vec::new(), genesis_ts + 10).expect("create");
    chain.mine_block(&mut b).expect("mine");
    assert_eq!(chain.add_block_at(b, genesis_ts + 10), Err(BlockError::TimeTooShort));
    // broken link
    let mut b2 = Block::new(1, genesis_ts + 1000, vec![9u8; 32], 0, Vec::new());
    chain.mine_block(&mut b2).expect("mine");
    assert_eq!(chain.add_block_at(b2, genesis_ts + 1000), Err(BlockError::BadLink));
    assert_eq!(chain.get_block_height(), 1);
}

#[test]
fn chain_is_valid_after_mining() {
    let mut chain = Blockchain::new_with_allocations(Vec::new(), 2);
    let genesis_ts = chain.blocks[0].timestamp;
    mine_next(&mut chain, Vec::new(), genesis_ts + 1000);
    mine_next(&mut chain, Vec::new(), genesis_ts + 2000);
    assert!(chain.is_chain_valid(None));
}

#[test]
fn reorg_adopts_heavier_fork() {
    let mut chain = Blockchain::new_with_allocations(Vec::new(), 2);
    let genesis_ts = chain.blocks[0].timestamp;
    mine_next(&mut chain, Vec::new(), genesis_ts + 1000);
    mine_next(&mut chain, Vec::new(), genesis_ts + 2000);
    mine_next(&mut chain, Vec::new(), genesis_ts + 3000);
    let main_height = chain.get_block_height();
    // a fork rooted one below the tip
    let fork_block = chain
        .simulate_fork_at(Vec::new(), genesis_ts + 3100)
        .expect("fork");
    // extend the fork until it outweighs the main chain
    let mut tip = fork_block;
    let mut ts = genesis_ts + 4200;
    for _ in 0..6 {
        if chain.get_block_height() > main_height {
            break;
        }
        let mut ext = Block::new(
            tip.index + 1,
            ts,
            tip.hash.clone(),
            0,
            Vec::new(),
        );
        chain.mine_block(&mut ext).expect("mine ext");
        let next_tip = ext.duplicate();
        match chain.receive_block_at(ext, ts) {
            Ok(()) => tip = next_tip,
            Err(e) => panic!("fork extension rejected: {:?}", e),
        }
        ts += 1000;
    }
    assert!(chain.get_block_height() > main_height, "heavier fork adopted");
    assert!(chain.is_chain_valid(None));
}
