use ledger::blockchain::Blockchain;
use ledger::constants::{DIFFICULTY, ID_LENGTH, K};
use ledger::bytemap::StoreMap;
use ledger::kademlia::{
    bucket_index, dist_less, find_value_response, generate_pow, verify_pow, Contact, KBucket,
    RoutingTable, UpdateOutcome,
};
use ledger::lookup::{should_cache, LookupState};
use ledger::pool::TransactionPool;
use ledger::sync::{
    adopt_snapshot, consider_snapshot, derive_response_key, handle_sync_event, mine_pending_block,
    new_request_keys, recognize_request, SyncAction, SyncEvent,
};
use ledger::transaction::Transaction;

fn contact(tag: u8) -> Contact {
    Contact {
        id: vec![tag; ID_LENGTH],
        ip: vec![127, 0, 0, 1],
        port: 4000 + tag as u32,
        public_key: vec![tag; 32],
    }
}

#[test]
fn kbucket_lru_discipline() {
    let mut bucket = KBucket::new();
    for tag in 0..K as u8 {
        assert_eq!(bucket.update(contact(tag)), UpdateOutcome::Inserted);
    }
    assert!(bucket.is_full());
    // a known contact moves to the most-recent end
    assert_eq!(bucket.update(contact(3)), UpdateOutcome::Refreshed);
    let nodes = bucket.get_nodes();
    assert_eq!(nodes.len(), K);
    assert_eq!(nodes[K - 1].id, vec![3u8; ID_LENGTH]);
    // a stranger bounces off a full bucket, leaving it untouched
    assert_eq!(bucket.update(contact(99)), UpdateOutcome::Full);
    assert_eq!(bucket.get_nodes().len(), K);
    // the head is the eviction candidate; replacing it admits the stranger
    let lru_id = bucket.get_lru().unwrap().id.clone();
    bucket.replace_lru(contact(99));
    let after = bucket.get_nodes();
    assert_eq!(after.len(), K);
    assert_eq!(after[K - 1].id, vec![99u8; ID_LENGTH]);
    assert!(after.iter().all(|c| c.id != lru_id));
}

#[test]
fn routing_table_closest_sorted_and_distinct() {
    let own = vec![0u8; ID_LENGTH];
    let mut table = RoutingTable::new(own.clone());
    for tag in 1..30u8 {
        let _ = table.update(contact(tag));
    }
    let target = vec![7u8; ID_LENGTH];
    let closest = table.find_closest_nodes(&target, 10);
    assert_eq!(closest.len(), 10);
    assert_eq!(closest[0].id, vec![7u8; ID_LENGTH], "the target id itself is closest");
    for w in closest.windows(2) {
        assert!(
            !dist_less(&w[1].id, &w[0].id, &target),
            "ascending XOR distance"
        );
    }
    for a in 0..closest.len() {
        for b in a + 1..closest.len() {
            assert_ne!(closest[a].id, closest[b].id);
        }
    }
    // asking for more than the table holds returns everything
    let all = table.find_closest_nodes(&target, 1000);
    assert_eq!(all.len(), 29);
    // the own id has no bucket
    assert!(bucket_index(&own, &own).is_none());
}

#[test]
fn join_pow_gate() {
    let id = vec![5u8; ID_LENGTH];
    let (nonce, pow_hash) = generate_pow(&id, 1_000_000).expect("a nonce within the bound");
    let nonce_bytes = nonce.to_be_bytes().to_vec();
    assert!(verify_pow(&id, &nonce_bytes, &pow_hash, DIFFICULTY));
    assert_eq!(&pow_hash[..DIFFICULTY], &vec![0u8; DIFFICULTY][..]);
    // insufficient work or a wrong digest is refused
    let mut wrong = pow_hash.clone();
    wrong[31] ^= 1;
    assert!(!verify_pow(&id, &nonce_bytes, &wrong, DIFFICULTY));
    assert!(!verify_pow(&id, &vec![0u8; 8], &pow_hash, DIFFICULTY) || nonce == 0);
}

#[test]
fn lookup_rounds_and_passive_caching() {
    let target = vec![9u8; ID_LENGTH];
    let seed = vec![contact(1), contact(2), contact(3), contact(4)];
    let mut lookup = LookupState::new(target.clone(), seed);
    let batch = lookup.next_batch();
    assert!(batch.len() <= 3);
    assert!(!batch.is_empty());
    lookup.on_response(vec![contact(9), contact(1)]);
    assert!(!lookup.is_done());
    // the caching decision: only an id among the top k caches
    let sorted = vec![contact(9), contact(8), contact(1)];
    assert!(should_cache(&sorted, &vec![9u8; ID_LENGTH], 2));
    assert!(!should_cache(&sorted, &vec![1u8; ID_LENGTH], 2));
    assert!(should_cache(&sorted, &vec![1u8; ID_LENGTH], 3));
}

#[test]
fn snapshot_request_recognition_and_keys() {
    let (request_key, response_key) = new_request_keys(&vec![1u8; ID_LENGTH], &vec![2u8; ID_LENGTH]);
    assert_eq!(request_key.len(), 20);
    assert_eq!(response_key, derive_response_key(&request_key));
    let mut value = b"REQUEST:".to_vec();
    value.extend(ledger::hexcode::hex_encode(&response_key));
    let parsed = recognize_request(&value).expect("well-formed request");
    assert_eq!(parsed, response_key);
    assert!(recognize_request(&b"REQUEST:zz".to_vec()).is_none());
    assert!(recognize_request(&b"hello".to_vec()).is_none());
}

#[test]
fn sync_events_route_into_chain_and_pool() {
    let (alice_sk, alice_pk) = Transaction::generate_keypair();
    let mut chain = Blockchain::new_with_allocations(vec![(alice_pk.clone(), 1_000_000)], 2);
    let mut pool = TransactionPool::new();
    let genesis_ts = chain.blocks[0].timestamp;

    // a gossiped transaction is admitted once and refused again
    let tx = Transaction::create_transfer(&alice_sk, vec![7u8; 32], 10, 1, 100_000).expect("tx");
    let t = tx.data.timestamp;
    let r1 = handle_sync_event(&mut chain, &mut pool, SyncEvent::NewTransaction(tx.duplicate()), t);
    assert!(matches!(r1, SyncAction::Accepted));
    let r2 = handle_sync_event(&mut chain, &mut pool, SyncEvent::NewTransaction(tx), t);
    assert!(matches!(r2, SyncAction::Rejected));
    assert_eq!(pool.size(), 1);

    // a gossiped block extends the chain
    let ts = genesis_ts + 1000;
    let mut candidate = chain.create_block_at(Vec::new(), ts).expect("create");
    chain.mine_block(&mut candidate).expect("mine");
    let r3 = handle_sync_event(&mut chain, &mut pool, SyncEvent::NewBlock(candidate), ts);
    assert!(matches!(r3, SyncAction::Accepted));
    assert_eq!(chain.get_block_height(), 2);

    // a snapshot request publishes the committed chain at the response key
    let key = vec![0xAAu8; 20];
    match handle_sync_event(&mut chain, &mut pool, SyncEvent::SnapshotRequest { response_key: key.clone() }, ts) {
        SyncAction::PublishSnapshot { key: k, blocks, difficulty } => {
            assert_eq!(k, key);
            assert_eq!(blocks.len(), 2);
            assert_eq!(difficulty, 2);
        }
        _ => panic!("expected a snapshot"),
    }

    // a strictly taller valid snapshot is adopted and clears the pool
    let mut other = Blockchain::new_with_allocations(Vec::new(), 2);
    let og = other.blocks[0].timestamp;
    for i in 1..=3u128 {
        let mut b = other.create_block_at(Vec::new(), og + i * 1000).expect("create");
        other.mine_block(&mut b).expect("mine");
        other.add_block_at(b, og + i * 1000).expect("add");
    }
    let snapshot = other.get_blocks_from(0);
    assert!(consider_snapshot(&chain, &snapshot));
    adopt_snapshot(&mut chain, &mut pool, snapshot);
    assert_eq!(chain.get_block_height(), 4);
    assert_eq!(pool.size(), 0);
    assert!(chain.is_chain_valid(None));
}

#[test]
fn find_value_reply_branches() {
    let own = vec![0u8; ID_LENGTH];
    let mut table = RoutingTable::new(own);
    for tag in 1..8u8 {
        let _ = table.update(contact(tag));
    }
    let mut store = StoreMap::new();
    let key = vec![0xAAu8; ID_LENGTH];
    // a miss returns the closest contacts and no value
    let miss = find_value_response(&store, &table, &key);
    assert!(miss.value.is_none());
    assert_eq!(miss.nodes.len(), 7);
    // a hit returns the value and no contacts
    store.insert(&key, b"hello".to_vec());
    let hit = find_value_response(&store, &table, &key);
    assert_eq!(hit.value, Some(b"hello".to_vec()));
    assert!(hit.nodes.is_empty());
}

#[test]
fn lookup_results_sorted_without_a_table() {
    let target = vec![6u8; ID_LENGTH];
    let lookup = LookupState::new(
        target.clone(),
        vec![contact(1), contact(6), contact(30), contact(2)],
    );
    let top = lookup.results(3);
    assert_eq!(top.len(), 3);
    assert_eq!(top[0].id, vec![6u8; ID_LENGTH]);
    for w in top.windows(2) {
        assert!(!ledger::kademlia::dist_less(&w[1].id, &w[0].id, &target));
    }
}

#[test]
fn mine_pending_block_commits_and_sweeps() {
    let (alice_sk, alice_pk) = Transaction::generate_keypair();
    let (_b, bob_pk) = Transaction::generate_keypair();
    let mut chain = Blockchain::new_with_allocations(vec![(alice_pk.clone(), 1_000_000)], 2);
    let mut pool = TransactionPool::new();
    let genesis_ts = chain.blocks[0].timestamp;
    let tx = Transaction::create_transfer(&alice_sk, bob_pk.clone(), 100, 1, 100_000).expect("tx");
    pool.add_transaction_at(tx.duplicate(), tx.data.timestamp).expect("admit");
    let mined = mine_pending_block(&mut chain, &mut pool, genesis_ts + 1000).expect("mine");
    assert_eq!(mined.transactions.len(), 1);
    assert_eq!(chain.get_block_height(), 2);
    assert_eq!(pool.size(), 0, "the committed transfer left the pool");
    assert_eq!(chain.get_balance(&bob_pk), 100);
}

#[test]
fn first_nonce_unconstrained_until_something_pends() {
    // a sender with nothing pending is under no nonce rule at admission;
    // stale nonces fall to the post-commit sweep
    let (sk, _pk) = Transaction::generate_keypair();
    let mut pool = TransactionPool::new();
    let tx5 = Transaction::create_transfer(&sk, vec![7u8; 32], 10, 5, 100_000).expect("tx5");
    let t = tx5.data.timestamp;
    pool.add_transaction_at(tx5, t).expect("first nonce free");
    assert_eq!(pool.size(), 1);
    // but a gap above the highest pending nonce is rejected
    let tx9 = Transaction::create_transfer(&sk, vec![7u8; 32], 10, 9, 100_000).expect("tx9");
    assert!(pool.add_transaction_at(tx9, t).is_err());
    assert_eq!(pool.size(), 1);
}
