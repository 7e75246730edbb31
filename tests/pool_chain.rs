use minichain::{
    address_from_bytes, random_address, AuthorityError, AuthorityState, Blockchain,
    ElectionEvent, Mempool, Node, PoolEvent, Transaction, User, UserMap,
};

fn tx(id: &str, gas: u128) -> Transaction {
    Transaction::new(id.to_string(), gas, vec![], "0xs".to_string())
}

fn gases(batch: &[Transaction]) -> Vec<u128> {
    batch.iter().map(|t| t.gas()).collect()
}

#[test]
fn scenario_two_users_one_block() {
    let mut users = UserMap::new();
    let admin = users
        .add_user(User::with_balance("0xadmin".to_string(), 9_999_999))
        .unwrap();
    users.set_admin(admin.clone(), true);
    let user1 = users.add_user(User::with_balance("0xuser1".to_string(), 0)).unwrap();
    let user2 = users.add_user(User::with_balance("0xuser2".to_string(), 0)).unwrap();
    users.fund_user(&admin, &user1, 1000).unwrap();
    users.fund_user(&admin, &user2, 2000).unwrap();

    let mut pool = Mempool::new(&admin);
    let t1 = users.submit_tx(&user1, b"test transaction".to_vec(), 50).unwrap();
    assert_eq!(*users.get_user(&user1).unwrap().get_balance(), 950);
    pool.push(t1);
    let t2 = users.submit_tx(&user2, b"test transaction".to_vec(), 100).unwrap();
    assert_eq!(*users.get_user(&user2).unwrap().get_balance(), 1900);
    pool.push(t2);

    let (elected, batch) = pool.handle(PoolEvent::Tick).unwrap();
    assert_eq!(elected, admin);
    assert_eq!(gases(&batch), vec![100, 50]);
    assert_eq!(batch[0].sender(), &user2);
    assert_eq!(batch[1].sender(), &user1);

    let mut chain = Blockchain::new();
    let node = Node::new(admin.clone());
    let state = node.on_election(&mut chain, ElectionEvent::Published(elected, batch));
    assert_eq!(state, Ok(AuthorityState::Appended(1)));
    assert_eq!(chain.get_height(), 2);
    let last = chain.last_block();
    assert_eq!(last.number(), 1);
    assert_eq!(gases(last.txs()), vec![100, 50]);
}

#[test]
fn new_chain_holds_only_genesis() {
    let chain = Blockchain::new();
    assert_eq!(chain.get_height(), 1);
    let genesis = chain.block(0).unwrap();
    assert_eq!(genesis.number(), 0);
    assert!(genesis.txs().is_empty());
    assert!(chain.block(1).is_none());
}

#[test]
fn block_numbers_run_without_gaps() {
    let mut chain = Blockchain::new();
    let node = Node::new("0xminer".to_string());
    for round in 1..=5u128 {
        let n = node.execute_txs(&mut chain, vec![tx("0x1", round)]);
        assert_eq!(n, round);
        assert_eq!(chain.get_height(), round + 1);
    }
    for i in 0..6usize {
        assert_eq!(chain.block(i).unwrap().number(), i as u128);
    }
}

#[test]
fn drain_is_fee_ordered() {
    let mut pool = Mempool::new(&"0xm".to_string());
    for (i, g) in [7u128, 3, 42, 0, 19, 8].iter().enumerate() {
        pool.push(tx(&format!("0x{}", i), *g));
    }
    let (miner, batch) = pool.drain();
    assert_eq!(miner, "0xm");
    assert_eq!(gases(&batch), vec![42, 19, 8, 7, 3, 0]);
    assert_eq!(pool.len(), 0);
}

#[test]
fn equal_fees_keep_admission_order() {
    let mut pool = Mempool::new(&"0xm".to_string());
    pool.push(tx("0xa", 5));
    pool.push(tx("0xb", 9));
    pool.push(tx("0xc", 5));
    pool.push(tx("0xd", 5));
    let (_, batch) = pool.drain();
    let ids: Vec<&str> = batch.iter().map(|t| t.id().as_str()).collect();
    assert_eq!(ids, vec!["0xb", "0xa", "0xc", "0xd"]);
}

#[test]
fn empty_drain_still_publishes() {
    let mut pool = Mempool::new(&"0xm".to_string());
    let (miner, batch) = pool.handle(PoolEvent::Tick).unwrap();
    assert_eq!(miner, "0xm");
    assert!(batch.is_empty());
}

#[test]
fn late_transaction_goes_to_next_batch() {
    let mut pool = Mempool::new(&"0xm".to_string());
    assert!(pool.handle(PoolEvent::Received(tx("0xearly", 10))).is_none());
    let (_, first) = pool.handle(PoolEvent::Tick).unwrap();
    assert!(pool.handle(PoolEvent::Received(tx("0xlate", 99))).is_none());
    assert_eq!(first.len(), 1);
    assert_eq!(first[0].id(), "0xearly");
    let (_, second) = pool.handle(PoolEvent::Tick).unwrap();
    assert_eq!(second.len(), 1);
    assert_eq!(second[0].id(), "0xlate");
}

#[test]
fn other_authority_keeps_listening() {
    let mut chain = Blockchain::new();
    let node = Node::new("0xme".to_string());
    let r = node.on_election(
        &mut chain,
        ElectionEvent::Published("0xother".to_string(), vec![tx("0x1", 1)]),
    );
    assert_eq!(r, Ok(AuthorityState::Listening));
    assert_eq!(chain.get_height(), 1);
}

#[test]
fn lagging_authority_keeps_listening() {
    let mut chain = Blockchain::new();
    let node = Node::new("0xme".to_string());
    let r = node.on_election(&mut chain, ElectionEvent::Lagged);
    assert_eq!(r, Ok(AuthorityState::Listening));
    assert_eq!(chain.get_height(), 1);
}

#[test]
fn closed_channel_is_fatal() {
    let mut chain = Blockchain::new();
    let node = Node::new("0xme".to_string());
    let r = node.on_election(&mut chain, ElectionEvent::Closed);
    assert_eq!(r, Err(AuthorityError::ElectionChannelClosed));
    assert_eq!(chain.get_height(), 1);
}

#[test]
fn address_is_hex_of_bytes() {
    assert_eq!(address_from_bytes(&[0x00, 0x0f, 0xa5, 0xff]), "0x000fa5ff");
    assert_eq!(address_from_bytes(&[]), "0x");
}

#[test]
fn random_addresses_are_hex_and_differ() {
    let a = random_address();
    let b = random_address();
    assert_eq!(a.len(), 42);
    assert!(a.starts_with("0x"));
    assert!(a[2..].chars().all(|c| c.is_ascii_hexdigit() && !c.is_ascii_uppercase()));
    assert_ne!(a, b);
}

#[test]
fn late_transaction_is_published_exactly_once() {
    let mut pool = Mempool::new(&"0xm".to_string());
    let events = vec![
        PoolEvent::Received(tx("0xa", 4)),
        PoolEvent::Tick,
        PoolEvent::Received(tx("0xb", 1)),
        PoolEvent::Received(tx("0xlate", 7)),
        PoolEvent::Received(tx("0xc", 9)),
        PoolEvent::Tick,
        PoolEvent::Tick,
        PoolEvent::Received(tx("0xd", 2)),
        PoolEvent::Tick,
    ];
    let mut batches: Vec<Vec<String>> = vec![];
    for ev in events {
        if let Some((_, batch)) = pool.handle(ev) {
            batches.push(batch.iter().map(|t| t.id().clone()).collect());
        }
    }
    assert_eq!(batches.len(), 4);
    assert_eq!(batches[0], vec!["0xa"]);
    assert_eq!(batches[1], vec!["0xc", "0xlate", "0xb"]);
    assert!(batches[2].is_empty());
    assert_eq!(batches[3], vec!["0xd"]);
    let hits = batches
        .iter()
        .filter(|b| b.iter().any(|id| id == "0xlate"))
        .count();
    assert_eq!(hits, 1);
}
