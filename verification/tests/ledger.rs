use toycoin::block::{Blockchain, BlockchainError, Transaction, GENESIS_PROOF, GRANT_AMOUNT};

const WRONG_GUESS: u8 = 7;

#[test]
fn fresh_ledger_shape() {
    let chain = Blockchain::new();
    assert!(chain.chain().is_empty());
    assert!(chain.pending().is_empty());
    assert!(chain.balance().is_empty());
}

#[test]
fn wire_negative_rejected() {
    let mut chain = Blockchain::new();
    let r = chain.wire("a".to_string(), "b".to_string(), -1);
    match r {
        Err(BlockchainError::NegativeTransfer { from, to, amount }) => {
            assert_eq!(from, "a");
            assert_eq!(to, "b");
            assert_eq!(amount, -1);
        }
        _ => panic!("a negative wire must fail with NegativeTransfer"),
    }
    assert!(chain.pending().is_empty());
}

#[test]
fn wire_appends_to_pending() {
    let mut chain = Blockchain::new();
    assert!(chain.wire("alice".to_string(), "bob".to_string(), 10).is_ok());
    let pending = chain.pending();
    assert_eq!(pending.len(), 1);
    match &pending[0] {
        Transaction::Wire { from, to, amount } => {
            assert_eq!(from, "alice");
            assert_eq!(to, "bob");
            assert_eq!(*amount, 10);
        }
        _ => panic!("the pending transaction must be the wire"),
    }
}

#[test]
fn wire_to_self_is_allowed() {
    let mut chain = Blockchain::new();
    assert!(chain.wire("a".to_string(), "a".to_string(), 5).is_ok());
    assert_eq!(chain.pending().len(), 1);
    let balances = chain.balance();
    assert_eq!(balances, vec![("a".to_string(), 0)]);
}

#[test]
fn guess_grants_only_on_the_proof_byte() {
    let mut chain = Blockchain::new();
    assert!(chain.guess(GENESIS_PROOF, "alice".to_string()));
    let pending = chain.pending();
    assert_eq!(pending.len(), 1);
    match &pending[0] {
        Transaction::Grant { to, amount } => {
            assert_eq!(to, "alice");
            assert_eq!(*amount, GRANT_AMOUNT);
        }
        _ => panic!("a correct guess must append a grant"),
    }
    assert!(!chain.guess(WRONG_GUESS, "bob".to_string()));
    assert_eq!(chain.pending().len(), 1);
    assert!(chain.guess(GENESIS_PROOF, "carol".to_string()));
    assert_eq!(chain.pending().len(), 2);
}

#[test]
fn balance_is_the_sum_of_grants_and_wires() {
    let mut chain = Blockchain::new();
    assert!(chain.guess(GENESIS_PROOF, "alice".to_string()));
    assert!(chain.wire("alice".to_string(), "bob".to_string(), 3).is_ok());
    let balances = chain.balance();
    assert_eq!(
        balances,
        vec![("alice".to_string(), 1), ("bob".to_string(), 3)]
    );
}

#[test]
fn balance_keys_are_sorted() {
    let mut chain = Blockchain::new();
    assert!(chain.wire("zed".to_string(), "alice".to_string(), 0).is_ok());
    assert!(chain.wire("mike".to_string(), "bob".to_string(), 0).is_ok());
    let keys: Vec<String> = chain.balance().into_iter().map(|p| p.0).collect();
    assert_eq!(keys, vec!["alice", "bob", "mike", "zed"]);
}

#[test]
fn balance_wraps_like_i64_arithmetic() {
    let mut chain = Blockchain::new();
    assert!(chain.wire("a".to_string(), "b".to_string(), i64::MAX).is_ok());
    assert!(chain.wire("a".to_string(), "b".to_string(), i64::MAX).is_ok());
    let balances = chain.balance();
    assert_eq!(balances, vec![("a".to_string(), 2), ("b".to_string(), -2)]);
}

#[test]
fn commit_failure_changes_nothing() {
    let mut chain = Blockchain::new();
    assert!(chain.wire("alice".to_string(), "bob".to_string(), 10).is_ok());
    match chain.commit() {
        Err(BlockchainError::NegativeBalances(accounts)) => {
            assert_eq!(accounts, vec![("alice".to_string(), -10)]);
        }
        _ => panic!("committing an overdraft must fail with NegativeBalances"),
    }
    assert!(chain.chain().is_empty());
    assert_eq!(chain.pending().len(), 1);
}

#[test]
fn negative_balance_report_is_sorted() {
    let mut chain = Blockchain::new();
    assert!(chain.wire("zed".to_string(), "you".to_string(), 5).is_ok());
    assert!(chain.wire("alice".to_string(), "bob".to_string(), 3).is_ok());
    match chain.commit() {
        Err(BlockchainError::NegativeBalances(accounts)) => {
            assert_eq!(
                accounts,
                vec![("alice".to_string(), -3), ("zed".to_string(), -5)]
            );
        }
        _ => panic!("committing overdrafts must fail with NegativeBalances"),
    }
}

#[test]
fn mine_first_pay_later_scenario() {
    let mut chain = Blockchain::new();
    assert!(chain.wire("alice".to_string(), "bob".to_string(), 10).is_ok());
    match chain.commit() {
        Err(BlockchainError::NegativeBalances(accounts)) => {
            assert_eq!(accounts, vec![("alice".to_string(), -10)]);
        }
        _ => panic!("alice is overdrawn, commit must fail"),
    }
    assert!(chain.guess(GENESIS_PROOF, "alice".to_string()));
    match chain.commit() {
        Err(BlockchainError::NegativeBalances(accounts)) => {
            assert_eq!(accounts, vec![("alice".to_string(), -6)]);
        }
        _ => panic!("alice is still overdrawn, commit must fail"),
    }
    assert!(chain.guess(GENESIS_PROOF, "alice".to_string()));
    assert!(chain.guess(GENESIS_PROOF, "alice".to_string()));
    assert!(chain.commit().is_ok());
    let committed = chain.chain();
    assert_eq!(committed.len(), 1);
    assert_eq!(committed[0].index, 0);
    assert_eq!(committed[0].transactions.len(), 4);
    assert!(chain.pending().is_empty());
    assert_eq!(
        chain.balance(),
        vec![("alice".to_string(), 2), ("bob".to_string(), 10)]
    );
    assert!(chain.wire("bob".to_string(), "carol".to_string(), 4).is_ok());
    assert_eq!(
        chain.balance(),
        vec![
            ("alice".to_string(), 2),
            ("bob".to_string(), 6),
            ("carol".to_string(), 4)
        ]
    );
}

#[test]
fn commit_seals_blocks_behind_digests() {
    let mut chain = Blockchain::new();
    assert!(chain.commit().is_ok());
    assert!(chain.commit().is_ok());
    let committed = chain.chain();
    assert_eq!(committed.len(), 2);
    assert_eq!(committed[0].index, 0);
    assert_eq!(committed[0].proof, GENESIS_PROOF);
    assert_eq!(
        committed[0].previous_hash,
        b"genesis_genesis_genesis_genesis_".to_vec()
    );
    assert_eq!(committed[1].index, 1);
    assert!(committed[1].transactions.is_empty());
    assert_eq!(committed[1].previous_hash.len(), 32);
    assert_ne!(committed[1].previous_hash, committed[0].previous_hash);
}
