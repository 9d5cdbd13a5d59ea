use cometbft_playground::app::{App, AppError, Phase};
use cometbft_playground::executor::{
    validate_tx, Rejection, TxOutcome, CODE_BAD_NONCE, CODE_DECODE_ERROR, CODE_EXPIRED,
    CODE_INSUFFICIENT_FUNDS, CODE_OK,
};
use cometbft_playground::codec::encode;
use cometbft_playground::db::DB;
use cometbft_playground::rocksdb::RocksDB;
use cometbft_playground::common::{Address, ChainId, DateTimeUtc};
use cometbft_playground::ledger::{Account, Ledger, INITIAL_GRANT};
use cometbft_playground::transaction::{Header, Transaction, TxPayload};

const A: [u8; 20] = [0xaa; 20];
const B: [u8; 20] = [0xbb; 20];
const C: [u8; 20] = [0xcc; 20];

fn block_time() -> DateTimeUtc {
    DateTimeUtc { secs: 1_700_000_000, nanos: 0 }
}

fn tx(from: [u8; 20], nonce: u64, payload: TxPayload, expiration: Option<DateTimeUtc>) -> Vec<u8> {
    encode(&Transaction {
        header: Header {
            chain_id: ChainId("test".to_string()),
            expiration,
            timestamp: block_time(),
        },
        chain_id: ChainId("test".to_string()),
        from: Address(from),
        tx_payload: payload,
        nonce,
    })
}

fn create(from: [u8; 20]) -> Vec<u8> {
    tx(from, 1, TxPayload::CreateAccount, None)
}

fn transfer(from: [u8; 20], to: [u8; 20], amount: u128, nonce: u64) -> Vec<u8> {
    tx(from, nonce, TxPayload::Transfer { to: Address(to), amount }, None)
}

fn ready_app() -> App {
    let mut app = App::new();
    app.init_chain("test".to_string()).unwrap();
    app
}

fn run(app: &mut App, height: i64, txs: Vec<Vec<u8>>) -> Vec<TxOutcome> {
    let r = app.finalize_block(height, block_time(), &txs).unwrap();
    app.commit().unwrap();
    r.outcomes
}

fn account(app: &App, a: [u8; 20]) -> Option<Account> {
    app.state.accounts.get(&Address(a))
}

fn total(app: &App, addrs: &[[u8; 20]]) -> u128 {
    addrs.iter().map(|a| account(app, *a).map(|x| x.balance).unwrap_or(0)).sum()
}

#[test]
fn create_create_transfer_scenario() {
    let mut app = ready_app();
    let out = run(&mut app, 1, vec![create(A), create(B), transfer(A, B, 100, 1)]);
    assert_eq!(out, vec![TxOutcome::Applied, TxOutcome::Applied, TxOutcome::Applied]);
    assert_eq!(account(&app, A), Some(Account { balance: 999_900, nonce: 1 }));
    assert_eq!(account(&app, B), Some(Account { balance: 1_000_100, nonce: 0 }));
}

#[test]
fn transfer_from_missing_account_rejected() {
    let mut app = ready_app();
    let out = run(&mut app, 1, vec![create(B), transfer(C, B, 5, 1)]);
    assert_eq!(out[1], TxOutcome::Rejected(Rejection::AccountNotFound));
    assert_eq!(out[1].code(), CODE_INSUFFICIENT_FUNDS);
    assert_eq!(account(&app, C), None);
    assert_eq!(account(&app, B), Some(Account { balance: INITIAL_GRANT, nonce: 0 }));
}

#[test]
fn transfer_to_missing_account_rejected() {
    let mut app = ready_app();
    let out = run(&mut app, 1, vec![create(A), transfer(A, C, 5, 1)]);
    assert_eq!(out[1], TxOutcome::Rejected(Rejection::UnknownRecipient));
    assert_eq!(out[1].code(), CODE_INSUFFICIENT_FUNDS);
    assert_eq!(account(&app, A), Some(Account { balance: INITIAL_GRANT, nonce: 0 }));
}

#[test]
fn create_then_transfer_in_one_block() {
    let mut app = ready_app();
    app.finalize_block(1, block_time(), &vec![create(B)]).unwrap();
    app.commit().unwrap();
    let out = run(&mut app, 2, vec![create(A), transfer(A, B, 10, 1)]);
    assert_eq!(out, vec![TxOutcome::Applied, TxOutcome::Applied]);
    assert_eq!(account(&app, A).unwrap().balance, 999_990);
}

#[test]
fn second_create_account_exists() {
    let mut app = ready_app();
    let out = run(&mut app, 1, vec![create(A), create(A)]);
    assert_eq!(out[0], TxOutcome::Applied);
    assert_eq!(out[1], TxOutcome::Rejected(Rejection::AccountExists));
    assert_eq!(out[1].code(), CODE_BAD_NONCE);
    let later = run(&mut app, 2, vec![create(A)]);
    assert_eq!(later[0], TxOutcome::Rejected(Rejection::AccountExists));
}

#[test]
fn replayed_transfer_bad_nonce() {
    let mut app = ready_app();
    let t = transfer(A, B, 10, 1);
    let out = run(&mut app, 1, vec![create(A), create(B), t.clone(), t.clone()]);
    assert_eq!(out[2], TxOutcome::Applied);
    assert_eq!(out[3], TxOutcome::Rejected(Rejection::BadNonce));
    assert_eq!(out[3].code(), CODE_BAD_NONCE);
    let later = run(&mut app, 2, vec![t]);
    assert_eq!(later[0], TxOutcome::Rejected(Rejection::BadNonce));
    let skipped = run(&mut app, 3, vec![transfer(A, B, 10, 3)]);
    assert_eq!(skipped[0], TxOutcome::Rejected(Rejection::BadNonce));
}

#[test]
fn transfers_keep_supply() {
    let mut app = ready_app();
    run(&mut app, 1, vec![create(A), create(B), create(C)]);
    let before = total(&app, &[A, B, C]);
    run(&mut app, 2, vec![transfer(A, B, 300, 1), transfer(B, C, 1_000_200, 1), transfer(C, C, 7, 1)]);
    assert_eq!(total(&app, &[A, B, C]), before);
    assert_eq!(before, 3 * INITIAL_GRANT);
    assert_eq!(account(&app, C), Some(Account { balance: 2_000_200, nonce: 1 }));
}

#[test]
fn overdraft_rejected_balances_unchanged() {
    let mut app = ready_app();
    run(&mut app, 1, vec![create(A), create(B)]);
    let out = run(&mut app, 2, vec![transfer(A, B, INITIAL_GRANT + 1, 1)]);
    assert_eq!(out[0], TxOutcome::Rejected(Rejection::InsufficientFunds));
    assert_eq!(out[0].code(), CODE_INSUFFICIENT_FUNDS);
    assert_eq!(account(&app, A), Some(Account { balance: INITIAL_GRANT, nonce: 0 }));
    assert_eq!(account(&app, B), Some(Account { balance: INITIAL_GRANT, nonce: 0 }));
    let exact = run(&mut app, 3, vec![transfer(A, B, INITIAL_GRANT, 1)]);
    assert_eq!(exact[0], TxOutcome::Applied);
    assert_eq!(account(&app, A).unwrap().balance, 0);
}

#[test]
fn identical_runs_same_commitment() {
    let txs = vec![create(A), create(B), transfer(A, B, 42, 1), vec![1, 2, 3]];
    let mut one = ready_app();
    let mut two = ready_app();
    let r1 = one.finalize_block(1, block_time(), &txs).unwrap();
    let r2 = two.finalize_block(1, block_time(), &txs).unwrap();
    assert_eq!(r1.app_hash, r2.app_hash);
    assert_eq!(r1.outcomes, r2.outcomes);
    let mut three = ready_app();
    let other = vec![create(A), create(B), transfer(A, B, 43, 1)];
    let r3 = three.finalize_block(1, block_time(), &other).unwrap();
    assert_ne!(r1.app_hash, r3.app_hash);
}

#[test]
fn commitment_of_empty_and_nonempty_differ() {
    let empty = Ledger::new();
    let mut app = ready_app();
    run(&mut app, 1, vec![create(A)]);
    let h0 = empty.commitment();
    let h1 = app.state.accounts.commitment();
    assert_ne!(h0, h1);
    assert_eq!(app.info().last_block_app_hash, h1.to_vec());
}

#[test]
fn undecodable_tx_skipped() {
    let mut app = ready_app();
    let out = run(&mut app, 1, vec![vec![0xde, 0xad], create(A)]);
    assert_eq!(out[0], TxOutcome::DecodeFailed);
    assert_eq!(out[0].code(), CODE_DECODE_ERROR);
    assert_eq!(out[1].code(), CODE_OK);
}

#[test]
fn expired_against_block_time() {
    let mut app = ready_app();
    let past = DateTimeUtc { secs: 1_699_999_999, nanos: 999_999_999 };
    let same = block_time();
    let out = run(
        &mut app,
        1,
        vec![tx(A, 1, TxPayload::CreateAccount, Some(past)), tx(B, 1, TxPayload::CreateAccount, Some(same))],
    );
    assert_eq!(out[0], TxOutcome::Rejected(Rejection::Expired));
    assert_eq!(out[0].code(), CODE_EXPIRED);
    assert_eq!(out[1], TxOutcome::Applied);
}

#[test]
fn check_tx_reads_committed_state() {
    let mut app = ready_app();
    app.finalize_block(1, block_time(), &vec![create(A), create(B)]).unwrap();
    // not committed yet: the recipient is unknown to CheckTx
    let pending = app.check_tx(&transfer(A, B, 1, 1), &block_time());
    assert_eq!(pending.outcome, TxOutcome::Rejected(Rejection::UnknownRecipient));
    assert_eq!(pending.log, format!("account 0x{} does not exist", "bb".repeat(20)));
    app.commit().unwrap();
    let ok = app.check_tx(&transfer(A, B, 1, 1), &block_time());
    assert_eq!(ok.outcome, TxOutcome::Applied);
    assert_eq!(ok.log, "transaction complete");
    let bad = app.check_tx(&[1, 2], &block_time());
    assert_eq!(bad.outcome, TxOutcome::DecodeFailed);
    assert_eq!(bad.log, "failed to parse transaction");
    assert_eq!(account(&app, A).unwrap().balance, INITIAL_GRANT);
}

#[test]
fn life_cycle_order() {
    let mut app = App::new();
    assert_eq!(app.phase, Phase::Uninitialized);
    assert_eq!(app.finalize_block(1, block_time(), &vec![]).err(), Some(AppError::NotReady));
    assert_eq!(app.commit().err(), Some(AppError::NothingToCommit));
    app.init_chain("my-chain".to_string()).unwrap();
    assert_eq!(app.state.chain_id.0, "my-chain");
    // a repeated call at genesis is accepted and replaces the chain identity
    assert_eq!(app.init_chain("test".to_string()), Ok(()));
    assert_eq!(app.state.chain_id.0, "test");
    app.finalize_block(7, block_time(), &vec![create(A)]).unwrap();
    assert_eq!(app.init_chain("other".to_string()).err(), Some(AppError::AlreadyInitialized));
    assert_eq!(app.state.chain_id.0, "test");
    assert_eq!(app.finalize_block(8, block_time(), &vec![]).err(), Some(AppError::NotReady));
    assert_eq!(app.commit(), Ok(7));
    let info = app.info();
    assert_eq!(info.last_block_height, 7);
    assert_eq!(info.app_version, 1);
}

#[test]
fn validate_against_ledger() {
    let ledger = Ledger::new();
    let t = Transaction {
        header: Header { chain_id: ChainId("test".to_string()), expiration: None, timestamp: block_time() },
        chain_id: ChainId("test".to_string()),
        from: Address(A),
        tx_payload: TxPayload::CreateAccount,
        nonce: 2,
    };
    let chain = ChainId("test".to_string());
    assert_eq!(validate_tx(&ledger, &chain, &t, &block_time()), Err(Rejection::BadNonce));
    let t1 = Transaction { nonce: 1, ..t };
    assert_eq!(validate_tx(&ledger, &chain, &t1, &block_time()), Ok(()));
    let other = ChainId("other".to_string());
    assert_eq!(validate_tx(&ledger, &other, &t1, &block_time()), Err(Rejection::WrongChain));
    let mixed = Transaction {
        header: Header { chain_id: ChainId("other".to_string()), expiration: None, timestamp: block_time() },
        ..t1
    };
    assert_eq!(validate_tx(&ledger, &chain, &mixed, &block_time()), Err(Rejection::WrongChain));
}

#[test]
fn commit_then_restore() {
    let mut app = ready_app();
    run(&mut app, 5, vec![create(A), create(B), transfer(A, B, 250, 1)]);
    let mut db = RocksDB::open(vec![], false);
    db.exec_batch(app.commit_batch()).unwrap();
    let back = App::restore(&db).expect("restores");
    assert_eq!(back.phase, Phase::Ready);
    assert_eq!(back.last_block_height, 5);
    assert_eq!(back.state.current_height, 5);
    assert_eq!(back.state.chain_id.0, "test");
    assert_eq!(back.last_block_app_hash, app.last_block_app_hash);
    assert_eq!(back.committed.get(&Address(A)), Some(Account { balance: 999_750, nonce: 1 }));
    assert_eq!(back.state.accounts.get(&Address(B)), Some(Account { balance: 1_000_250, nonce: 0 }));
    assert_eq!(back.state.accounts.commitment(), app.state.accounts.commitment());
    assert!(App::restore(&RocksDB::open(vec![], false)).is_none());
}

#[test]
fn negative_height_round_trips() {
    let mut app = ready_app();
    app.finalize_block(-3, block_time(), &vec![]).unwrap();
    app.commit().unwrap();
    let mut db = RocksDB::open(vec![], false);
    db.exec_batch(app.commit_batch()).unwrap();
    assert_eq!(App::restore(&db).unwrap().last_block_height, -3);
}

#[test]
fn ledger_bytes_round_trip() {
    let mut app = ready_app();
    run(&mut app, 1, vec![create(A), create(C)]);
    let bytes = app.committed.to_bytes();
    assert_eq!(bytes.len(), 88);
    assert_eq!(&bytes[..20], &A[..]);
    assert_eq!(&bytes[20..36], &1_000_000u128.to_le_bytes()[..]);
    let back = Ledger::from_bytes(&bytes).unwrap();
    assert_eq!(back.get(&Address(C)), Some(Account { balance: INITIAL_GRANT, nonce: 0 }));
    assert_eq!(back.len(), 2);
    assert!(Ledger::from_bytes(&bytes[..87]).is_none());
    assert!(Ledger::from_bytes(&[]).unwrap().len() == 0);
}

#[test]
fn ledger_bytes_refuse_duplicates_and_excess_supply() {
    let mut app = ready_app();
    run(&mut app, 1, vec![create(A)]);
    let one = app.committed.to_bytes();
    let mut twice = one.clone();
    twice.extend_from_slice(&one);
    assert!(Ledger::from_bytes(&twice).is_none());
    let mut rich = one.clone();
    rich[20..36].copy_from_slice(&(INITIAL_GRANT + 1).to_le_bytes());
    assert!(Ledger::from_bytes(&rich).is_none());
}

#[test]
fn block_log_lines() {
    let mut app = ready_app();
    let r = app
        .finalize_block(
            1,
            block_time(),
            &vec![create(A), create(A), transfer(C, A, 1, 1), transfer(A, A, 1, 1), transfer(A, A, 1, 1), transfer(A, A, INITIAL_GRANT + 1, 2)],
        )
        .unwrap();
    let a_hex = "aa".repeat(20);
    let c_hex = "cc".repeat(20);
    assert_eq!(r.logs[0], format!("account 0x{a_hex} created successfully"));
    assert_eq!(r.logs[1], format!("account 0x{a_hex} already exists"));
    assert_eq!(r.logs[2], format!("account 0x{c_hex} not found"));
    assert_eq!(r.logs[3], "transaction complete");
    assert_eq!(r.logs[4], "incorrect nonce");
    assert_eq!(r.logs[5], "insufficient funds");
}

#[test]
fn foreign_chain_rejected_in_block() {
    let mut app = App::new();
    app.init_chain("my-chain".to_string()).unwrap();
    let r = app.finalize_block(1, block_time(), &vec![create(A)]).unwrap();
    assert_eq!(r.outcomes[0], TxOutcome::Rejected(Rejection::WrongChain));
    assert_eq!(r.outcomes[0].code(), CODE_BAD_NONCE);
    assert_eq!(r.logs[0], "wrong chain id");
    assert_eq!(app.state.accounts.len(), 0);
}

#[test]
fn new_app_is_on_test_chain() {
    let app = App::new();
    assert_eq!(app.state.chain_id.0, "test");
    assert_eq!(app.state.current_height, 0);
}

#[test]
fn foreign_chain_checked_after_other_rules() {
    let mut app = App::new();
    app.init_chain("my-chain".to_string()).unwrap();
    let past = DateTimeUtc { secs: 1, nanos: 0 };
    let r = app
        .finalize_block(
            1,
            block_time(),
            &vec![
                tx(A, 1, TxPayload::CreateAccount, Some(past)),
                tx(A, 2, TxPayload::CreateAccount, None),
                transfer(A, B, 5, 1),
            ],
        )
        .unwrap();
    assert_eq!(r.outcomes[0], TxOutcome::Rejected(Rejection::Expired));
    assert_eq!(r.outcomes[0].code(), CODE_EXPIRED);
    assert_eq!(r.outcomes[1], TxOutcome::Rejected(Rejection::BadNonce));
    assert_eq!(r.outcomes[2], TxOutcome::Rejected(Rejection::UnknownRecipient));
    assert_eq!(r.outcomes[2].code(), CODE_INSUFFICIENT_FUNDS);
}
