//! The application adapter: the InitChain / CheckTx / FinalizeBlock / Commit
//! life cycle, and the committed state as it is stored and restored.

use vstd::prelude::*;
use crate::codec::{decode, decoded, le_bytes, lemma_le_value_bytes, lemma_pow256_values, push_le, read_le};
use crate::common::{string_from_utf8, ChainId, DateTimeUtc};
use crate::executor::{
    apply_tx, block_outcomes, byte_views, lemma_applied_len, outcome_log, outcome_text, run_block,
    step, validate_tx, validation, TxOutcome,
};
use crate::ledger::{jmt_root, ledger_bytes, leaves, valid_entries, Account, Ledger};
use crate::rocksdb::{ColumnFamily, RocksDB, RocksDBWriteBatch};
use vstd::utf8::encode_utf8;

verus! {

/// Where the adapter stands between consensus calls.
#[derive(Clone, Copy, Debug, PartialEq, Eq, Structural)]
pub enum Phase {
    Uninitialized,
    Ready,
    Finalized,
}

/// A consensus call that came out of order.
#[derive(Clone, Copy, Debug, PartialEq, Eq, Structural)]
pub enum AppError {
    AlreadyInitialized,
    NotReady,
    NothingToCommit,
}

/// The ledger being built by the current block.
pub struct State {
    pub chain_id: ChainId,
    pub current_height: i64,
    pub accounts: Ledger,
}

/// The outcome of each transaction of a block, its log line, and the new commitment.
pub struct BlockResult {
    pub outcomes: Vec<TxOutcome>,
    pub logs: Vec<String>,
    pub app_hash: [u8; 32],
}

/// The answer to CheckTx.
pub struct CheckResult {
    pub outcome: TxOutcome,
    pub log: String,
}

/// Static metadata and the last committed block.
pub struct AppInfo {
    pub app_version: u64,
    pub last_block_height: i64,
    pub last_block_app_hash: Vec<u8>,
}

pub const APP_VERSION: u64 = 1;

/// Store key of the committed accounts.
pub const KEY_ACCOUNTS: u8 = 0;

/// Store key of the last committed height.
pub const KEY_HEIGHT: u8 = 1;

/// Store key of the last committed commitment.
pub const KEY_APP_HASH: u8 = 2;

/// Store key of the chain identity.
pub const KEY_CHAIN_ID: u8 = 3;

fn store_key(k: u8) -> (r: Vec<u8>)
    ensures
        r@ == seq![k],
{
    let mut v: Vec<u8> = Vec::new();
    v.push(k);
    v
}

/// A height as an unsigned 64-bit number: its two's-complement bits.
pub open spec fn height_code(h: i64) -> nat {
    if h >= 0 {
        h as nat
    } else {
        (h + 0x1_0000_0000_0000_0000) as nat
    }
}

/// The stored form of a height, little-endian.
pub open spec fn height_bytes(h: i64) -> Seq<u8> {
    le_bytes(height_code(h), 8)
}

fn height_to_code(h: i64) -> (r: u128)
    ensures
        r == height_code(h),
{
    if h >= 0 {
        h as u128
    } else {
        ((h - i64::MIN) as u128) + 0x8000_0000_0000_0000
    }
}

fn height_from_code(v: u128) -> (r: i64)
    requires
        v < 0x1_0000_0000_0000_0000,
    ensures
        height_code(r) == v,
{
    if v < 0x8000_0000_0000_0000 {
        v as i64
    } else {
        ((v - 0x8000_0000_0000_0000) as i64) + i64::MIN
    }
}

/// The replicated state machine behind the consensus engine.
pub struct App {
    pub state: State,
    /// The accounts as of the last Commit; CheckTx reads only these.
    pub committed: Ledger,
    pub last_block_height: i64,
    pub last_block_app_hash: Vec<u8>,
    pub pending_app_hash: [u8; 32],
    pub phase: Phase,
    /// A block has been finalized, here or before a restart: genesis is over.
    pub started: bool,
}

impl App {
    pub open spec fn wf(&self) -> bool {
        &&& self.state.accounts.wf()
        &&& self.committed.wf()
        &&& (self.phase == Phase::Finalized ==> self.started)
    }

    /// A fresh adapter on chain `test` with no accounts, waiting for InitChain.
    pub fn new() -> (r: App)
        ensures
            r.wf(),
            r.phase == Phase::Uninitialized,
            r.state.accounts@ == Seq::<(Seq<u8>, Account)>::empty(),
            r.committed@ == Seq::<(Seq<u8>, Account)>::empty(),
            r.state.current_height == 0,
            r.last_block_height == 0,
            r.last_block_app_hash@.len() == 0,
            r.state.chain_id@ == "test"@,
    {
        App {
            state: State {
                chain_id: ChainId("test".to_owned()),
                current_height: 0,
                accounts: Ledger::new(),
            },
            committed: Ledger::new(),
            last_block_height: 0,
            last_block_app_hash: Vec::new(),
            pending_app_hash: [0u8; 32],
            phase: Phase::Uninitialized,
            started: false,
        }
    }

    /// Static metadata and the last committed height and commitment.
    pub fn info(&self) -> (r: AppInfo)
        ensures
            r.app_version == APP_VERSION,
            r.last_block_height == self.last_block_height,
            r.last_block_app_hash@ == self.last_block_app_hash@,
    {
        AppInfo {
            app_version: APP_VERSION,
            last_block_height: self.last_block_height,
            last_block_app_hash: vstd::slice::slice_to_vec(self.last_block_app_hash.as_slice()),
        }
    }

    /// Sets the chain identity at genesis, again if called again before the first
    /// block; refused once a block has been finalized.
    pub fn init_chain(&mut self, chain_id: String) -> (r: Result<(), AppError>)
        requires
            old(self).wf(),
        ensures
            final(self).wf(),
            !old(self).started ==> {
                &&& r is Ok
                &&& final(self).phase == Phase::Ready
                &&& final(self).started == old(self).started
                &&& final(self).state.chain_id@ == chain_id@
                &&& final(self).state.accounts@ == old(self).state.accounts@
                &&& final(self).committed@ == old(self).committed@
                &&& final(self).state.current_height == old(self).state.current_height
                &&& final(self).last_block_height == old(self).last_block_height
                &&& final(self).last_block_app_hash == old(self).last_block_app_hash
                &&& final(self).pending_app_hash == old(self).pending_app_hash
            },
            old(self).started ==> r == Err::<(), AppError>(AppError::AlreadyInitialized)
                && *final(self) == *old(self),
    {
        if self.started {
            return Err(AppError::AlreadyInitialized);
        }
        self.state.chain_id = ChainId(chain_id);
        self.phase = Phase::Ready;
        Ok(())
    }

    /// Decodes and admits a transaction against the last committed accounts,
    /// at time `now`; nothing is changed.
    pub fn check_tx(&self, tx: &[u8], now: &DateTimeUtc) -> (r: CheckResult)
        requires
            self.wf(),
        ensures
            r.outcome == step(self.committed@, self.state.chain_id@, tx@, *now).1,
            r.log@ == outcome_text(r.outcome, decoded(tx@)),
    {
        match decode(tx) {
            Err(_) => {
                let outcome = TxOutcome::DecodeFailed;
                CheckResult { outcome, log: outcome_log(&outcome, None) }
            },
            Ok(t) => {
                let outcome = match validate_tx(&self.committed, &self.state.chain_id, &t, now) {
                    Err(e) => TxOutcome::Rejected(e),
                    Ok(()) => TxOutcome::Applied,
                };
                CheckResult { outcome, log: outcome_log(&outcome, Some(&t)) }
            },
        }
    }

    /// Runs the transactions of a block in order at block time `time`, then
    /// recomputes the commitment over all accounts.
    pub fn finalize_block(&mut self, height: i64, time: DateTimeUtc, txs: &Vec<Vec<u8>>) -> (r:
        Result<BlockResult, AppError>)
        requires
            old(self).wf(),
            old(self).state.accounts@.len() + txs@.len() < usize::MAX,
        ensures
            final(self).wf(),
            old(self).phase != Phase::Ready ==> (r matches Err(e) && e == AppError::NotReady)
                && *final(self) == *old(self),
            old(self).phase == Phase::Ready ==> {
                &&& final(self).state.accounts@ == run_block(
                    old(self).state.accounts@, old(self).state.chain_id@,
                    byte_views(txs@),
                    time,
                )
                &&& final(self).state.current_height == height
                &&& final(self).state.chain_id@ == old(self).state.chain_id@
                &&& final(self).last_block_app_hash == old(self).last_block_app_hash
                &&& final(self).started
                &&& final(self).committed@ == old(self).committed@
                &&& final(self).last_block_height == old(self).last_block_height
                &&& r is Ok
                &&& r matches Ok(b) && {
                    &&& b.outcomes@ == block_outcomes(
                        old(self).state.accounts@, old(self).state.chain_id@,
                        byte_views(txs@),
                        time,
                    )
                    &&& b.logs@.len() == txs@.len()
                    &&& forall|i: int|
                        0 <= i < txs@.len() ==> (#[trigger] b.logs@[i])@ == outcome_text(
                            b.outcomes@[i],
                            decoded(txs@[i]@),
                        )
                    &&& b.app_hash@ == jmt_root(leaves(final(self).state.accounts@))
                    &&& final(self).pending_app_hash == b.app_hash
                    &&& final(self).phase == Phase::Finalized
                }
            },
    {
        if self.phase != Phase::Ready {
            return Err(AppError::NotReady);
        }
        self.state.current_height = height;
        self.started = true;
        let ghost s0 = self.state.accounts@;
        let ghost c_id = self.state.chain_id@;
        let ghost c0 = self.committed@;
        let ghost bs = byte_views(txs@);
        let mut outcomes: Vec<TxOutcome> = Vec::new();
        let mut logs: Vec<String> = Vec::new();
        let mut k: usize = 0;
        assert(bs.subrange(0, 0) =~= Seq::<Seq<u8>>::empty());
        while k < txs.len()
            invariant
                0 <= k <= txs@.len(),
                bs == byte_views(txs@),
                s0.len() + txs@.len() < usize::MAX,
                self.state.accounts.wf(),
                self.state.chain_id@ == c_id,
                self.last_block_app_hash == old(self).last_block_app_hash,
                self.started,
                self.state.accounts@ == run_block(s0, c_id, bs.subrange(0, k as int), time),
                outcomes@ == block_outcomes(s0, c_id, bs.subrange(0, k as int), time),
                logs@.len() == k,
                outcomes@.len() == k,
                forall|i: int|
                    0 <= i < k ==> (#[trigger] logs@[i])@ == outcome_text(
                        outcomes@[i],
                        decoded(txs@[i]@),
                    ),
                self.state.accounts@.len() <= s0.len() + k,
                self.committed.wf(),
                self.committed@ == c0,
                self.phase == Phase::Ready,
                self.state.current_height == height,
                self.last_block_height == old(self).last_block_height,
            decreases txs@.len() - k,
        {
            let ghost before = self.state.accounts@;
            let ghost b = txs@[k as int]@;
            let (outcome, log) = match decode(txs[k].as_slice()) {
                Err(_) => {
                    let o = TxOutcome::DecodeFailed;
                    let l = outcome_log(&o, None);
                    assert(l@ == outcome_text(o, decoded(b)));
                    (o, l)
                },
                Ok(t) => {
                    let o = match validate_tx(&self.state.accounts, &self.state.chain_id, &t, &time) {
                        Err(e) => TxOutcome::Rejected(e),
                        Ok(()) => {
                            apply_tx(&mut self.state.accounts, &t, &time);
                            TxOutcome::Applied
                        },
                    };
                    let l = outcome_log(&o, Some(&t));
                    assert(l@ == outcome_text(o, decoded(b)));
                    (o, l)
                },
            };
            let ghost logs_before = logs@;
            let ghost outcomes_before = outcomes@;
            outcomes.push(outcome);
            logs.push(log);
            assert forall|i: int| 0 <= i < k + 1 implies (#[trigger] logs@[i])@ == outcome_text(
                outcomes@[i],
                decoded(txs@[i]@),
            ) by {
                if i < k {
                    assert(logs@[i] == logs_before[i]);
                    assert(outcomes@[i] == outcomes_before[i]);
                }
            }
            proof {
                let pre = bs.subrange(0, k as int);
                let post = bs.subrange(0, k + 1);
                assert(post.drop_last() =~= pre);
                assert(post.last() == txs@[k as int]@);
                assert(step(before, c_id, txs@[k as int]@, time).0 == self.state.accounts@);
                if let Some(t) = decoded(txs@[k as int]@) {
                    if validation(before, c_id, t, time) is Ok {
                        lemma_applied_len(before, c_id, t, time);
                    }
                }
            }
            k = k + 1;
        }
        assert(bs.subrange(0, k as int) =~= bs);
        let h = self.state.accounts.commitment();
        self.pending_app_hash = h;
        self.phase = Phase::Finalized;
        Ok(BlockResult { outcomes, logs, app_hash: h })
    }

    /// The writes that make the committed baseline durable: accounts, height,
    /// commitment and chain identity, as one batch.
    pub fn commit_batch(&self) -> (r: RocksDBWriteBatch)
        ensures
            r@ == seq![
                (seq![KEY_ACCOUNTS], ledger_bytes(self.committed@)),
                (seq![KEY_HEIGHT], height_bytes(self.last_block_height)),
                (seq![KEY_APP_HASH], self.last_block_app_hash@),
                (seq![KEY_CHAIN_ID], encode_utf8(self.state.chain_id@)),
            ],
    {
        let mut batch = RocksDBWriteBatch::new();
        batch.put(ColumnFamily::State, store_key(KEY_ACCOUNTS), self.committed.to_bytes());
        let mut h: Vec<u8> = Vec::new();
        push_le(&mut h, height_to_code(self.last_block_height), 8);
        assert(h@ =~= height_bytes(self.last_block_height));
        batch.put(ColumnFamily::State, store_key(KEY_HEIGHT), h);
        batch.put(
            ColumnFamily::State,
            store_key(KEY_APP_HASH),
            vstd::slice::slice_to_vec(self.last_block_app_hash.as_slice()),
        );
        batch.put(
            ColumnFamily::State,
            store_key(KEY_CHAIN_ID),
            vstd::slice::slice_to_vec(self.state.chain_id.0.as_str().as_bytes()),
        );
        assert(batch@ =~= seq![
            (seq![KEY_ACCOUNTS], ledger_bytes(self.committed@)),
            (seq![KEY_HEIGHT], height_bytes(self.last_block_height)),
            (seq![KEY_APP_HASH], self.last_block_app_hash@),
            (seq![KEY_CHAIN_ID], encode_utf8(self.state.chain_id@)),
        ]);
        batch
    }

    /// Rebuilds the adapter after a restart from what `commit_batch` stored:
    /// ready for the next block, with the committed accounts as working state.
    pub fn restore(db: &RocksDB) -> (r: Option<App>)
        ensures
            r matches Some(a) ==> {
                &&& a.wf()
                &&& a.phase == Phase::Ready
                &&& db@.contains_key(seq![KEY_ACCOUNTS])
                &&& ledger_bytes(a.committed@) == db@[seq![KEY_ACCOUNTS]]
                &&& a.state.accounts@ == a.committed@
                &&& db@.contains_key(seq![KEY_HEIGHT])
                &&& height_bytes(a.last_block_height) == db@[seq![KEY_HEIGHT]]
                &&& a.state.current_height == a.last_block_height
                &&& db@.contains_key(seq![KEY_APP_HASH])
                &&& a.last_block_app_hash@ == db@[seq![KEY_APP_HASH]]
                &&& db@.contains_key(seq![KEY_CHAIN_ID])
                &&& encode_utf8(a.state.chain_id@) == db@[seq![KEY_CHAIN_ID]]
            },
            forall|s: Seq<(Seq<u8>, Account)>, h: i64, c: Seq<char>|
                db@.contains_key(seq![KEY_ACCOUNTS]) && valid_entries(s) && #[trigger] ledger_bytes(s)
                    == db@[seq![KEY_ACCOUNTS]] && db@.contains_key(seq![KEY_HEIGHT])
                    && #[trigger] height_bytes(h) == db@[seq![KEY_HEIGHT]]
                    && db@.contains_key(seq![KEY_APP_HASH]) && db@.contains_key(seq![KEY_CHAIN_ID])
                    && #[trigger] encode_utf8(c) == db@[seq![KEY_CHAIN_ID]] ==> (r matches Some(a)
                    && a.committed@ == s && a.last_block_height == h && a.state.chain_id@ == c),
    {
        proof {
            lemma_pow256_values();
        }
        let accounts_bytes = db.read_value_bytes(ColumnFamily::State, store_key(KEY_ACCOUNTS).as_slice());
        let height_raw = db.read_value_bytes(ColumnFamily::State, store_key(KEY_HEIGHT).as_slice());
        let hash = db.read_value_bytes(ColumnFamily::State, store_key(KEY_APP_HASH).as_slice());
        let chain_raw = db.read_value_bytes(ColumnFamily::State, store_key(KEY_CHAIN_ID).as_slice());
        let (accounts_bytes, height_raw, hash, chain_raw) = match (accounts_bytes, height_raw, hash, chain_raw) {
            (Some(a), Some(h), Some(x), Some(c)) => (a, h, x, c),
            _ => {
                return None;
            },
        };
        let committed = match Ledger::from_bytes(accounts_bytes.as_slice()) {
            Some(l) => l,
            None => {
                return None;
            },
        };
        if height_raw.len() != 8 {
            proof {
                assert forall|h: i64| #[trigger] height_bytes(h).len() == 8 by {
                    crate::codec::lemma_le_bytes_len(height_code(h), 8);
                }
            }
            return None;
        }
        let hv = read_le(height_raw.as_slice(), 0, 8).unwrap();
        proof {
            assert(height_raw@.subrange(0, 8) =~= height_raw@);
            lemma_le_value_bytes(height_raw@);
        }
        let height: i64 = height_from_code(hv);
        proof {
            assert(height_bytes(height) == height_raw@);
            assert forall|h: i64| #[trigger] height_bytes(h) == height_raw@ implies h == height by {
                crate::codec::lemma_le_round(height_code(h), 8);
            }
        }
        let ghost chain_bytes = chain_raw@;
        let chain_id = match string_from_utf8(chain_raw) {
            Some(c) => c,
            None => {
                proof {
                    assert forall|c: Seq<char>| #[trigger] encode_utf8(c) == chain_bytes implies false by {
                        vstd::utf8::encode_utf8_valid_utf8(c);
                    }
                }
                return None;
            },
        };
        proof {
            vstd::utf8::decode_utf8_encode_utf8(chain_bytes);
            assert forall|c: Seq<char>| #[trigger] encode_utf8(c) == chain_bytes implies c == chain_id@ by {
                vstd::utf8::encode_utf8_decode_utf8(c);
            }
        }
        let accounts = committed.snapshot();
        Some(App {
            state: State { chain_id: ChainId(chain_id), current_height: height, accounts },
            committed,
            last_block_height: height,
            last_block_app_hash: hash,
            pending_app_hash: [0u8; 32],
            phase: Phase::Ready,
            started: true,
        })
    }

    /// Makes the last finalized block the committed baseline.
    pub fn commit(&mut self) -> (r: Result<i64, AppError>)
        requires
            old(self).wf(),
        ensures
            final(self).wf(),
            old(self).phase != Phase::Finalized ==> r == Err::<i64, AppError>(
                AppError::NothingToCommit,
            ) && *final(self) == *old(self),
            old(self).phase == Phase::Finalized ==> {
                &&& r == Ok::<i64, AppError>(old(self).state.current_height)
                &&& final(self).committed@ == old(self).state.accounts@
                &&& final(self).state.accounts@ == old(self).state.accounts@
                &&& final(self).last_block_height == old(self).state.current_height
                &&& final(self).last_block_app_hash@ == old(self).pending_app_hash@
                &&& final(self).phase == Phase::Ready
            },
    {
        if self.phase != Phase::Finalized {
            return Err(AppError::NothingToCommit);
        }
        self.committed = self.state.accounts.snapshot();
        self.last_block_height = self.state.current_height;
        self.last_block_app_hash = vstd::slice::slice_to_vec(self.pending_app_hash.as_slice());
        self.phase = Phase::Ready;
        Ok(self.state.current_height)
    }
}

} // verus!
