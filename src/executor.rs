//! Admission rules and block execution: which transactions are admitted
//! against a ledger, what applying one does, and what a block of raw
//! transactions does, in order.

use vstd::prelude::*;
use crate::codec::decoded;
use crate::common::{address_text, ChainId, DateTimeUtc};
use vstd::string::StringExecFns;
use crate::ledger::{
    index_of, jmt_root, key_seq, keys_unique, leaves, lemma_index_of, lemma_keys_update,
    lemma_total_bounds, lemma_total_nonneg, lemma_total_update, lookup, total, Account, Ledger,
    INITIAL_GRANT,
};
use crate::transaction::{PayloadView, Transaction, TxPayload, TxView};

verus! {


pub const CODE_OK: u32 = 0;

pub const CODE_DECODE_ERROR: u32 = 1;

pub const CODE_EXPIRED: u32 = 3;

pub const CODE_INSUFFICIENT_FUNDS: u32 = 5;

pub const CODE_BAD_NONCE: u32 = 7;

/// Why a transaction was not admitted.
#[derive(Clone, Copy, Debug, PartialEq, Eq, Structural)]
pub enum Rejection {
    WrongChain,
    Expired,
    BadNonce,
    AccountExists,
    UnknownRecipient,
    AccountNotFound,
    InsufficientFunds,
}

impl Rejection {
    pub open spec fn spec_code(self) -> u32 {
        match self {
            Rejection::WrongChain => CODE_BAD_NONCE,
            Rejection::Expired => CODE_EXPIRED,
            Rejection::BadNonce => CODE_BAD_NONCE,
            Rejection::AccountExists => CODE_BAD_NONCE,
            Rejection::UnknownRecipient => CODE_INSUFFICIENT_FUNDS,
            Rejection::AccountNotFound => CODE_INSUFFICIENT_FUNDS,
            Rejection::InsufficientFunds => CODE_INSUFFICIENT_FUNDS,
        }
    }

    /// The stable response code.
    pub fn code(&self) -> (r: u32)
        ensures
            r == self.spec_code(),
    {
        match self {
            Rejection::WrongChain => CODE_BAD_NONCE,
            Rejection::Expired => CODE_EXPIRED,
            Rejection::BadNonce => CODE_BAD_NONCE,
            Rejection::AccountExists => CODE_BAD_NONCE,
            Rejection::UnknownRecipient => CODE_INSUFFICIENT_FUNDS,
            Rejection::AccountNotFound => CODE_INSUFFICIENT_FUNDS,
            Rejection::InsufficientFunds => CODE_INSUFFICIENT_FUNDS,
        }
    }
}

/// What became of one transaction of a block.
#[derive(Clone, Copy, Debug, PartialEq, Eq, Structural)]
pub enum TxOutcome {
    /// Admitted; in a block, also applied.
    Applied,
    DecodeFailed,
    Rejected(Rejection),
}

impl TxOutcome {
    pub open spec fn spec_code(self) -> u32 {
        match self {
            TxOutcome::Applied => CODE_OK,
            TxOutcome::DecodeFailed => CODE_DECODE_ERROR,
            TxOutcome::Rejected(e) => e.spec_code(),
        }
    }

    /// The stable response code.
    pub fn code(&self) -> (r: u32)
        ensures
            r == self.spec_code(),
    {
        match self {
            TxOutcome::Applied => CODE_OK,
            TxOutcome::DecodeFailed => CODE_DECODE_ERROR,
            TxOutcome::Rejected(e) => e.code(),
        }
    }
}

/// The log line that reports an outcome; `tx` is the decoded transaction.
pub open spec fn outcome_text(o: TxOutcome, tx: Option<TxView>) -> Seq<char> {
    match o {
        TxOutcome::DecodeFailed => "failed to parse transaction"@,
        TxOutcome::Applied => match tx {
            Some(t) => match t.payload {
                PayloadView::CreateAccount => "account "@ + address_text(t.from)
                    + " created successfully"@,
                PayloadView::Transfer { .. } => "transaction complete"@,
            },
            None => seq![],
        },
        TxOutcome::Rejected(e) => match e {
            Rejection::WrongChain => "wrong chain id"@,
            Rejection::Expired => "transaction expired"@,
            Rejection::BadNonce => "incorrect nonce"@,
            Rejection::AccountExists => match tx {
                Some(t) => "account "@ + address_text(t.from) + " already exists"@,
                None => seq![],
            },
            Rejection::UnknownRecipient => match tx {
                Some(t) => match t.payload {
                    PayloadView::Transfer { to, .. } => "account "@ + address_text(to)
                        + " does not exist"@,
                    PayloadView::CreateAccount => seq![],
                },
                None => seq![],
            },
            Rejection::AccountNotFound => match tx {
                Some(t) => "account "@ + address_text(t.from) + " not found"@,
                None => seq![],
            },
            Rejection::InsufficientFunds => "insufficient funds"@,
        },
    }
}

fn account_text(a: &crate::common::Address, tail: &str) -> (r: String)
    ensures
        r@ == "account "@ + address_text(a@) + tail@,
{
    let mut s = "account ".to_owned();
    let h = a.to_hex_string();
    s.append(h.as_str());
    s.append(tail);
    s
}

/// The log line for an outcome of the decoded transaction `tx`.
pub fn outcome_log(o: &TxOutcome, tx: Option<&Transaction>) -> (r: String)
    ensures
        r@ == outcome_text(
            *o,
            match tx {
                Some(t) => Some(t@),
                None => None,
            },
        ),
{
    match o {
        TxOutcome::DecodeFailed => "failed to parse transaction".to_owned(),
        TxOutcome::Applied => match tx {
            Some(t) => match &t.tx_payload {
                TxPayload::CreateAccount => account_text(&t.from, " created successfully"),
                TxPayload::Transfer { .. } => "transaction complete".to_owned(),
            },
            None => String::new(),
        },
        TxOutcome::Rejected(e) => match e {
            Rejection::WrongChain => "wrong chain id".to_owned(),
            Rejection::Expired => "transaction expired".to_owned(),
            Rejection::BadNonce => "incorrect nonce".to_owned(),
            Rejection::AccountExists => match tx {
                Some(t) => account_text(&t.from, " already exists"),
                None => String::new(),
            },
            Rejection::UnknownRecipient => match tx {
                Some(t) => match &t.tx_payload {
                    TxPayload::Transfer { to, .. } => account_text(to, " does not exist"),
                    TxPayload::CreateAccount => String::new(),
                },
                None => String::new(),
            },
            Rejection::AccountNotFound => match tx {
                Some(t) => account_text(&t.from, " not found"),
                None => String::new(),
            },
            Rejection::InsufficientFunds => "insufficient funds".to_owned(),
        },
    }
}

/// The nonce of the account at `k`; an unknown address counts as nonce 0.
pub open spec fn current_nonce(s: Seq<(Seq<u8>, Account)>, k: Seq<u8>) -> int {
    match lookup(s, k) {
        Some(a) => a.nonce as int,
        None => 0,
    }
}

/// Both chain identities of the transaction are the running chain's.
pub open spec fn on_chain(chain: Seq<char>, tx: TxView) -> bool {
    tx.chain_id == chain && tx.header.chain_id == chain
}

/// The admission rules, in order; the first that fails decides. A transaction
/// that passes expiry, nonce and account rules but names another chain is
/// refused last, as a replay from elsewhere.
pub open spec fn validation(s: Seq<(Seq<u8>, Account)>, chain: Seq<char>, tx: TxView, now: DateTimeUtc) -> Result<
    (),
    Rejection,
> {
    match admission(s, tx, now) {
        Err(e) => Err(e),
        Ok(_) => if on_chain(chain, tx) {
            Ok(())
        } else {
            Err(Rejection::WrongChain)
        },
    }
}

/// The rules on expiry, nonce and accounts, in order.
pub open spec fn admission(s: Seq<(Seq<u8>, Account)>, tx: TxView, now: DateTimeUtc) -> Result<
    (),
    Rejection,
> {
    if tx.header.expiration matches Some(e) && now.spec_is_after(&e) {
        Err(Rejection::Expired)
    } else if current_nonce(s, tx.from) + 1 != tx.nonce {
        Err(Rejection::BadNonce)
    } else {
        match tx.payload {
            PayloadView::CreateAccount => if lookup(s, tx.from) is Some {
                Err(Rejection::AccountExists)
            } else {
                Ok(())
            },
            PayloadView::Transfer { to, amount } => if lookup(s, to) is None {
                Err(Rejection::UnknownRecipient)
            } else if lookup(s, tx.from) is None {
                Err(Rejection::AccountNotFound)
            } else if lookup(s, tx.from)->0.balance < amount {
                Err(Rejection::InsufficientFunds)
            } else {
                Ok(())
            },
        }
    }
}

/// The ledger after an admitted transaction.
pub open spec fn applied(s: Seq<(Seq<u8>, Account)>, tx: TxView) -> Seq<(Seq<u8>, Account)> {
    match tx.payload {
        PayloadView::CreateAccount => s.push((tx.from, Account { balance: INITIAL_GRANT, nonce: 0 })),
        PayloadView::Transfer { to, amount } => {
            let i = index_of(s, tx.from);
            let f = s[i].1;
            let s1 = s.update(
                i,
                (s[i].0, Account { balance: (f.balance - amount) as u128, nonce: (f.nonce + 1) as u64 }),
            );
            let j = index_of(s1, to);
            let t = s1[j].1;
            s1.update(j, (s1[j].0, Account { balance: (t.balance + amount) as u128, nonce: t.nonce }))
        },
    }
}

pub proof fn lemma_applied_len(s: Seq<(Seq<u8>, Account)>, chain: Seq<char>, tx: TxView, now: DateTimeUtc)
    requires
        keys_unique(s),
        validation(s, chain, tx, now) is Ok,
    ensures
        applied(s, tx).len() <= s.len() + 1,
{
    if let PayloadView::Transfer { to, amount } = tx.payload {
        lemma_index_of(s, tx.from);
        let i = index_of(s, tx.from);
        let f = s[i].1;
        let a = Account { balance: (f.balance - amount) as u128, nonce: (f.nonce + 1) as u64 };
        lemma_keys_update(s, i, a);
        lemma_index_of(s, to);
        let s1 = s.update(i, (s[i].0, a));
        assert(index_of(s1, to) == index_of(s, to));
    }
}

/// One transaction of a block: decode, admit, apply.
pub open spec fn step(s: Seq<(Seq<u8>, Account)>, chain: Seq<char>, b: Seq<u8>, now: DateTimeUtc) -> (
    Seq<(Seq<u8>, Account)>,
    TxOutcome,
) {
    match decoded(b) {
        None => (s, TxOutcome::DecodeFailed),
        Some(t) => match validation(s, chain, t, now) {
            Err(e) => (s, TxOutcome::Rejected(e)),
            Ok(_) => (applied(s, t), TxOutcome::Applied),
        },
    }
}

/// The ledger after the transactions of a block, in order.
pub open spec fn run_block(s: Seq<(Seq<u8>, Account)>, chain: Seq<char>, txs: Seq<Seq<u8>>, now: DateTimeUtc) -> Seq<
    (Seq<u8>, Account),
>
    decreases txs.len(),
{
    if txs.len() == 0 {
        s
    } else {
        step(run_block(s, chain, txs.drop_last(), now), chain, txs.last(), now).0
    }
}

/// The outcome of each transaction of a block.
pub open spec fn block_outcomes(
    s: Seq<(Seq<u8>, Account)>,
    chain: Seq<char>,
    txs: Seq<Seq<u8>>,
    now: DateTimeUtc,
) -> Seq<TxOutcome>
    decreases txs.len(),
{
    if txs.len() == 0 {
        seq![]
    } else {
        block_outcomes(s, chain, txs.drop_last(), now).push(
            step(run_block(s, chain, txs.drop_last(), now), chain, txs.last(), now).1,
        )
    }
}

pub open spec fn byte_views(txs: Seq<Vec<u8>>) -> Seq<Seq<u8>> {
    txs.map_values(|v: Vec<u8>| v@)
}

/// Checks a decoded transaction against the accounts of chain `chain_id`, at time `now`.
pub fn validate_tx(ledger: &Ledger, chain_id: &ChainId, tx: &Transaction, now: &DateTimeUtc) -> (r:
    Result<(), Rejection>)
    requires
        ledger.wf(),
    ensures
        r == validation(ledger@, chain_id@, tx@, *now),
{
    if let Some(expiration) = &tx.header.expiration {
        if now.is_after(expiration) {
            return Err(Rejection::Expired);
        }
    }
    let from = ledger.get(&tx.from);
    let curr_nonce: u64 = match from {
        Some(a) => a.nonce,
        None => 0,
    };
    if curr_nonce == u64::MAX || curr_nonce + 1 != tx.nonce {
        return Err(Rejection::BadNonce);
    }
    match &tx.tx_payload {
        TxPayload::CreateAccount => {
            if from.is_some() {
                return Err(Rejection::AccountExists);
            }
        },
        TxPayload::Transfer { to, amount } => {
            if !ledger.contains(to) {
                return Err(Rejection::UnknownRecipient);
            }
            match from {
                None => {
                    return Err(Rejection::AccountNotFound);
                },
                Some(a) => {
                    if a.balance < *amount {
                        return Err(Rejection::InsufficientFunds);
                    }
                },
            }
        },
    }
    if !(tx.chain_id.0 == chain_id.0) || !(tx.header.chain_id.0 == chain_id.0) {
        return Err(Rejection::WrongChain);
    }
    Ok(())
}

/// Applies an admitted transaction.
pub fn apply_tx(ledger: &mut Ledger, tx: &Transaction, now: &DateTimeUtc)
    requires
        old(ledger).wf(),
        admission(old(ledger)@, tx@, *now) is Ok,
        old(ledger)@.len() < usize::MAX,
    ensures
        final(ledger).wf(),
        final(ledger)@ == applied(old(ledger)@, tx@),
{
    proof {
        lemma_index_of(ledger@, tx.from@);
    }
    match &tx.tx_payload {
        TxPayload::CreateAccount => {
            ledger.insert_new(tx.from, Account { balance: INITIAL_GRANT, nonce: 0 });
        },
        TxPayload::Transfer { to, amount } => {
            let ghost s = ledger@;
            let i = ledger.find(&tx.from).unwrap();
            let f = ledger.get(&tx.from).unwrap();
            proof {
                lemma_total_bounds(s, i as int, i as int);
            }
            ledger.set_at(i, Account { balance: f.balance - *amount, nonce: f.nonce + 1 });
            let ghost s1 = ledger@;
            proof {
                let debited = Account { balance: (f.balance - *amount) as u128, nonce: (f.nonce + 1) as u64 };
                lemma_keys_update(s, i as int, debited);
                lemma_total_update(s, i as int, (s[i as int].0, debited));
                lemma_index_of(s1, to@);
                lemma_index_of(s, to@);
            }
            let j = ledger.find(to).unwrap();
            let t = ledger.get(to).unwrap();
            proof {
                lemma_total_bounds(s1, i as int, j as int);
                lemma_total_nonneg(s1);
                assert(INITIAL_GRANT * s1.len() <= INITIAL_GRANT * usize::MAX) by (nonlinear_arith)
                    requires s1.len() <= usize::MAX;
            }
            ledger.set_at(j, Account { balance: t.balance + *amount, nonce: t.nonce });
        },
    }
}

/// How the accounts stand after an admitted transaction: addresses keep their
/// places, every account stays, and no nonce goes down.
proof fn lemma_applied_accounts(s: Seq<(Seq<u8>, Account)>, chain: Seq<char>, tx: TxView, now: DateTimeUtc, k: Seq<u8>)
    requires
        keys_unique(s),
        validation(s, chain, tx, now) is Ok,
    ensures
        keys_unique(applied(s, tx)),
        lookup(s, k) is Some ==> lookup(applied(s, tx), k) is Some && lookup(applied(s, tx), k)->0.nonce
            >= lookup(s, k)->0.nonce,
        k == tx.from ==> lookup(applied(s, tx), k) is Some,
        k == tx.from && tx.payload is Transfer ==> lookup(applied(s, tx), k)->0.nonce == tx.nonce,
        k == tx.from && tx.payload is CreateAccount ==> lookup(applied(s, tx), k) == Some(
            Account { balance: INITIAL_GRANT, nonce: 0 },
        ),
{
    lemma_index_of(s, k);
    lemma_index_of(s, tx.from);
    match tx.payload {
        PayloadView::CreateAccount => {
            let s2 = applied(s, tx);
            assert(s2.drop_last() =~= s);
            assert(key_seq(s2).drop_last() =~= key_seq(s));
            assert(keys_unique(s2));
            if k != tx.from {
                assert(key_seq(s2).last() != k);
                assert(index_of(s2, k) == index_of(s, k));
            }
        },
        PayloadView::Transfer { to, amount } => {
            let i = index_of(s, tx.from);
            let f = s[i].1;
            let a = Account { balance: (f.balance - amount) as u128, nonce: (f.nonce + 1) as u64 };
            let s1 = s.update(i, (s[i].0, a));
            lemma_keys_update(s, i, a);
            lemma_index_of(s, to);
            let j = index_of(s1, to);
            let t = s1[j].1;
            let b = Account { balance: (t.balance + amount) as u128, nonce: t.nonce };
            lemma_keys_update(s1, j, b);
            let s2 = s1.update(j, (s1[j].0, b));
            assert(forall|m: int| 0 <= m < s.len() ==> s2[m].0 == s[m].0);
            assert(keys_unique(s2));
            assert(index_of(s2, k) == index_of(s, k));
        },
    }
}

proof fn lemma_step_accounts(s: Seq<(Seq<u8>, Account)>, chain: Seq<char>, b: Seq<u8>, now: DateTimeUtc, k: Seq<u8>)
    requires
        keys_unique(s),
    ensures
        keys_unique(step(s, chain, b, now).0),
        lookup(s, k) is Some ==> lookup(step(s, chain, b, now).0, k) is Some && lookup(
            step(s, chain, b, now).0,
            k,
        )->0.nonce >= lookup(s, k)->0.nonce,
{
    if let Some(t) = decoded(b) {
        if validation(s, chain, t, now) is Ok {
            lemma_applied_accounts(s, chain, t, now, k);
        }
    }
}

proof fn lemma_run_block_accounts(
    s: Seq<(Seq<u8>, Account)>,
    chain: Seq<char>,
    txs: Seq<Seq<u8>>,
    now: DateTimeUtc,
    k: Seq<u8>,
)
    requires
        keys_unique(s),
    ensures
        keys_unique(run_block(s, chain, txs, now)),
        lookup(s, k) is Some ==> lookup(run_block(s, chain, txs, now), k) is Some && lookup(
            run_block(s, chain, txs, now),
            k,
        )->0.nonce >= lookup(s, k)->0.nonce,
    decreases txs.len(),
{
    if txs.len() > 0 {
        lemma_run_block_accounts(s, chain, txs.drop_last(), now, k);
        lemma_step_accounts(run_block(s, chain, txs.drop_last(), now), chain, txs.last(), now, k);
    }
}

/// An account is created exactly once: `CreateAccount` from an unused address is
/// admitted when it is unexpired, carries nonce 1 and names the running chain, it opens the account with the
/// initial grant, and any later `CreateAccount` from that address, in the rest of the
/// block or in any later block, is refused, with `AccountExists` when it is unexpired
/// and its nonce is right.
pub proof fn lemma_create_account_once(
    s: Seq<(Seq<u8>, Account)>,
    chain: Seq<char>,
    tx: TxView,
    now: DateTimeUtc,
    rest: Seq<Seq<u8>>,
    later_now: DateTimeUtc,
    tx2: TxView,
    now2: DateTimeUtc,
)
    requires
        keys_unique(s),
        tx.payload is CreateAccount,
        lookup(s, tx.from) is None,
        tx2.payload is CreateAccount,
        tx2.from == tx.from,
    ensures
        validation(s, chain, tx, now) is Ok <==> (on_chain(chain, tx) && !(tx.header.expiration matches Some(e)
            && now.spec_is_after(&e)) && tx.nonce == 1),
        validation(s, chain, tx, now) is Ok ==> lookup(applied(s, tx), tx.from) == Some(
            Account { balance: INITIAL_GRANT, nonce: 0 },
        ),
        validation(s, chain, tx, now) is Ok ==> validation(
            run_block(applied(s, tx), chain, rest, later_now), chain,
            tx2,
            now2,
        ) is Err,
        validation(s, chain, tx, now) is Ok && !(tx2.header.expiration matches Some(e)
            && now2.spec_is_after(&e)) && tx2.nonce == current_nonce(
            run_block(applied(s, tx), chain, rest, later_now),
            tx.from,
        ) + 1 ==> validation(run_block(applied(s, tx), chain, rest, later_now), chain, tx2, now2) == Err::<
            (),
            Rejection,
        >(Rejection::AccountExists),
{
    if validation(s, chain, tx, now) is Ok {
        lemma_applied_accounts(s, chain, tx, now, tx.from);
        lemma_run_block_accounts(applied(s, tx), chain, rest, later_now, tx.from);
    }
}

/// A transfer that was applied cannot be applied again: replayed with the same
/// nonce, in the same block or later, it is refused, with `BadNonce` when unexpired.
pub proof fn lemma_replay_rejected(
    s: Seq<(Seq<u8>, Account)>,
    chain: Seq<char>,
    tx: TxView,
    now: DateTimeUtc,
    rest: Seq<Seq<u8>>,
    later_now: DateTimeUtc,
    now2: DateTimeUtc,
)
    requires
        keys_unique(s),
        tx.payload is Transfer,
        validation(s, chain, tx, now) is Ok,
    ensures
        validation(run_block(applied(s, tx), chain, rest, later_now), chain, tx, now2) is Err,
        !(tx.header.expiration matches Some(e) && now2.spec_is_after(&e)) ==> validation(
            run_block(applied(s, tx), chain, rest, later_now), chain,
            tx,
            now2,
        ) == Err::<(), Rejection>(Rejection::BadNonce),
{
    lemma_applied_accounts(s, chain, tx, now, tx.from);
    lemma_run_block_accounts(applied(s, tx), chain, rest, later_now, tx.from);
}

/// An admitted transfer leaves the sum of all balances unchanged.
pub proof fn lemma_transfer_preserves_supply(s: Seq<(Seq<u8>, Account)>, chain: Seq<char>, tx: TxView, now: DateTimeUtc)
    requires
        keys_unique(s),
        total(s) <= u128::MAX,
        tx.payload is Transfer,
        validation(s, chain, tx, now) is Ok,
    ensures
        total(applied(s, tx)) == total(s),
{
    if let PayloadView::Transfer { to, amount } = tx.payload {
        lemma_index_of(s, tx.from);
        lemma_index_of(s, to);
        let i = index_of(s, tx.from);
        let f = s[i].1;
        let a = Account { balance: (f.balance - amount) as u128, nonce: (f.nonce + 1) as u64 };
        let s1 = s.update(i, (s[i].0, a));
        lemma_keys_update(s, i, a);
        lemma_total_update(s, i, (s[i].0, a));
        let j = index_of(s1, to);
        let t = s1[j].1;
        lemma_total_bounds(s1, i, j);
        lemma_total_nonneg(s1);
        let b = Account { balance: (t.balance + amount) as u128, nonce: t.nonce };
        lemma_total_update(s1, j, (s1[j].0, b));
    }
}

/// A transaction that names another chain is never admitted and its block step
/// changes no account; once the other rules pass it is refused as `WrongChain`.
pub proof fn lemma_foreign_chain_rejected(
    s: Seq<(Seq<u8>, Account)>,
    chain: Seq<char>,
    b: Seq<u8>,
    tx: TxView,
    now: DateTimeUtc,
)
    requires
        decoded(b) == Some(tx),
        !on_chain(chain, tx),
    ensures
        validation(s, chain, tx, now) is Err,
        step(s, chain, b, now).0 == s,
        step(s, chain, b, now).1 != TxOutcome::Applied,
        admission(s, tx, now) is Ok ==> validation(s, chain, tx, now) == Err::<(), Rejection>(
            Rejection::WrongChain,
        ),
{
}

/// Supply changes only by issuance: one block step adds the initial grant when it
/// applies a `CreateAccount`, and leaves the sum of balances as it was otherwise.
pub proof fn lemma_step_supply(s: Seq<(Seq<u8>, Account)>, chain: Seq<char>, b: Seq<u8>, now: DateTimeUtc)
    requires
        keys_unique(s),
        total(s) <= u128::MAX,
    ensures
        total(step(s, chain, b, now).0) == total(s) + if step(s, chain, b, now).1 == TxOutcome::Applied
            && decoded(b)->0.payload is CreateAccount {
            INITIAL_GRANT as int
        } else {
            0
        },
{
    if let Some(t) = decoded(b) {
        if validation(s, chain, t, now) is Ok {
            match t.payload {
                PayloadView::CreateAccount => {
                    crate::ledger::lemma_total_push(s, (t.from, Account { balance: INITIAL_GRANT, nonce: 0 }));
                },
                PayloadView::Transfer { .. } => {
                    lemma_transfer_preserves_supply(s, chain, t, now);
                },
            }
        }
    }
}

/// A transfer of more than the sender holds is refused (with `InsufficientFunds`
/// once expiry, nonce and recipient pass), and its block step changes no account.
pub proof fn lemma_overdraft_rejected(
    s: Seq<(Seq<u8>, Account)>,
    chain: Seq<char>,
    b: Seq<u8>,
    tx: TxView,
    now: DateTimeUtc,
)
    requires
        decoded(b) == Some(tx),
        tx.payload matches PayloadView::Transfer { to, amount } && lookup(s, tx.from) is Some
            && amount > lookup(s, tx.from)->0.balance,
    ensures
        validation(s, chain, tx, now) is Err,
        step(s, chain, b, now).0 == s,
        !(tx.header.expiration matches Some(e) && now.spec_is_after(&e))
            && tx.nonce == current_nonce(s, tx.from) + 1 && lookup(s, tx.payload->to) is Some ==> step(
            s, chain,
            b,
            now,
        ).1 == TxOutcome::Rejected(Rejection::InsufficientFunds),
{
}

/// Replicas that start from the same accounts and run the same transaction bytes
/// at the same block time reach the same accounts, outcomes and commitment.
pub proof fn lemma_block_deterministic(
    s1: Seq<(Seq<u8>, Account)>,
    chain: Seq<char>,
    s2: Seq<(Seq<u8>, Account)>,
    txs1: Seq<Seq<u8>>,
    txs2: Seq<Seq<u8>>,
    now: DateTimeUtc,
)
    requires
        s1 == s2,
        txs1 == txs2,
    ensures
        run_block(s1, chain, txs1, now) == run_block(s2, chain, txs2, now),
        block_outcomes(s1, chain, txs1, now) == block_outcomes(s2, chain, txs2, now),
        jmt_root(leaves(run_block(s1, chain, txs1, now))) == jmt_root(leaves(run_block(s2, chain, txs2, now))),
{
}

} // verus!
