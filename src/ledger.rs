//! The account store: a sequence of (address, account) entries in order of
//! creation, with unique addresses, and its authenticated commitment.

use vstd::prelude::*;
use crate::codec::{
    le_bytes, le_value, lemma_le_value_bytes, lemma_pow256_values, pow256, push_bytes, push_le,
    read_address, read_le,
};
use crate::common::Address;

verus! {

/// Balance granted to every newly created account.
pub const INITIAL_GRANT: u128 = 1_000_000;

#[derive(Clone, Copy, Debug, PartialEq, Eq, Structural)]
pub struct Account {
    pub balance: u128,
    pub nonce: u64,
}

pub open spec fn key_seq(s: Seq<(Seq<u8>, Account)>) -> Seq<Seq<u8>> {
    s.map_values(|e: (Seq<u8>, Account)| e.0)
}

/// The last index that holds `k`, or -1.
pub open spec fn position(ks: Seq<Seq<u8>>, k: Seq<u8>) -> int
    decreases ks.len(),
{
    if ks.len() == 0 {
        -1
    } else if ks.last() == k {
        ks.len() - 1
    } else {
        position(ks.drop_last(), k)
    }
}

pub open spec fn index_of(s: Seq<(Seq<u8>, Account)>, k: Seq<u8>) -> int {
    position(key_seq(s), k)
}

/// The account stored under `k`.
pub open spec fn lookup(s: Seq<(Seq<u8>, Account)>, k: Seq<u8>) -> Option<Account> {
    if index_of(s, k) >= 0 {
        Some(s[index_of(s, k)].1)
    } else {
        None
    }
}

pub open spec fn keys_unique(s: Seq<(Seq<u8>, Account)>) -> bool {
    forall|i: int, j: int| 0 <= i < j < s.len() ==> s[i].0 != s[j].0
}

/// Sum of all balances.
pub open spec fn total(s: Seq<(Seq<u8>, Account)>) -> int
    decreases s.len(),
{
    if s.len() == 0 {
        0
    } else {
        total(s.drop_last()) + s.last().1.balance
    }
}

pub proof fn lemma_position(ks: Seq<Seq<u8>>, k: Seq<u8>)
    ensures
        -1 <= position(ks, k) < ks.len(),
        position(ks, k) >= 0 ==> ks[position(ks, k)] == k,
        forall|j: int| position(ks, k) < j < ks.len() ==> ks[j] != k,
    decreases ks.len(),
{
    if ks.len() > 0 {
        lemma_position(ks.drop_last(), k);
        assert forall|j: int| 0 <= j < ks.len() - 1 implies ks.drop_last()[j] == ks[j] by {}
    }
}

pub proof fn lemma_index_of(s: Seq<(Seq<u8>, Account)>, k: Seq<u8>)
    requires
        keys_unique(s),
    ensures
        -1 <= index_of(s, k) < s.len(),
        index_of(s, k) >= 0 ==> s[index_of(s, k)].0 == k,
        index_of(s, k) == -1 ==> forall|j: int| 0 <= j < s.len() ==> s[j].0 != k,
        forall|j: int| 0 <= j < s.len() && s[j].0 == k ==> index_of(s, k) == j,
{
    lemma_position(key_seq(s), k);
    let p = index_of(s, k);
    assert forall|j: int| 0 <= j < s.len() && s[j].0 == k implies p == j by {
        assert(key_seq(s)[j] == k);
        if p != j {
            if p >= 0 {
                assert(key_seq(s)[p] == k);
            }
        }
    }
    if p == -1 {
        assert forall|j: int| 0 <= j < s.len() implies s[j].0 != k by {
            assert(key_seq(s)[j] == s[j].0);
        }
    }
}

pub proof fn lemma_total_nonneg(s: Seq<(Seq<u8>, Account)>)
    ensures
        total(s) >= 0,
    decreases s.len(),
{
    if s.len() > 0 {
        lemma_total_nonneg(s.drop_last());
    }
}

/// One balance, or two distinct ones together, never exceed the total.
pub proof fn lemma_total_bounds(s: Seq<(Seq<u8>, Account)>, i: int, j: int)
    requires
        0 <= i < s.len(),
        0 <= j < s.len(),
    ensures
        s[i].1.balance <= total(s),
        i != j ==> s[i].1.balance + s[j].1.balance <= total(s),
    decreases s.len(),
{
    let n = s.len() - 1;
    lemma_total_nonneg(s.drop_last());
    if i < n && j < n {
        lemma_total_bounds(s.drop_last(), i, j);
    } else if i < n {
        lemma_total_bounds(s.drop_last(), i, i);
    } else if j < n {
        lemma_total_bounds(s.drop_last(), j, j);
    }
}

pub proof fn lemma_total_update(s: Seq<(Seq<u8>, Account)>, i: int, e: (Seq<u8>, Account))
    requires
        0 <= i < s.len(),
    ensures
        total(s.update(i, e)) == total(s) - s[i].1.balance + e.1.balance,
    decreases s.len(),
{
    let n = s.len() - 1;
    if i < n {
        lemma_total_update(s.drop_last(), i, e);
        assert(s.update(i, e).drop_last() =~= s.drop_last().update(i, e));
    } else {
        assert(s.update(i, e).drop_last() =~= s.drop_last());
    }
}

pub proof fn lemma_total_push(s: Seq<(Seq<u8>, Account)>, e: (Seq<u8>, Account))
    ensures
        total(s.push(e)) == total(s) + e.1.balance,
{
    assert(s.push(e).drop_last() =~= s);
}

/// Replacing an account keeps every address where it was.
pub proof fn lemma_keys_update(s: Seq<(Seq<u8>, Account)>, i: int, a: Account)
    requires
        0 <= i < s.len(),
    ensures
        key_seq(s.update(i, (s[i].0, a))) == key_seq(s),
        forall|k: Seq<u8>| index_of(s.update(i, (s[i].0, a)), k) == index_of(s, k),
{
    assert(key_seq(s.update(i, (s[i].0, a))) =~= key_seq(s));
}

/// The 32-byte tree key of an address: the address followed by zeros.
pub open spec fn leaf_key(k: Seq<u8>) -> Seq<u8> {
    k + Seq::new(12, |i: int| 0u8)
}

/// The stored form of an account: balance then nonce, little-endian.
pub open spec fn account_bytes(a: Account) -> Seq<u8> {
    le_bytes(a.balance as nat, 16) + le_bytes(a.nonce as nat, 8)
}

/// The tree leaves of a ledger, one per account, in order of creation.
pub open spec fn leaves(s: Seq<(Seq<u8>, Account)>) -> Seq<(Seq<u8>, Seq<u8>)> {
    s.map_values(|e: (Seq<u8>, Account)| (leaf_key(e.0), account_bytes(e.1)))
}

pub open spec fn leaf_views(l: Seq<([u8; 32], Vec<u8>)>) -> Seq<(Seq<u8>, Seq<u8>)> {
    l.map_values(|e: ([u8; 32], Vec<u8>)| (e.0@, e.1@))
}

/// Root hash of a SHA-256 Jellyfish Merkle tree built from empty with these
/// (key, value) leaves at version 0.
pub uninterp spec fn jmt_root(leaves: Seq<(Seq<u8>, Seq<u8>)>) -> Seq<u8>;

/// Relies on jmt's `JellyfishMerkleTree::put_value_set` over an empty in-memory store:
/// at version 0 the tree starts from a null root in memory and the mock store's reads
/// never fail, so it returns the root hash of the leaves, which depends on them alone.
#[verifier::external_body]
fn jmt_root_of(leaves: &Vec<([u8; 32], Vec<u8>)>) -> (r: Option<[u8; 32]>)
    ensures
        r is Some,
        r matches Some(h) ==> h@ == jmt_root(leaf_views(leaves@)),
{
    let store = jmt::mock::MockTreeStore::default();
    let tree = jmt::Sha256Jmt::new(&store);
    let set = leaves.iter().map(|(k, v)| (jmt::KeyHash(*k), Some(v.clone())));
    tree.put_value_set(set, 0).ok().map(|(root, _)| root.0)
}

/// The stored form of one entry: the address, then the account.
pub open spec fn record(e: (Seq<u8>, Account)) -> Seq<u8> {
    e.0 + account_bytes(e.1)
}

/// Number of bytes of one stored entry.
pub const RECORD_LEN: usize = 44;

/// The stored form of a ledger: its entries' records in order.
pub open spec fn ledger_bytes(s: Seq<(Seq<u8>, Account)>) -> Seq<u8>
    decreases s.len(),
{
    if s.len() == 0 {
        seq![]
    } else {
        ledger_bytes(s.drop_last()) + record(s.last())
    }
}

/// Entries that a well-formed ledger can hold.
pub open spec fn valid_entries(s: Seq<(Seq<u8>, Account)>) -> bool {
    &&& forall|i: int| 0 <= i < s.len() ==> (#[trigger] s[i]).0.len() == 20
    &&& keys_unique(s)
    &&& total(s) <= INITIAL_GRANT * s.len()
    &&& s.len() <= usize::MAX
}

proof fn lemma_record_len(e: (Seq<u8>, Account))
    requires
        e.0.len() == 20,
    ensures
        record(e).len() == RECORD_LEN,
{
    crate::codec::lemma_le_bytes_len(e.1.balance as nat, 16);
    crate::codec::lemma_le_bytes_len(e.1.nonce as nat, 8);
}

proof fn lemma_ledger_bytes_prefix(s: Seq<(Seq<u8>, Account)>, k: int)
    requires
        0 <= k <= s.len(),
        forall|i: int| 0 <= i < s.len() ==> (#[trigger] s[i]).0.len() == 20,
    ensures
        ledger_bytes(s).len() == RECORD_LEN * s.len(),
        ledger_bytes(s.subrange(0, k)) == ledger_bytes(s).subrange(0, RECORD_LEN * k),
    decreases s.len(),
{
    if s.len() > 0 {
        let n = s.len() - 1;
        lemma_record_len(s.last());
        if k <= n {
            lemma_ledger_bytes_prefix(s.drop_last(), k);
            assert(s.drop_last().subrange(0, k) =~= s.subrange(0, k));
            assert(ledger_bytes(s).subrange(0, RECORD_LEN * k) =~= ledger_bytes(s.drop_last()).subrange(0, RECORD_LEN * k));
        } else {
            lemma_ledger_bytes_prefix(s.drop_last(), n);
            assert(s.subrange(0, k) =~= s);
            assert(ledger_bytes(s).subrange(0, RECORD_LEN * k) =~= ledger_bytes(s));
        }
    } else {
        assert(s.subrange(0, k) =~= s);
    }
}

proof fn lemma_record_at(s: Seq<(Seq<u8>, Account)>, k: int, b: Seq<u8>)
    requires
        valid_entries(s),
        ledger_bytes(s) == b,
        0 <= k < s.len(),
    ensures
        b.len() == RECORD_LEN * s.len(),
        s[k].0 == b.subrange(RECORD_LEN * k, RECORD_LEN * k + 20),
        s[k].1.balance == le_value(b.subrange(RECORD_LEN * k + 20, RECORD_LEN * k + 36)),
        s[k].1.nonce == le_value(b.subrange(RECORD_LEN * k + 36, RECORD_LEN * k + 44)),
{
    let pos = RECORD_LEN * k;
    lemma_pow256_values();
    lemma_ledger_bytes_prefix(s, k + 1);
    lemma_ledger_bytes_prefix(s, k);
    let pre = s.subrange(0, k + 1);
    assert(pre.drop_last() =~= s.subrange(0, k));
    assert(pre.last() == s[k]);
    let head = ledger_bytes(s.subrange(0, k));
    let r = record(s[k]);
    lemma_record_len(s[k]);
    assert(ledger_bytes(pre) == head + r);
    assert(head.len() == pos);
    assert((head + r).subrange(pos, pos + 44) =~= r);
    assert(b.subrange(0, pos + 44).subrange(pos, pos + 44) =~= b.subrange(pos, pos + 44));
    assert(r =~= b.subrange(pos, pos + 44));
    crate::codec::lemma_le_bytes_len(s[k].1.balance as nat, 16);
    crate::codec::lemma_le_round(s[k].1.balance as nat, 16);
    crate::codec::lemma_le_round(s[k].1.nonce as nat, 8);
    lemma_pow256_values();
    assert(s[k].0 =~= r.subrange(0, 20));
    assert(le_bytes(s[k].1.balance as nat, 16) =~= r.subrange(20, 36));
    assert(le_bytes(s[k].1.nonce as nat, 8) =~= r.subrange(36, 44));
    assert(r.subrange(20, 36) =~= b.subrange(pos + 20, pos + 36));
    assert(r.subrange(36, 44) =~= b.subrange(pos + 36, pos + 44));
    assert(r.subrange(0, 20) =~= b.subrange(pos, pos + 20));
}

proof fn lemma_total_prefix(s: Seq<(Seq<u8>, Account)>, k: int)
    requires
        0 <= k <= s.len(),
    ensures
        total(s.subrange(0, k)) <= total(s),
    decreases s.len(),
{
    if k < s.len() {
        lemma_total_prefix(s.drop_last(), k);
        assert(s.drop_last().subrange(0, k) =~= s.subrange(0, k));
    } else {
        assert(s.subrange(0, k) =~= s);
    }
}

pub open spec fn entry_views(e: Seq<(Address, Account)>) -> Seq<(Seq<u8>, Account)> {
    e.map_values(|x: (Address, Account)| (x.0@, x.1))
}

/// All accounts, in order of creation. A vector with unique addresses rather
/// than a hash map: a 20-byte address fits no integer key, and over a map keyed
/// by a struct with derived `Eq` and `Hash` Verus proves nothing of what the map
/// holds, so the lookups here are loops with their own contracts.
pub struct Ledger {
    entries: Vec<(Address, Account)>,
}

impl View for Ledger {
    type V = Seq<(Seq<u8>, Account)>;

    closed spec fn view(&self) -> Seq<(Seq<u8>, Account)> {
        entry_views(self.entries@)
    }
}

impl Ledger {
    /// Addresses are unique and the supply is bounded by one grant per account.
    pub open spec fn wf(&self) -> bool {
        &&& keys_unique(self@)
        &&& total(self@) <= INITIAL_GRANT * self@.len()
        &&& self@.len() <= usize::MAX
    }

    pub fn new() -> (r: Ledger)
        ensures
            r.wf(),
            r@ == Seq::<(Seq<u8>, Account)>::empty(),
    {
        let r = Ledger { entries: Vec::new() };
        assert(r@ =~= Seq::<(Seq<u8>, Account)>::empty());
        r
    }

    pub fn len(&self) -> (r: usize)
        ensures
            r == self@.len(),
    {
        self.entries.len()
    }

    /// The index of the account at `addr`, if any.
    pub fn find(&self, addr: &Address) -> (r: Option<usize>)
        requires
            self.wf(),
        ensures
            r is None <==> index_of(self@, addr@) == -1,
            r matches Some(i) ==> i == index_of(self@, addr@),
            r is None <==> lookup(self@, addr@) is None,
    {
        proof {
            lemma_index_of(self@, addr@);
        }
        let mut i: usize = 0;
        while i < self.entries.len()
            invariant
                0 <= i <= self.entries@.len(),
                self@.len() == self.entries@.len(),
                forall|j: int| 0 <= j < i ==> self@[j].0 != addr@,
                forall|j: int|
                    0 <= j < self@.len() && self@[j].0 == addr@ ==> index_of(self@, addr@) == j,
            decreases self.entries@.len() - i,
        {
            if self.entries[i].0.same_as(addr) {
                assert(self@[i as int].0 == addr@);
                return Some(i);
            }
            i = i + 1;
        }
        None
    }

    /// The account at `addr`, if any.
    pub fn get(&self, addr: &Address) -> (r: Option<Account>)
        requires
            self.wf(),
        ensures
            r == lookup(self@, addr@),
    {
        proof {
            lemma_index_of(self@, addr@);
        }
        match self.find(addr) {
            Some(i) => Some(self.entries[i].1),
            None => None,
        }
    }

    pub fn contains(&self, addr: &Address) -> (r: bool)
        requires
            self.wf(),
        ensures
            r == lookup(self@, addr@) is Some,
    {
        self.find(addr).is_some()
    }

    /// Adds a new account at an unused address.
    pub fn insert_new(&mut self, addr: Address, acct: Account)
        requires
            old(self).wf(),
            lookup(old(self)@, addr@) is None,
            old(self)@.len() < usize::MAX,
            acct.balance <= INITIAL_GRANT,
        ensures
            final(self).wf(),
            final(self)@ == old(self)@.push((addr@, acct)),
    {
        proof {
            lemma_index_of(self@, addr@);
            lemma_total_push(self@, (addr@, acct));
        }
        self.entries.push((addr, acct));
        assert(self@ =~= old(self)@.push((addr@, acct)));
        assert(INITIAL_GRANT * old(self)@.len() + INITIAL_GRANT == INITIAL_GRANT * self@.len());
    }

    /// Replaces the account at index `i`, keeping its address.
    pub fn set_at(&mut self, i: usize, acct: Account)
        requires
            old(self).wf(),
            i < old(self)@.len(),
            total(old(self)@) - old(self)@[i as int].1.balance + acct.balance <= INITIAL_GRANT
                * old(self)@.len(),
        ensures
            final(self).wf(),
            final(self)@ == old(self)@.update(i as int, (old(self)@[i as int].0, acct)),
    {
        let addr = self.entries[i].0;
        self.entries.set(i, (addr, acct));
        proof {
            lemma_total_update(old(self)@, i as int, (old(self)@[i as int].0, acct));
        }
        assert(self@ =~= old(self)@.update(i as int, (old(self)@[i as int].0, acct)));
    }

    /// A copy of every account.
    pub fn snapshot(&self) -> (r: Ledger)
        ensures
            r@ == self@,
    {
        let mut entries: Vec<(Address, Account)> = Vec::new();
        let mut i: usize = 0;
        while i < self.entries.len()
            invariant
                0 <= i <= self.entries@.len(),
                entries@ == self.entries@.subrange(0, i as int),
            decreases self.entries@.len() - i,
        {
            entries.push(self.entries[i]);
            i = i + 1;
            assert(entries@ =~= self.entries@.subrange(0, i as int));
        }
        assert(self.entries@.subrange(0, i as int) =~= self.entries@);
        Ledger { entries }
    }

    /// The stored form of the ledger.
    pub fn to_bytes(&self) -> (r: Vec<u8>)
        ensures
            r@ == ledger_bytes(self@),
    {
        let mut out: Vec<u8> = Vec::new();
        let mut i: usize = 0;
        assert(self@.subrange(0, 0) =~= Seq::<(Seq<u8>, Account)>::empty());
        while i < self.entries.len()
            invariant
                0 <= i <= self.entries@.len(),
                self@.len() == self.entries@.len(),
                out@ == ledger_bytes(self@.subrange(0, i as int)),
            decreases self.entries@.len() - i,
        {
            let (addr, acct) = self.entries[i];
            let ghost before = out@;
            push_bytes(&mut out, addr.0.as_slice());
            push_le(&mut out, acct.balance, 16);
            push_le(&mut out, acct.nonce as u128, 8);
            proof {
                assert(self@.subrange(0, i + 1).drop_last() =~= self@.subrange(0, i as int));
                assert(out@ =~= before + record(self@[i as int]));
            }
            i = i + 1;
        }
        assert(self@.subrange(0, i as int) =~= self@);
        out
    }

    /// Rebuilds a ledger from its stored form; refuses bytes that are not the
    /// stored form of a well-formed ledger.
    pub fn from_bytes(b: &[u8]) -> (r: Option<Ledger>)
        ensures
            r matches Some(l) ==> l.wf() && ledger_bytes(l@) == b@,
            forall|s: Seq<(Seq<u8>, Account)>|
                valid_entries(s) && #[trigger] ledger_bytes(s) == b@ ==> (r matches Some(l) && l@
                    == s),
    {
        proof {
            lemma_pow256_values();
            assert forall|s: Seq<(Seq<u8>, Account)>|
                valid_entries(s) && #[trigger] ledger_bytes(s) == b@ implies b@.len()
                == RECORD_LEN * s.len() by {
                lemma_ledger_bytes_prefix(s, 0);
            }
        }
        let blen = b.len();
        if blen % RECORD_LEN != 0 {
            return None;
        }
        let n: usize = blen / RECORD_LEN;
        let mut entries: Vec<(Address, Account)> = Vec::new();
        let mut sum: u128 = 0;
        let mut k: usize = 0;
        let ghost empty = Seq::<(Seq<u8>, Account)>::empty();
        assert(b@.subrange(0, 0) =~= Seq::<u8>::empty());
        while k < n
            invariant
                0 <= k <= n,
                b@.len() == RECORD_LEN * n,
                blen == b@.len(),
                pow256(8) == 0x1_0000_0000_0000_0000,
                pow256(16) == 0x1_0000_0000_0000_0000_0000_0000_0000_0000,
                entries@.len() == k,
                ({ let v = entry_views(entries@); &&& ledger_bytes(v) == b@.subrange(0, RECORD_LEN * k)
                    &&& keys_unique(v) &&& sum == total(v)
                    &&& forall|i: int| 0 <= i < v.len() ==> (#[trigger] v[i]).0.len() == 20
                    &&& forall|s: Seq<(Seq<u8>, Account)>|
                        valid_entries(s) && #[trigger] ledger_bytes(s) == b@ ==> s.len() == n && v == s.subrange(0, k as int) }),
            decreases n - k,
        {
            let ghost v = entry_views(entries@);
            assert(k * RECORD_LEN + RECORD_LEN <= n * RECORD_LEN) by (nonlinear_arith)
                requires
                    k < n,
            ;
            let pos: usize = k * RECORD_LEN;
            let (addr, _) = read_address(b, pos).unwrap();
            let bal = read_le(b, pos + 20, 16).unwrap();
            let nonce = read_le(b, pos + 36, 8).unwrap();
            proof {
                lemma_le_value_bytes(b@.subrange(pos + 36, pos + 44));
            }
            let acct = Account { balance: bal, nonce: nonce as u64 };
            let ghost e = (addr@, acct);
            proof {
                assert(addr@ =~= b@.subrange(pos as int, pos + 20));
                assert forall|s: Seq<(Seq<u8>, Account)>|
                    valid_entries(s) && #[trigger] ledger_bytes(s) == b@ implies s[k as int] == e by {
                    lemma_record_at(s, k as int, b@);
                }
                assert(record(e) =~= b@.subrange(pos as int, pos + 44)) by {
                    lemma_le_value_bytes(b@.subrange(pos + 20, pos + 36));
                    lemma_le_value_bytes(b@.subrange(pos + 36, pos + 44));
                    assert(b@.subrange(pos as int, pos + 44) =~= b@.subrange(pos as int, pos + 20)
                        + b@.subrange(pos + 20, pos + 36) + b@.subrange(pos + 36, pos + 44));
                }
            }
            let mut j: usize = 0;
            while j < entries.len()
                invariant
                    0 <= j <= entries@.len(),
                    v == entry_views(entries@),
                    forall|m: int| 0 <= m < j ==> v[m].0 != addr@,
                    k < n,
                    e.0 == addr@,
                    forall|s: Seq<(Seq<u8>, Account)>|
                        valid_entries(s) && #[trigger] ledger_bytes(s) == b@ ==> s.len() == n && v
                            == s.subrange(0, k as int) && s[k as int] == e,
                decreases entries@.len() - j,
            {
                if entries[j].0.same_as(&addr) {
                    proof {
                        assert forall|s: Seq<(Seq<u8>, Account)>|
                            valid_entries(s) && #[trigger] ledger_bytes(s) == b@ implies false by {
                            assert(v[j as int] == s[j as int]);
                        }
                    }
                    return None;
                }
                j = j + 1;
            }
            if bal > u128::MAX - sum {
                proof {
                    assert forall|s: Seq<(Seq<u8>, Account)>|
                        valid_entries(s) && #[trigger] ledger_bytes(s) == b@ implies false by {
                        lemma_total_prefix(s, k + 1);
                        assert(s.subrange(0, k + 1).drop_last() =~= s.subrange(0, k as int));
                        assert(INITIAL_GRANT * s.len() <= INITIAL_GRANT * usize::MAX) by (nonlinear_arith)
                            requires s.len() <= usize::MAX;
                    }
                }
                return None;
            }
            sum = sum + bal;
            entries.push((addr, acct));
            proof {
                let w = entry_views(entries@);
                assert(w =~= v.push(e));
                assert(w.drop_last() =~= v);
                assert(b@.subrange(0, RECORD_LEN * (k + 1)) =~= b@.subrange(0, RECORD_LEN * k) + b@.subrange(pos as int, pos + 44));
                assert forall|s: Seq<(Seq<u8>, Account)>|
                    valid_entries(s) && #[trigger] ledger_bytes(s) == b@ implies w == s.subrange(0, k + 1) by {
                    assert(s.subrange(0, k + 1) =~= s.subrange(0, k as int).push(s[k as int]));
                }
            }
            k = k + 1;
        }
        let l = Ledger { entries };
        proof {
            assert(b@.subrange(0, RECORD_LEN * n) =~= b@);
            assert forall|s: Seq<(Seq<u8>, Account)>|
                valid_entries(s) && #[trigger] ledger_bytes(s) == b@ implies l@ == s by {
                assert(s.subrange(0, n as int) =~= s);
            }
            assert(INITIAL_GRANT * n <= INITIAL_GRANT * usize::MAX) by (nonlinear_arith)
                requires
                    n <= usize::MAX,
            ;
        }
        let cap: u128 = INITIAL_GRANT * (n as u128);
        if sum > cap {
            return None;
        }
        Some(l)
    }

    /// The tree leaves of the ledger.
    pub fn leaves(&self) -> (r: Vec<([u8; 32], Vec<u8>)>)
        ensures
            leaf_views(r@) == leaves(self@),
    {
        let mut out: Vec<([u8; 32], Vec<u8>)> = Vec::new();
        let mut i: usize = 0;
        while i < self.entries.len()
            invariant
                0 <= i <= self.entries@.len(),
                self@.len() == self.entries@.len(),
                leaf_views(out@) == leaves(self@).subrange(0, i as int),
            decreases self.entries@.len() - i,
        {
            let (addr, acct) = self.entries[i];
            let mut key = [0u8; 32];
            let mut j: usize = 0;
            while j < 20
                invariant
                    0 <= j <= 20,
                    forall|m: int| 0 <= m < j ==> key@[m] == addr@[m],
                    forall|m: int| 20 <= m < 32 ==> key@[m] == 0u8,
                decreases 20 - j,
            {
                key[j] = addr.0[j];
                j = j + 1;
            }
            let mut value: Vec<u8> = Vec::new();
            push_le(&mut value, acct.balance, 16);
            push_le(&mut value, acct.nonce as u128, 8);
            assert(key@ =~= leaf_key(addr@));
            assert(value@ =~= account_bytes(acct));
            let ghost before = out@;
            out.push((key, value));
            proof {
                assert(leaf_views(out@) =~= leaf_views(before).push((key@, value@)));
                assert(leaves(self@).subrange(0, i + 1) =~= leaves(self@).subrange(0, i as int).push(
                    leaves(self@)[i as int],
                ));
            }
            i = i + 1;
        }
        assert(leaves(self@).subrange(0, i as int) =~= leaves(self@));
        out
    }

    /// The authenticated commitment to every account.
    pub fn commitment(&self) -> (r: [u8; 32])
        ensures
            r@ == jmt_root(leaves(self@)),
    {
        let l = self.leaves();
        match jmt_root_of(&l) {
            Some(h) => h,
            None => [0u8; 32],
        }
    }
}

} // verus!
