//! The storage capability that the ledger persists through.

use vstd::prelude::*;
use crate::rocksdb::{ColumnFamily, RocksDBWriteBatch};

verus! {

/// A storage failure.
#[derive(Clone, Debug)]
pub enum Error {
    /// The handle was opened read-only.
    ReadOnly,
    /// The durable engine reported a failure.
    DBError(String),
}

/// A set of writes applied all at once.
pub trait DBWriteBatch {}

/// A key/value store with atomic batched writes.
pub trait DB: Sized {
    /// What the store holds in the account namespace.
    spec fn contents(&self) -> Map<Seq<u8>, Seq<u8>>;

    spec fn is_read_only(&self) -> bool;

    fn read_val(&self, cf: ColumnFamily, key: &[u8]) -> (r: Option<Vec<u8>>)
        ensures
            r is Some <==> self.contents().contains_key(key@),
            r matches Some(v) ==> v@ == self.contents()[key@],
    ;

    fn exec_batch(&mut self, batch: RocksDBWriteBatch) -> (r: Result<(), Error>)
        ensures
            old(self).is_read_only() ==> r is Err && final(self).contents() == old(self).contents(),
            !old(self).is_read_only() ==> r is Ok && final(self).contents()
                == crate::rocksdb::apply_puts(old(self).contents(), batch@),
            final(self).is_read_only() == old(self).is_read_only(),
    ;
}

} // verus!
