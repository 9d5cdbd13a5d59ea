//! The in-memory image of the durable store: one namespace of byte keys and
//! values, written by atomic batches. The process around the library moves
//! these bytes to and from disk.

use vstd::prelude::*;
use crate::codec::{
    at, le_bytes, le_value, lemma_at_split, lemma_at_split3, lemma_le_round, lemma_le_value_bytes,
    lemma_pow256_values, pow256, push_bytes, push_le, read_le,
};
use crate::db::{DBWriteBatch, Error, DB};

verus! {

/// The namespaces of the store; account state has its own.
#[derive(Clone, Copy, Debug, PartialEq, Eq, Structural)]
pub enum ColumnFamily {
    State,
}

pub open spec fn pair_views(v: Seq<(Vec<u8>, Vec<u8>)>) -> Seq<(Seq<u8>, Seq<u8>)> {
    v.map_values(|e: (Vec<u8>, Vec<u8>)| (e.0@, e.1@))
}

/// `m` after the writes of `ops`, in order; a later write to a key wins.
pub open spec fn apply_puts(m: Map<Seq<u8>, Seq<u8>>, ops: Seq<(Seq<u8>, Seq<u8>)>) -> Map<
    Seq<u8>,
    Seq<u8>,
>
    decreases ops.len(),
{
    if ops.len() == 0 {
        m
    } else {
        apply_puts(m, ops.drop_last()).insert(ops.last().0, ops.last().1)
    }
}

pub proof fn lemma_apply_puts_concat(
    m: Map<Seq<u8>, Seq<u8>>,
    a: Seq<(Seq<u8>, Seq<u8>)>,
    b: Seq<(Seq<u8>, Seq<u8>)>,
)
    ensures
        apply_puts(m, a + b) == apply_puts(apply_puts(m, a), b),
    decreases b.len(),
{
    if b.len() == 0 {
        assert(a + b =~= a);
    } else {
        assert((a + b).drop_last() =~= a + b.drop_last());
        lemma_apply_puts_concat(m, a, b.drop_last());
    }
}

/// A byte string in the store file: its length in eight bytes, little-endian, then the bytes.
pub open spec fn chunk(x: Seq<u8>) -> Seq<u8> {
    le_bytes(x.len(), 8) + x
}

/// One write in the store file: key chunk, then value chunk.
pub open spec fn pair_bytes(e: (Seq<u8>, Seq<u8>)) -> Seq<u8> {
    chunk(e.0) + chunk(e.1)
}

/// The store file holding the writes `ops`, in order.
pub open spec fn pairs_bytes(ops: Seq<(Seq<u8>, Seq<u8>)>) -> Seq<u8>
    decreases ops.len(),
{
    if ops.len() == 0 {
        seq![]
    } else {
        pair_bytes(ops[0]) + pairs_bytes(ops.drop_first())
    }
}

/// Every key and value has a length that eight bytes can hold.
pub open spec fn pairs_fit(ops: Seq<(Seq<u8>, Seq<u8>)>) -> bool {
    forall|i: int|
        0 <= i < ops.len() ==> (#[trigger] ops[i]).0.len() < pow256(8) && ops[i].1.len() < pow256(8)
}

/// Files written batch after batch read as one run of writes.
pub proof fn lemma_pairs_bytes_concat(a: Seq<(Seq<u8>, Seq<u8>)>, c: Seq<(Seq<u8>, Seq<u8>)>)
    ensures
        pairs_bytes(a + c) == pairs_bytes(a) + pairs_bytes(c),
    decreases a.len(),
{
    if a.len() == 0 {
        assert(a + c =~= c);
    } else {
        assert((a + c).drop_first() =~= a.drop_first() + c);
        lemma_pairs_bytes_concat(a.drop_first(), c);
        assert(pairs_bytes(a + c) =~= pairs_bytes(a) + pairs_bytes(c));
    }
}

proof fn lemma_pairs_bytes_single(e: (Seq<u8>, Seq<u8>))
    ensures
        pairs_bytes(seq![e]) == pair_bytes(e),
{
    let one = seq![e];
    assert(one.drop_first() =~= Seq::<(Seq<u8>, Seq<u8>)>::empty());
    assert(pairs_bytes(one.drop_first()) == Seq::<u8>::empty());
    assert(one[0] == e);
    assert(pairs_bytes(one) =~= pair_bytes(e));
}

proof fn lemma_pair_bytes_len(e: (Seq<u8>, Seq<u8>))
    ensures
        pair_bytes(e).len() >= 16,
{
    crate::codec::lemma_le_bytes_len(e.0.len(), 8);
    crate::codec::lemma_le_bytes_len(e.1.len(), 8);
}

fn push_chunk(out: &mut Vec<u8>, x: &[u8])
    ensures
        final(out)@ == old(out)@ + chunk(x@),
{
    let ghost start = out@;
    push_le(out, x.len() as u128, 8);
    push_bytes(out, x);
    assert(out@ =~= start + chunk(x@));
}

/// Reads the byte string at `pos`; returns it and the position after it.
fn read_chunk(b: &[u8], pos: usize) -> (r: Option<(Vec<u8>, usize)>)
    ensures
        r matches Some((v, p)) ==> at(b@, pos as int, chunk(v@)) && p == pos + chunk(v@).len()
            && v@.len() < pow256(8),
        forall|x: Seq<u8>|
            x.len() < pow256(8) && at(b@, pos as int, #[trigger] chunk(x)) ==> (r matches Some(
                (v, p),
            ) && v@ == x && p == pos + chunk(x).len()),
        b@.len() <= usize::MAX,
{
    proof {
        lemma_pow256_values();
    }
    let len = match read_le(b, pos, 8) {
        Some(v) => v,
        None => {
            proof {
                assert forall|x: Seq<u8>|
                    x.len() < pow256(8) && at(b@, pos as int, #[trigger] chunk(x)) implies false by {
                    lemma_le_round(x.len(), 8);
                }
            }
            return None;
        },
    };
    let ghost head = b@.subrange(pos as int, pos + 8);
    proof {
        lemma_le_value_bytes(head);
        assert forall|x: Seq<u8>|
            x.len() < pow256(8) && at(b@, pos as int, #[trigger] chunk(x)) implies x.len() == len
            && at(b@, pos + 8, x) by {
            lemma_le_round(x.len(), 8);
            lemma_at_split(b@, pos as int, le_bytes(x.len(), 8), x);
        }
    }
    if len > (b.len() - pos - 8) as u128 {
        return None;
    }
    let start: usize = pos + 8;
    let end: usize = start + len as usize;
    let v = vstd::slice::slice_to_vec(&b[start..end]);
    proof {
        assert(chunk(v@) =~= head + v@);
        lemma_at_split(b@, pos as int, head, v@);
    }
    Some((v, end))
}

fn bytes_eq(a: &[u8], b: &[u8]) -> (r: bool)
    ensures
        r == (a@ == b@),
{
    if a.len() != b.len() {
        return false;
    }
    let mut i: usize = 0;
    while i < a.len()
        invariant
            0 <= i <= a@.len(),
            a@.len() == b@.len(),
            forall|j: int| 0 <= j < i ==> a@[j] == b@[j],
        decreases a@.len() - i,
    {
        if a[i] != b[i] {
            return false;
        }
        i = i + 1;
    }
    assert(a@ =~= b@);
    true
}

/// Writes to be applied together.
pub struct RocksDBWriteBatch {
    ops: Vec<(Vec<u8>, Vec<u8>)>,
}

impl View for RocksDBWriteBatch {
    type V = Seq<(Seq<u8>, Seq<u8>)>;

    closed spec fn view(&self) -> Seq<(Seq<u8>, Seq<u8>)> {
        pair_views(self.ops@)
    }
}

impl DBWriteBatch for RocksDBWriteBatch {

}

impl RocksDBWriteBatch {
    pub fn new() -> (r: RocksDBWriteBatch)
        ensures
            r@ == Seq::<(Seq<u8>, Seq<u8>)>::empty(),
    {
        let r = RocksDBWriteBatch { ops: Vec::new() };
        assert(r@ =~= Seq::<(Seq<u8>, Seq<u8>)>::empty());
        r
    }

    /// Adds a write of `value` at `key` in namespace `cf`.
    pub fn put(&mut self, cf: ColumnFamily, key: Vec<u8>, value: Vec<u8>)
        ensures
            final(self)@ == old(self)@.push((key@, value@)),
    {
        self.ops.push((key, value));
        assert(self@ =~= old(self)@.push((key@, value@)));
    }

    pub fn len(&self) -> (r: usize)
        ensures
            r == self@.len(),
    {
        self.ops.len()
    }

    /// The batch as it is appended to the store file.
    pub fn to_bytes(&self) -> (r: Vec<u8>)
        ensures
            r@ == pairs_bytes(self@),
            pairs_fit(self@),
    {
        let mut out: Vec<u8> = Vec::new();
        let mut i: usize = 0;
        proof {
            lemma_pow256_values();
        }
        while i < self.ops.len()
            invariant
                0 <= i <= self.ops@.len(),
                self@ == pair_views(self.ops@),
                out@ == pairs_bytes(self@.subrange(0, i as int)),
                pairs_fit(self@.subrange(0, i as int)),
                pow256(8) == 0x1_0000_0000_0000_0000,
            decreases self.ops@.len() - i,
        {
            let ghost before = out@;
            let kl = self.ops[i].0.len();
            let vl = self.ops[i].1.len();
            push_chunk(&mut out, self.ops[i].0.as_slice());
            push_chunk(&mut out, self.ops[i].1.as_slice());
            proof {
                let e = self@[i as int];
                assert(self@.subrange(0, i + 1) =~= self@.subrange(0, i as int) + seq![e]);
                lemma_pairs_bytes_concat(self@.subrange(0, i as int), seq![e]);
                assert(seq![e].drop_first() =~= Seq::<(Seq<u8>, Seq<u8>)>::empty());
                lemma_pairs_bytes_single(e);
                assert(out@ =~= before + pair_bytes(e));
                assert(kl == e.0.len() && vl == e.1.len());
                assert(pairs_fit(self@.subrange(0, i + 1)));
            }
            i = i + 1;
        }
        assert(self@.subrange(0, i as int) =~= self@);
        out
    }

    /// The `i`-th write, as key and value.
    pub fn op(&self, i: usize) -> (r: (&[u8], &[u8]))
        requires
            i < self@.len(),
        ensures
            r.0@ == self@[i as int].0,
            r.1@ == self@[i as int].1,
    {
        (self.ops[i].0.as_slice(), self.ops[i].1.as_slice())
    }
}

/// Reads back a store file: the writes it holds, in order, or `None` when the
/// bytes are not a store file.
pub fn decode_pairs(b: &[u8]) -> (r: Option<Vec<(Vec<u8>, Vec<u8>)>>)
    ensures
        r matches Some(v) ==> pairs_bytes(pair_views(v@)) == b@ && pairs_fit(pair_views(v@)),
        forall|ops: Seq<(Seq<u8>, Seq<u8>)>|
            pairs_fit(ops) && #[trigger] pairs_bytes(ops) == b@ ==> (r matches Some(v) && pair_views(
                v@,
            ) == ops),
{
    let mut acc: Vec<(Vec<u8>, Vec<u8>)> = Vec::new();
    let mut pos: usize = 0;
    let blen = b.len();
    assert(b@.subrange(0, 0) =~= Seq::<u8>::empty());
    assert(b@.subrange(0, b@.len() as int) =~= b@);
    assert forall|ops: Seq<(Seq<u8>, Seq<u8>)>|
        pairs_fit(ops) && #[trigger] pairs_bytes(ops) == b@ implies ops.subrange(0, 0)
        == pair_views(acc@) && pairs_bytes(ops.subrange(0, ops.len() as int)) == b@.subrange(
        0,
        b@.len() as int,
    ) by {
        assert(ops.subrange(0, 0) =~= pair_views(acc@));
        assert(ops.subrange(0, ops.len() as int) =~= ops);
    }
    while pos < blen
        invariant
            0 <= pos <= blen,
            blen == b@.len(),
            pairs_bytes(pair_views(acc@)) == b@.subrange(0, pos as int),
            pairs_fit(pair_views(acc@)),
            forall|ops: Seq<(Seq<u8>, Seq<u8>)>|
                pairs_fit(ops) && #[trigger] pairs_bytes(ops) == b@ ==> acc@.len() <= ops.len()
                    && ops.subrange(0, acc@.len() as int) == pair_views(acc@) && pairs_bytes(
                    ops.subrange(acc@.len() as int, ops.len() as int),
                ) == b@.subrange(pos as int, b@.len() as int),
        decreases blen - pos,
    {
        let ghost k = acc@.len() as int;
        proof {
            assert forall|ops: Seq<(Seq<u8>, Seq<u8>)>|
                pairs_fit(ops) && #[trigger] pairs_bytes(ops) == b@ implies k < ops.len() && at(
                b@,
                pos as int,
                chunk(ops[k].0),
            ) && at(b@, pos + chunk(ops[k].0).len(), chunk(ops[k].1)) && at(
                b@,
                pos + pair_bytes(ops[k]).len(),
                pairs_bytes(ops.subrange(k + 1, ops.len() as int)),
            ) by {
                let rest = ops.subrange(k, ops.len() as int);
                assert(rest.len() > 0);
                assert(rest.drop_first() =~= ops.subrange(k + 1, ops.len() as int));
                assert(rest[0] == ops[k]);
                assert(b@.subrange(pos as int, pos + pairs_bytes(rest).len()) =~= b@.subrange(pos as int, b@.len() as int));
                lemma_at_split3(b@, pos as int, chunk(ops[k].0), chunk(ops[k].1), pairs_bytes(rest.drop_first()));
            }
        }
        let (key, p1) = match read_chunk(b, pos) {
            Some(x) => x,
            None => {
                return None;
            },
        };
        let (value, p2) = match read_chunk(b, p1) {
            Some(x) => x,
            None => {
                return None;
            },
        };
        let ghost e = (key@, value@);
        let ghost before = pair_views(acc@);
        acc.push((key, value));
        proof {
            assert(pair_views(acc@) =~= before + seq![e]);
            lemma_pairs_bytes_concat(before, seq![e]);
            assert(seq![e].drop_first() =~= Seq::<(Seq<u8>, Seq<u8>)>::empty());
            lemma_pairs_bytes_single(e);
            lemma_at_split(b@, pos as int, chunk(key@), chunk(value@));
            assert(b@.subrange(0, p2 as int) =~= b@.subrange(0, pos as int) + pair_bytes(e));
            lemma_pair_bytes_len(e);
            assert forall|ops: Seq<(Seq<u8>, Seq<u8>)>|
                pairs_fit(ops) && #[trigger] pairs_bytes(ops) == b@ implies ops.subrange(0, k + 1)
                == pair_views(acc@) && pairs_bytes(ops.subrange(k + 1, ops.len() as int))
                == b@.subrange(p2 as int, b@.len() as int) by {
                assert(ops.subrange(0, k + 1) =~= ops.subrange(0, k) + seq![ops[k]]);
                let tail = pairs_bytes(ops.subrange(k + 1, ops.len() as int));
                assert(b@.subrange(p2 as int, p2 + tail.len()) == tail);
                assert(p2 + tail.len() == b@.len()) by {
                    let rest = ops.subrange(k, ops.len() as int);
                    assert(rest.drop_first() =~= ops.subrange(k + 1, ops.len() as int));
                    assert(rest[0] == ops[k]);
                }
            }
        }
        pos = p2;
    }
    proof {
        assert forall|ops: Seq<(Seq<u8>, Seq<u8>)>|
            pairs_fit(ops) && #[trigger] pairs_bytes(ops) == b@ implies pair_views(acc@) == ops by {
            let rest = ops.subrange(acc@.len() as int, ops.len() as int);
            if rest.len() > 0 {
                lemma_pair_bytes_len(rest[0]);
            }
            assert(ops =~= ops.subrange(0, acc@.len() as int) + rest);
        }
    }
    Some(acc)
}

/// The store: every write in order, and whether writes are refused.
pub struct RocksDB {
    log: Vec<(Vec<u8>, Vec<u8>)>,
    read_only: bool,
}

impl View for RocksDB {
    type V = Map<Seq<u8>, Seq<u8>>;

    closed spec fn view(&self) -> Map<Seq<u8>, Seq<u8>> {
        apply_puts(Map::empty(), pair_views(self.log@))
    }
}

impl DB for RocksDB {
    open spec fn contents(&self) -> Map<Seq<u8>, Seq<u8>> {
        self@
    }

    open spec fn is_read_only(&self) -> bool {
        self.spec_read_only()
    }

    fn read_val(&self, cf: ColumnFamily, key: &[u8]) -> (r: Option<Vec<u8>>) {
        self.read_value_bytes(cf, key)
    }

    fn exec_batch(&mut self, batch: RocksDBWriteBatch) -> (r: Result<(), Error>) {
        if self.read_only {
            return Err(Error::ReadOnly);
        }
        let ghost before = pair_views(self.log@);
        let mut ops = batch.ops;
        let ghost added = pair_views(ops@);
        self.log.append(&mut ops);
        proof {
            assert(pair_views(self.log@) =~= before + added);
            lemma_apply_puts_concat(Map::empty(), before, added);
        }
        Ok(())
    }
}

impl RocksDB {
    pub closed spec fn spec_read_only(&self) -> bool {
        self.read_only
    }

    /// A handle over the pairs that were read back from disk, applied in order.
    pub fn open(contents: Vec<(Vec<u8>, Vec<u8>)>, read_only: bool) -> (r: RocksDB)
        ensures
            r@ == apply_puts(Map::empty(), pair_views(contents@)),
            r.spec_read_only() == read_only,
    {
        RocksDB { log: contents, read_only }
    }

    /// The value at `key` in namespace `cf`.
    pub fn read_value_bytes(&self, cf: ColumnFamily, key: &[u8]) -> (r: Option<Vec<u8>>)
        ensures
            r is Some <==> self@.contains_key(key@),
            r matches Some(v) ==> v@ == self@[key@],
    {
        let ghost ops = pair_views(self.log@);
        let mut i: usize = self.log.len();
        assert(ops.subrange(0, i as int) =~= ops);
        while i > 0
            invariant
                0 <= i <= self.log@.len(),
                ops == pair_views(self.log@),
                self@ == apply_puts(Map::empty(), ops),
                self@.contains_key(key@) == apply_puts(Map::empty(), ops.subrange(0, i as int)).contains_key(key@),
                self@.contains_key(key@) ==> self@[key@] == apply_puts(Map::empty(), ops.subrange(0, i as int))[key@],
            decreases i,
        {
            let ghost pre = ops.subrange(0, i as int);
            assert(pre.drop_last() =~= ops.subrange(0, i - 1));
            if bytes_eq(self.log[i - 1].0.as_slice(), key) {
                let v = vstd::slice::slice_to_vec(self.log[i - 1].1.as_slice());
                return Some(v);
            }
            i = i - 1;
        }
        None
    }
}

} // verus!
