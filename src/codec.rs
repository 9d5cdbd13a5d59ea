//! The canonical binary form of a transaction: fields in declaration order,
//! integers little-endian and fixed-width, texts as a four-byte length and
//! their UTF-8 bytes, an option or a payload as a one-byte tag.

use vstd::prelude::*;
use vstd::utf8::encode_utf8;
use vstd::arithmetic::div_mod::{lemma_fundamental_div_mod, lemma_fundamental_div_mod_converse};
use crate::common::{
    rfc3339_text, string_from_utf8, Address, ChainId, DateTimeUtc,
};
use crate::transaction::{
    text_fits, Header, HeaderView, PayloadView, Transaction, TxPayload, TxView,
};

verus! {

pub open spec fn pow256(n: nat) -> nat
    decreases n,
{
    if n == 0 {
        1
    } else {
        256 * pow256((n - 1) as nat)
    }
}

/// The `n` low bytes of `v`, least significant first.
pub open spec fn le_bytes(v: nat, n: nat) -> Seq<u8>
    decreases n,
{
    if n == 0 {
        seq![]
    } else {
        seq![(v % 256) as u8] + le_bytes(v / 256, (n - 1) as nat)
    }
}

/// The number that `s` spells, least significant byte first.
pub open spec fn le_value(s: Seq<u8>) -> nat
    decreases s.len(),
{
    if s.len() == 0 {
        0
    } else {
        s[0] as nat + 256 * le_value(s.drop_first())
    }
}

/// `piece` stands in `b` from position `pos` on.
pub open spec fn at(b: Seq<u8>, pos: int, piece: Seq<u8>) -> bool {
    0 <= pos && pos + piece.len() <= b.len() && b.subrange(pos, pos + piece.len()) == piece
}

pub open spec fn enc_text(s: Seq<char>) -> Seq<u8> {
    le_bytes(encode_utf8(s).len(), 4) + encode_utf8(s)
}

pub open spec fn enc_time(t: DateTimeUtc) -> Seq<u8> {
    enc_text(rfc3339_text(t.secs, t.nanos))
}

pub open spec fn enc_opt_time(o: Option<DateTimeUtc>) -> Seq<u8> {
    match o {
        None => seq![0u8],
        Some(t) => seq![1u8] + enc_time(t),
    }
}

pub open spec fn enc_header(h: HeaderView) -> Seq<u8> {
    enc_text(h.chain_id) + enc_opt_time(h.expiration) + enc_time(h.timestamp)
}

pub open spec fn enc_payload(p: PayloadView) -> Seq<u8> {
    match p {
        PayloadView::CreateAccount => seq![0u8],
        PayloadView::Transfer { to, amount } => seq![1u8] + to + le_bytes(amount as nat, 16),
    }
}

/// The canonical bytes of a transaction.
pub open spec fn encode_tx(t: TxView) -> Seq<u8> {
    enc_header(t.header) + enc_text(t.chain_id) + t.from + enc_payload(t.payload) + le_bytes(
        t.nonce as nat,
        8,
    )
}

/// The timestamp texts of a header have a length that the prefix can hold.
pub open spec fn header_times_fit(h: HeaderView) -> bool {
    &&& text_fits(rfc3339_text(h.timestamp.secs, h.timestamp.nanos))
    &&& (h.expiration matches Some(e) ==> text_fits(rfc3339_text(e.secs, e.nanos)))
}

/// A transaction that the codec carries faithfully.
pub open spec fn encodable(t: TxView) -> bool {
    t.wf() && header_times_fit(t.header)
}

pub proof fn lemma_pow256_mono(a: nat, b: nat)
    requires
        a <= b,
    ensures
        pow256(a) <= pow256(b),
    decreases b,
{
    if a < b {
        lemma_pow256_mono(a, (b - 1) as nat);
    }
}

pub proof fn lemma_pow256_values()
    ensures
        pow256(4) == 0x1_0000_0000,
        pow256(8) == 0x1_0000_0000_0000_0000,
        pow256(15) == 0x1_0000_0000_0000_0000_0000_0000_0000_00,
        pow256(16) == 0x1_0000_0000_0000_0000_0000_0000_0000_0000,
{
    reveal_with_fuel(pow256, 17);
}

pub proof fn lemma_le_bytes_len(v: nat, n: nat)
    ensures
        le_bytes(v, n).len() == n,
    decreases n,
{
    if n > 0 {
        lemma_le_bytes_len(v / 256, (n - 1) as nat);
    }
}

pub proof fn lemma_le_round(v: nat, n: nat)
    requires
        v < pow256(n),
    ensures
        le_value(le_bytes(v, n)) == v,
        le_bytes(v, n).len() == n,
    decreases n,
{
    if n > 0 {
        let p = pow256((n - 1) as nat);
        let q = v / 256;
        let r = v % 256;
        lemma_fundamental_div_mod(v as int, 256);
        assert(q < p) by (nonlinear_arith)
            requires
                v == q * 256 + r,
                v < 256 * p,
                0 <= r < 256,
        ;
        lemma_le_round(q, (n - 1) as nat);
        let s = le_bytes(v, n);
        assert(s.drop_first() =~= le_bytes(q, (n - 1) as nat));
    }
}

pub proof fn lemma_le_value_bytes(s: Seq<u8>)
    ensures
        le_value(s) < pow256(s.len()),
        le_bytes(le_value(s), s.len()) == s,
    decreases s.len(),
{
    if s.len() > 0 {
        let rest = s.drop_first();
        lemma_le_value_bytes(rest);
        let v = le_value(s);
        let w = le_value(rest);
        let p = pow256(rest.len());
        lemma_fundamental_div_mod_converse(v as int, 256, w as int, s[0] as int);
        assert(v < 256 * p) by (nonlinear_arith)
            requires
                v == s[0] as nat + 256 * w,
                s[0] < 256,
                w < p,
        ;
        assert(le_bytes(v, s.len()) =~= s);
    }
}

pub proof fn lemma_at_split(b: Seq<u8>, pos: int, x: Seq<u8>, y: Seq<u8>)
    ensures
        at(b, pos, x + y) <==> (at(b, pos, x) && at(b, pos + x.len(), y)),
{
    if at(b, pos, x + y) {
        let whole = b.subrange(pos, pos + x.len() + y.len());
        assert(whole == x + y);
        assert(b.subrange(pos, pos + x.len()) =~= whole.subrange(0, x.len() as int));
        assert((x + y).subrange(0, x.len() as int) =~= x);
        assert(b.subrange(pos + x.len(), pos + x.len() + y.len()) =~= whole.subrange(
            x.len() as int,
            whole.len() as int,
        ));
        assert((x + y).subrange(x.len() as int, (x + y).len() as int) =~= y);
    }
    if at(b, pos, x) && at(b, pos + x.len(), y) {
        assert(b.subrange(pos, pos + (x + y).len()) =~= b.subrange(pos, pos + x.len())
            + b.subrange(pos + x.len(), pos + x.len() + y.len()));
    }
}

/// Appends the `n` low bytes of `v`, least significant first.
pub(crate) fn push_le(out: &mut Vec<u8>, v: u128, n: usize)
    ensures
        final(out)@ == old(out)@ + le_bytes(v as nat, n as nat),
{
    let ghost start = out@;
    let mut x: u128 = v;
    let mut i: usize = 0;
    while i < n
        invariant
            0 <= i <= n,
            out@ + le_bytes(x as nat, (n - i) as nat) == start + le_bytes(v as nat, n as nat),
        decreases n - i,
    {
        let ghost before = out@;
        let ghost tail = le_bytes(x as nat, (n - i) as nat);
        out.push((x % 256) as u8);
        x = x / 256;
        i = i + 1;
        assert(before + tail =~= out@ + le_bytes(x as nat, (n - i) as nat));
    }
    assert(out@ =~= out@ + le_bytes(x as nat, 0));
}

pub(crate) fn push_bytes(out: &mut Vec<u8>, b: &[u8])
    ensures
        final(out)@ == old(out)@ + b@,
{
    let ghost start = out@;
    let mut i: usize = 0;
    while i < b.len()
        invariant
            0 <= i <= b@.len(),
            out@ == start + b@.subrange(0, i as int),
        decreases b@.len() - i,
    {
        out.push(b[i]);
        i = i + 1;
        assert(out@ =~= start + b@.subrange(0, i as int));
    }
    assert(b@.subrange(0, b@.len() as int) =~= b@);
}

fn push_text_enc(out: &mut Vec<u8>, s: &str)
    requires
        text_fits(s@),
    ensures
        final(out)@ == old(out)@ + enc_text(s@),
{
    let bytes = s.as_bytes();
    let ghost start = out@;
    push_le(out, bytes.len() as u128, 4);
    push_bytes(out, bytes);
    assert(out@ =~= start + enc_text(s@));
}

/// Reads the `n`-byte little-endian number at `pos`.
pub(crate) fn read_le(b: &[u8], pos: usize, n: usize) -> (r: Option<u128>)
    requires
        n <= 16,
    ensures
        r is Some <==> pos + n <= b@.len(),
        r matches Some(v) ==> v as nat == le_value(b@.subrange(pos as int, pos + n)),
        b@.len() <= usize::MAX,
{
    let blen = b.len();
    if n > blen || pos > blen - n {
        return None;
    }
    let mut acc: u128 = 0;
    let mut i: usize = n;
    proof {
        lemma_pow256_values();
        assert(b@.subrange(pos + n, pos + n) =~= Seq::<u8>::empty());
    }
    while i > 0
        invariant
            0 <= i <= n <= 16,
            pos + n <= blen,
            blen == b@.len(),
            acc as nat == le_value(b@.subrange(pos + i, pos + n)),
            acc < pow256((n - i) as nat),
            pow256(15) == 0x1_0000_0000_0000_0000_0000_0000_0000_00,
        decreases i,
    {
        let byte = b[pos + (i - 1)];
        proof {
            let s = b@.subrange(pos + i - 1, pos + n);
            assert(s.drop_first() =~= b@.subrange(pos + i, pos + n));
            lemma_pow256_mono((n - i) as nat, 15);
        }
        acc = acc * 256 + byte as u128;
        i = i - 1;
    }
    Some(acc)
}

fn read_byte(b: &[u8], pos: usize) -> (r: Option<u8>)
    ensures
        r is Some <==> pos < b@.len(),
        r matches Some(v) ==> v == b@[pos as int],
        b@.len() <= usize::MAX,
{
    if pos < b.len() {
        Some(b[pos])
    } else {
        None
    }
}

/// Reads a length-prefixed UTF-8 text at `pos`; returns it and the position after it.
fn read_text(b: &[u8], pos: usize) -> (r: Option<(String, usize)>)
    ensures
        r matches Some((s, p)) ==> text_fits(s@) && at(b@, pos as int, enc_text(s@)) && p == pos
            + enc_text(s@).len(),
        forall|cs: Seq<char>|
            text_fits(cs) && at(b@, pos as int, #[trigger] enc_text(cs)) ==> (r matches Some(
                (s, p),
            ) && s@ == cs && p == pos + enc_text(cs).len()),
{
    let len = match read_le(b, pos, 4) {
        Some(v) => v,
        None => {
            proof {
                assert forall|cs: Seq<char>|
                    text_fits(cs) && at(b@, pos as int, #[trigger] enc_text(cs)) implies false by {
                    lemma_pow256_values();
                    lemma_le_round(encode_utf8(cs).len(), 4);
                }
            }
            return None;
        },
    };
    let ghost head = b@.subrange(pos as int, pos + 4);
    proof {
        lemma_pow256_values();
        lemma_le_value_bytes(head);
        assert forall|cs: Seq<char>|
            text_fits(cs) && at(b@, pos as int, #[trigger] enc_text(cs)) implies encode_utf8(
                cs,
            ).len() == len && at(b@, pos + 4, encode_utf8(cs)) by {
            lemma_le_round(encode_utf8(cs).len(), 4);
            lemma_at_split(b@, pos as int, le_bytes(encode_utf8(cs).len(), 4), encode_utf8(cs));
            assert(head == le_bytes(encode_utf8(cs).len(), 4));
        }
    }
    if len > (b.len() - pos - 4) as u128 {
        return None;
    }
    let start: usize = pos + 4;
    let end: usize = start + len as usize;
    let bytes = vstd::slice::slice_to_vec(&b[start..end]);
    let ghost v = bytes@;
    match string_from_utf8(bytes) {
        Some(s) => {
            proof {
                vstd::utf8::decode_utf8_encode_utf8(v);
                assert(enc_text(s@) =~= head + v);
                lemma_at_split(b@, pos as int, head, v);
                assert forall|cs: Seq<char>|
                    text_fits(cs) && at(b@, pos as int, #[trigger] enc_text(cs)) implies s@
                    == cs by {
                    assert(v == encode_utf8(cs));
                    vstd::utf8::encode_utf8_decode_utf8(cs);
                }
            }
            Some((s, end))
        },
        None => {
            proof {
                assert forall|cs: Seq<char>|
                    text_fits(cs) && at(b@, pos as int, #[trigger] enc_text(cs)) implies false by {
                    assert(v == encode_utf8(cs));
                    vstd::utf8::encode_utf8_valid_utf8(cs);
                }
            }
            None
        },
    }
}

pub proof fn lemma_at_split3(b: Seq<u8>, pos: int, x: Seq<u8>, y: Seq<u8>, z: Seq<u8>)
    ensures
        at(b, pos, x + y + z) <==> (at(b, pos, x) && at(b, pos + x.len(), y) && at(
            b,
            pos + x.len() + y.len(),
            z,
        )),
{
    lemma_at_split(b, pos, x + y, z);
    lemma_at_split(b, pos, x, y);
}

proof fn lemma_at_split5(
    b: Seq<u8>,
    pos: int,
    x1: Seq<u8>,
    x2: Seq<u8>,
    x3: Seq<u8>,
    x4: Seq<u8>,
    x5: Seq<u8>,
)
    ensures
        at(b, pos, x1 + x2 + x3 + x4 + x5) <==> (at(b, pos, x1) && at(b, pos + x1.len(), x2)
            && at(b, pos + x1.len() + x2.len(), x3) && at(
            b,
            pos + x1.len() + x2.len() + x3.len(),
            x4,
        ) && at(b, pos + x1.len() + x2.len() + x3.len() + x4.len(), x5)),
{
    lemma_at_split(b, pos, x1 + x2 + x3 + x4, x5);
    lemma_at_split(b, pos, x1 + x2 + x3, x4);
    lemma_at_split3(b, pos, x1, x2, x3);
}

pub open spec fn time_ok(t: DateTimeUtc) -> bool {
    t.wf() && text_fits(rfc3339_text(t.secs, t.nanos))
}

pub open spec fn opt_time_ok(o: Option<DateTimeUtc>) -> bool {
    o matches Some(t) ==> time_ok(t)
}

pub open spec fn header_ok(h: HeaderView) -> bool {
    h.wf() && header_times_fit(h)
}

pub open spec fn payload_ok(p: PayloadView) -> bool {
    p matches PayloadView::Transfer { to, amount } ==> to.len() == 20 && amount > 0
}

fn read_time(b: &[u8], pos: usize) -> (r: Option<(DateTimeUtc, usize)>)
    ensures
        r matches Some((t, p)) ==> time_ok(t) && at(b@, pos as int, enc_time(t)) && p == pos
            + enc_time(t).len(),
        forall|t: DateTimeUtc|
            time_ok(t) && at(b@, pos as int, #[trigger] enc_time(t)) ==> (r matches Some((x, p))
                && x == t && p == pos + enc_time(t).len()),
{
    match read_text(b, pos) {
        Some((s, p)) => match DateTimeUtc::from_rfc3339(s.as_str()) {
            Some(t) => Some((t, p)),
            None => None,
        },
        None => None,
    }
}

fn read_opt_time(b: &[u8], pos: usize) -> (r: Option<(Option<DateTimeUtc>, usize)>)
    ensures
        r matches Some((o, p)) ==> opt_time_ok(o) && at(b@, pos as int, enc_opt_time(o)) && p
            == pos + enc_opt_time(o).len(),
        forall|o: Option<DateTimeUtc>|
            opt_time_ok(o) && at(b@, pos as int, #[trigger] enc_opt_time(o)) ==> (r matches Some(
                (x, p),
            ) && x == o && p == pos + enc_opt_time(o).len()),
{
    proof {
        assert forall|o: Option<DateTimeUtc>|
            opt_time_ok(o) && at(b@, pos as int, #[trigger] enc_opt_time(o)) implies pos
            < b@.len() && (o is None <==> b@[pos as int] == 0) && (o is Some <==> b@[pos as int]
            == 1) && (o matches Some(t) ==> at(b@, pos + 1, enc_time(t))) by {
            match o {
                None => {
                    assert(b@.subrange(pos as int, pos + 1)[0] == b@[pos as int]);
                },
                Some(t) => {
                    lemma_at_split(b@, pos as int, seq![1u8], enc_time(t));
                    assert(b@.subrange(pos as int, pos + 1)[0] == b@[pos as int]);
                },
            }
        }
    }
    match read_byte(b, pos) {
        Some(0u8) => {
            proof {
                assert(b@.subrange(pos as int, pos + 1) =~= seq![0u8]);
            }
            Some((None, pos + 1))
        },
        Some(1u8) => match read_time(b, pos + 1) {
            Some((t, p)) => {
                proof {
                    assert(b@.subrange(pos as int, pos + 1) =~= seq![1u8]);
                    lemma_at_split(b@, pos as int, seq![1u8], enc_time(t));
                }
                Some((Some(t), p))
            },
            None => None,
        },
        _ => None,
    }
}

pub(crate) fn read_address(b: &[u8], pos: usize) -> (r: Option<(Address, usize)>)
    ensures
        r is Some <==> pos + 20 <= b@.len(),
        r matches Some((a, p)) ==> at(b@, pos as int, a@) && p == pos + 20,
        forall|x: Seq<u8>|
            x.len() == 20 && #[trigger] at(b@, pos as int, x) ==> (r matches Some((a, p)) && a@
                == x && p == pos + 20),
{
    let blen = b.len();
    if blen < 20 || pos > blen - 20 {
        return None;
    }
    let mut a = [0u8; 20];
    let mut i: usize = 0;
    while i < 20
        invariant
            0 <= i <= 20,
            pos + 20 <= blen,
            blen == b@.len(),
            forall|j: int| 0 <= j < i ==> a@[j] == b@[pos + j],
        decreases 20 - i,
    {
        a[i] = b[pos + i];
        i = i + 1;
    }
    assert(a@ =~= b@.subrange(pos as int, pos + 20));
    Some((Address(a), pos + 20))
}

fn read_payload(b: &[u8], pos: usize) -> (r: Option<(TxPayload, usize)>)
    ensures
        r matches Some((x, p)) ==> payload_ok(x@) && at(b@, pos as int, enc_payload(x@)) && p
            == pos + enc_payload(x@).len(),
        forall|v: PayloadView|
            payload_ok(v) && at(b@, pos as int, #[trigger] enc_payload(v)) ==> (r matches Some(
                (x, p),
            ) && x@ == v && p == pos + enc_payload(v).len()),
{
    proof {
        assert forall|v: PayloadView|
            payload_ok(v) && at(b@, pos as int, #[trigger] enc_payload(v)) implies pos
            < b@.len() && (v is CreateAccount <==> b@[pos as int] == 0) && (v is Transfer <==> b@[pos
            as int] == 1) && (v matches PayloadView::Transfer { to, amount } ==> at(
            b@,
            pos + 1,
            to,
        ) && at(b@, pos + 21, le_bytes(amount as nat, 16))) by {
            match v {
                PayloadView::CreateAccount => {
                    assert(b@.subrange(pos as int, pos + 1)[0] == b@[pos as int]);
                },
                PayloadView::Transfer { to, amount } => {
                    lemma_at_split3(b@, pos as int, seq![1u8], to, le_bytes(amount as nat, 16));
                    assert(b@.subrange(pos as int, pos + 1)[0] == b@[pos as int]);
                },
            }
        }
    }
    match read_byte(b, pos) {
        Some(0u8) => {
            proof {
                assert(b@.subrange(pos as int, pos + 1) =~= seq![0u8]);
            }
            Some((TxPayload::CreateAccount, pos + 1))
        },
        Some(1u8) => {
            let (to, p) = match read_address(b, pos + 1) {
                Some(v) => v,
                None => {
                    return None;
                },
            };
            let amount = match read_le(b, p, 16) {
                Some(v) => v,
                None => {
                    proof {
                        assert forall|v: PayloadView|
                            payload_ok(v) && at(b@, pos as int, #[trigger] enc_payload(v))
                            implies false by {
                            if let PayloadView::Transfer { to, amount } = v {
                                lemma_pow256_values();
                                lemma_le_round(amount as nat, 16);
                            }
                        }
                    }
                    return None;
                },
            };
            if amount == 0 {
                proof {
                    lemma_pow256_values();
                    assert forall|v: PayloadView|
                        payload_ok(v) && at(b@, pos as int, #[trigger] enc_payload(v)) implies false by {
                        if let PayloadView::Transfer { to: t, amount: m } = v {
                            lemma_le_round(m as nat, 16);
                        }
                    }
                }
                return None;
            }
            proof {
                lemma_pow256_values();
                let tail = b@.subrange(p as int, p + 16);
                lemma_le_value_bytes(tail);
                assert(b@.subrange(pos as int, pos + 1) =~= seq![1u8]);
                lemma_at_split3(b@, pos as int, seq![1u8], to@, le_bytes(amount as nat, 16));
                assert forall|v: PayloadView|
                    payload_ok(v) && at(b@, pos as int, #[trigger] enc_payload(v)) implies v
                    == (PayloadView::Transfer { to: to@, amount }) by {
                    if let PayloadView::Transfer { to: t, amount: m } = v {
                        lemma_le_round(m as nat, 16);
                    }
                }
            }
            Some((TxPayload::Transfer { to, amount }, p + 16))
        },
        _ => None,
    }
}

fn read_header(b: &[u8], pos: usize) -> (r: Option<(Header, usize)>)
    ensures
        r matches Some((x, p)) ==> header_ok(x@) && at(b@, pos as int, enc_header(x@)) && p
            == pos + enc_header(x@).len(),
        forall|h: HeaderView|
            header_ok(h) && at(b@, pos as int, #[trigger] enc_header(h)) ==> (r matches Some(
                (x, p),
            ) && x@ == h && p == pos + enc_header(h).len()),
{
    proof {
        assert forall|h: HeaderView| #[trigger] enc_header(h) == enc_header(h) implies at(
            b@,
            pos as int,
            enc_header(h),
        ) == (at(b@, pos as int, enc_text(h.chain_id)) && at(
            b@,
            pos + enc_text(h.chain_id).len(),
            enc_opt_time(h.expiration),
        ) && at(
            b@,
            pos + enc_text(h.chain_id).len() + enc_opt_time(h.expiration).len(),
            enc_time(h.timestamp),
        )) by {
            lemma_at_split3(
                b@,
                pos as int,
                enc_text(h.chain_id),
                enc_opt_time(h.expiration),
                enc_time(h.timestamp),
            );
        }
    }
    let (cid, end1) = match read_text(b, pos) {
        Some(v) => v,
        None => {
            return None;
        },
    };
    let (expiration, end2) = match read_opt_time(b, end1) {
        Some(v) => v,
        None => {
            return None;
        },
    };
    let (timestamp, end3) = match read_time(b, end2) {
        Some(v) => v,
        None => {
            return None;
        },
    };
    let x = Header { chain_id: ChainId(cid), expiration, timestamp };
    proof {
        lemma_at_split3(
            b@,
            pos as int,
            enc_text(x@.chain_id),
            enc_opt_time(expiration),
            enc_time(timestamp),
        );
    }
    Some((x, end3))
}

/// Appends the text of an in-range instant.
fn push_time(out: &mut Vec<u8>, t: &DateTimeUtc)
    requires
        t.wf(),
    ensures
        final(out)@ == old(out)@ + enc_time(*t),
        time_ok(*t),
{
    let text = t.to_rfc3339();
    proof {
        vstd::utf8::is_ascii_chars_encode_utf8(text@);
    }
    push_text_enc(out, text.as_str());
}

/// The canonical bytes of a transaction.
pub fn encode(tx: &Transaction) -> (r: Vec<u8>)
    requires
        tx@.wf(),
    ensures
        r@ == encode_tx(tx@),
        encodable(tx@),
{
    let mut out: Vec<u8> = Vec::new();
    push_text_enc(&mut out, tx.header.chain_id.0.as_str());
    match &tx.header.expiration {
        None => {
            out.push(0u8);
        },
        Some(e) => {
            out.push(1u8);
            push_time(&mut out, e);
        },
    }
    push_time(&mut out, &tx.header.timestamp);
    push_text_enc(&mut out, tx.chain_id.0.as_str());
    push_bytes(&mut out, tx.from.0.as_slice());
    match &tx.tx_payload {
        TxPayload::CreateAccount => {
            out.push(0u8);
        },
        TxPayload::Transfer { to, amount } => {
            out.push(1u8);
            push_bytes(&mut out, to.0.as_slice());
            push_le(&mut out, *amount, 16);
        },
    }
    push_le(&mut out, tx.nonce as u128, 8);
    assert(out@ =~= encode_tx(tx@));
    out
}

/// The transaction whose canonical bytes are `b`, if there is one.
pub open spec fn decoded(b: Seq<u8>) -> Option<TxView> {
    if exists|t: TxView| encodable(t) && #[trigger] encode_tx(t) == b {
        Some(choose|t: TxView| encodable(t) && #[trigger] encode_tx(t) == b)
    } else {
        None
    }
}

proof fn lemma_same_piece(b: Seq<u8>, pos: int, x: Seq<u8>, y: Seq<u8>)
    requires
        at(b, pos, x),
        at(b, pos, y),
        x.len() == y.len(),
    ensures
        x == y,
{
}

proof fn lemma_text_piece(b: Seq<u8>, pos: int, x: Seq<char>, y: Seq<char>)
    requires
        text_fits(x),
        text_fits(y),
        at(b, pos, enc_text(x)),
        at(b, pos, enc_text(y)),
    ensures
        enc_text(x) == enc_text(y),
{
    lemma_pow256_values();
    let ex = encode_utf8(x);
    let ey = encode_utf8(y);
    lemma_le_round(ex.len(), 4);
    lemma_le_round(ey.len(), 4);
    lemma_at_split(b, pos, le_bytes(ex.len(), 4), ex);
    lemma_at_split(b, pos, le_bytes(ey.len(), 4), ey);
    lemma_same_piece(b, pos, le_bytes(ex.len(), 4), le_bytes(ey.len(), 4));
    lemma_same_piece(b, pos, enc_text(x), enc_text(y));
}

proof fn lemma_opt_time_piece(b: Seq<u8>, pos: int, x: Option<DateTimeUtc>, y: Option<DateTimeUtc>)
    requires
        opt_time_ok(x),
        opt_time_ok(y),
        at(b, pos, enc_opt_time(x)),
        at(b, pos, enc_opt_time(y)),
    ensures
        enc_opt_time(x) == enc_opt_time(y),
{
    assert(enc_opt_time(x)[0] == b[pos]);
    assert(enc_opt_time(y)[0] == b[pos]);
    if let (Some(tx), Some(ty)) = (x, y) {
        lemma_at_split(b, pos, seq![1u8], enc_time(tx));
        lemma_at_split(b, pos, seq![1u8], enc_time(ty));
        lemma_text_piece(b, pos + 1, rfc3339_text(tx.secs, tx.nanos), rfc3339_text(ty.secs, ty.nanos));
    }
}

proof fn lemma_payload_piece(b: Seq<u8>, pos: int, x: PayloadView, y: PayloadView)
    requires
        payload_ok(x),
        payload_ok(y),
        at(b, pos, enc_payload(x)),
        at(b, pos, enc_payload(y)),
    ensures
        enc_payload(x) == enc_payload(y),
{
    assert(enc_payload(x)[0] == b[pos]);
    assert(enc_payload(y)[0] == b[pos]);
    if let (PayloadView::Transfer { to: t1, amount: a1 }, PayloadView::Transfer { to: t2, amount: a2 }) = (x, y) {
        lemma_le_bytes_len(a1 as nat, 16);
        lemma_le_bytes_len(a2 as nat, 16);
    }
    lemma_same_piece(b, pos, enc_payload(x), enc_payload(y));
}

/// No canonical encoding is a proper prefix of another: every encoding ends
/// exactly where its last field ends.
pub proof fn lemma_encoding_prefix_free(t1: TxView, t2: TxView, extra: Seq<u8>)
    requires
        encodable(t1),
        encodable(t2),
        encode_tx(t1) + extra == encode_tx(t2),
    ensures
        extra.len() == 0,
{
    let b = encode_tx(t2);
    let e1 = encode_tx(t1);
    assert(b.subrange(0, e1.len() as int) =~= e1);
    assert(b.subrange(0, b.len() as int) =~= b);
    let (h1, h2) = (t1.header, t2.header);
    lemma_at_split5(b, 0, enc_header(h1), enc_text(t1.chain_id), t1.from, enc_payload(t1.payload), le_bytes(t1.nonce as nat, 8));
    lemma_at_split5(b, 0, enc_header(h2), enc_text(t2.chain_id), t2.from, enc_payload(t2.payload), le_bytes(t2.nonce as nat, 8));
    lemma_at_split3(b, 0, enc_text(h1.chain_id), enc_opt_time(h1.expiration), enc_time(h1.timestamp));
    lemma_at_split3(b, 0, enc_text(h2.chain_id), enc_opt_time(h2.expiration), enc_time(h2.timestamp));
    lemma_text_piece(b, 0, h1.chain_id, h2.chain_id);
    let end1 = enc_text(h1.chain_id).len() as int;
    lemma_opt_time_piece(b, end1, h1.expiration, h2.expiration);
    let end2 = end1 + enc_opt_time(h1.expiration).len();
    lemma_text_piece(b, end2, rfc3339_text(h1.timestamp.secs, h1.timestamp.nanos), rfc3339_text(h2.timestamp.secs, h2.timestamp.nanos));
    let end3 = enc_header(h1).len() as int;
    lemma_text_piece(b, end3, t1.chain_id, t2.chain_id);
    let end4 = end3 + enc_text(t1.chain_id).len() + 20;
    lemma_payload_piece(b, end4, t1.payload, t2.payload);
    lemma_le_bytes_len(t1.nonce as nat, 8);
    lemma_le_bytes_len(t2.nonce as nat, 8);
}

/// The canonical bytes of a transaction, cut short or with bytes appended, are
/// the encoding of no transaction, so `decode` refuses them.
pub proof fn lemma_decode_rejects_resized(t: TxView, cut: int, extra: Seq<u8>)
    requires
        encodable(t),
        0 <= cut < encode_tx(t).len(),
        extra.len() > 0,
    ensures
        decoded(encode_tx(t).subrange(0, cut)) is None,
        decoded(encode_tx(t) + extra) is None,
{
    let e = encode_tx(t);
    let short = e.subrange(0, cut);
    if let Some(x) = decoded(short) {
        assert(short + e.subrange(cut, e.len() as int) =~= e);
        lemma_encoding_prefix_free(x, t, e.subrange(cut, e.len() as int));
    }
    if let Some(x) = decoded(e + extra) {
        lemma_encoding_prefix_free(t, x, extra);
    }
}

/// Bytes that are not the canonical encoding of any transaction.
#[derive(Clone, Copy, Debug, PartialEq, Eq, Structural)]
pub struct DecodeError;

/// Decodes the canonical bytes of a transaction; any other byte sequence,
/// truncated or with bytes appended, is refused.
pub fn decode(b: &[u8]) -> (r: Result<Transaction, DecodeError>)
    ensures
        r matches Ok(x) ==> encodable(x@) && encode_tx(x@) == b@,
        forall|t: TxView| encodable(t) && #[trigger] encode_tx(t) == b@ ==> (r matches Ok(x) && x@ == t),
        match r {
            Ok(x) => decoded(b@) == Some(x@),
            Err(_) => decoded(b@) is None,
        },
{
    proof {
        assert(b@.subrange(0, b@.len() as int) =~= b@);
        assert forall|t: TxView| encodable(t) && #[trigger] encode_tx(t) == b@ implies at(
            b@,
            0,
            enc_header(t.header),
        ) && at(b@, enc_header(t.header).len() as int, enc_text(t.chain_id)) && at(
            b@,
            (enc_header(t.header).len() + enc_text(t.chain_id).len()) as int,
            t.from,
        ) && at(
            b@,
            (enc_header(t.header).len() + enc_text(t.chain_id).len() + 20) as int,
            enc_payload(t.payload),
        ) && at(
            b@,
            (enc_header(t.header).len() + enc_text(t.chain_id).len() + 20 + enc_payload(
                t.payload,
            ).len()) as int,
            le_bytes(t.nonce as nat, 8),
        ) && b@.len() == enc_header(t.header).len() + enc_text(t.chain_id).len() + 20
            + enc_payload(t.payload).len() + 8 by {
            lemma_le_bytes_len(t.nonce as nat, 8);
            lemma_at_split5(
                b@,
                0,
                enc_header(t.header),
                enc_text(t.chain_id),
                t.from,
                enc_payload(t.payload),
                le_bytes(t.nonce as nat, 8),
            );
        }
    }
    let (header, end1) = match read_header(b, 0) {
        Some(v) => v,
        None => {
            return Err(DecodeError);
        },
    };
    let (cid, end2) = match read_text(b, end1) {
        Some(v) => v,
        None => {
            return Err(DecodeError);
        },
    };
    let (from, end3) = match read_address(b, end2) {
        Some(v) => v,
        None => {
            return Err(DecodeError);
        },
    };
    let (payload, end4) = match read_payload(b, end3) {
        Some(v) => v,
        None => {
            return Err(DecodeError);
        },
    };
    let nonce = match read_le(b, end4, 8) {
        Some(v) => v,
        None => {
            return Err(DecodeError);
        },
    };
    if end4 + 8 != b.len() {
        return Err(DecodeError);
    }
    proof {
        lemma_pow256_values();
        lemma_le_value_bytes(b@.subrange(end4 as int, end4 + 8));
    }
    let x = Transaction {
        header,
        chain_id: ChainId(cid),
        from,
        tx_payload: payload,
        nonce: nonce as u64,
    };
    proof {
        lemma_le_bytes_len(x.nonce as nat, 8);
        lemma_at_split5(
            b@,
            0,
            enc_header(x@.header),
            enc_text(x@.chain_id),
            x@.from,
            enc_payload(x@.payload),
            le_bytes(x.nonce as nat, 8),
        );
        assert(encode_tx(x@) =~= b@);
        assert forall|t: TxView| encodable(t) && #[trigger] encode_tx(t) == b@ implies x@ == t by {
            lemma_le_round(t.nonce as nat, 8);
        }
        assert(encodable(x@) && encode_tx(x@) == b@);
    }
    Ok(x)
}

} // verus!
