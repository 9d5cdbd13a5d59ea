use vstd::prelude::*;
use vstd::string::StringExecFns;
use vstd::utf8::is_ascii_chars;

verus! {

/// Number of bytes in an account address.
pub const ADDRESS_LEN: usize = 20;

/// 0000-01-01T00:00:00Z, the earliest instant with a four-digit year.
pub const MIN_UNIX_SECS: i64 = -62167219200;

/// 9999-12-31T23:59:59Z, the last second with a four-digit year.
pub const MAX_UNIX_SECS: i64 = 253402300799;

pub const NANOS_PER_SEC: u32 = 1_000_000_000;

/// Length of the canonical timestamp text, e.g. `2024-01-02T03:04:05.000000006+00:00`.
pub const RFC3339_TEXT_LEN: usize = 35;

/// The lowercase hexadecimal digits.
pub open spec fn hex_alphabet() -> Seq<char> {
    seq!['0', '1', '2', '3', '4', '5', '6', '7', '8', '9', 'a', 'b', 'c', 'd', 'e', 'f']
}

/// Two lowercase hex digits per byte, high nibble first.
pub open spec fn hex_chars(b: Seq<u8>) -> Seq<char>
    decreases b.len(),
{
    if b.len() == 0 {
        seq![]
    } else {
        seq![hex_alphabet()[(b[0] / 16) as int], hex_alphabet()[(b[0] % 16) as int]] + hex_chars(
            b.drop_first(),
        )
    }
}

/// Relies on hex::encode: each byte becomes two lowercase digits, high nibble first.
#[verifier::external_body]
fn hex_encode(b: &[u8]) -> (r: String)
    ensures
        r@ == hex_chars(b@),
{
    hex::encode(b)
}

/// Relies on String::from_utf8: it succeeds exactly on valid UTF-8 and keeps the characters.
#[verifier::external_body]
pub(crate) fn string_from_utf8(v: Vec<u8>) -> (r: Option<String>)
    ensures
        r is Some <==> vstd::utf8::valid_utf8(v@),
        r matches Some(s) ==> s@ == vstd::utf8::decode_utf8(v@),
{
    String::from_utf8(v).ok()
}

/// A 20-byte account identifier.
#[derive(Clone, Copy, Debug)]
pub struct Address(pub [u8; 20]);

impl View for Address {
    type V = Seq<u8>;

    open spec fn view(&self) -> Seq<u8> {
        self.0@
    }
}

/// `0x` followed by the address in lowercase hex.
pub open spec fn address_text(a: Seq<u8>) -> Seq<char> {
    seq!['0', 'x'] + hex_chars(a)
}

impl Address {
    /// Byte-wise equality.
    pub fn same_as(&self, other: &Address) -> (r: bool)
        ensures
            r == (self@ == other@),
    {
        let mut i: usize = 0;
        while i < ADDRESS_LEN
            invariant
                0 <= i <= ADDRESS_LEN,
                self@.len() == ADDRESS_LEN,
                other@.len() == ADDRESS_LEN,
                forall|j: int| 0 <= j < i ==> self@[j] == other@[j],
            decreases ADDRESS_LEN - i,
        {
            if self.0[i] != other.0[i] {
                return false;
            }
            i = i + 1;
        }
        assert(self@ =~= other@);
        true
    }

    /// The display form, `0x` followed by forty hex digits.
    pub fn to_hex_string(&self) -> (r: String)
        ensures
            r@ == address_text(self@),
    {
        let mut s = "0x".to_owned();
        let h = hex_encode(self.0.as_slice());
        s.append(h.as_str());
        proof {
            reveal_strlit("0x");
        }
        s
    }
}

/// A chain identity, compared character by character.
#[derive(Clone, Debug)]
pub struct ChainId(pub String);

impl View for ChainId {
    type V = Seq<char>;

    open spec fn view(&self) -> Seq<char> {
        self.0@
    }
}

/// Relies on chrono's `DateTime::from_timestamp` and `format` with the fixed pattern
/// `%Y-%m-%dT%H:%M:%S%.9f+00:00`: for a four-digit year this is 35 ASCII characters.
pub uninterp spec fn rfc3339_text(secs: i64, nanos: u32) -> Seq<char>;

/// An instant in UTC as whole seconds since the Unix epoch and nanoseconds.
#[derive(Clone, Copy, Debug, PartialEq, Eq, Structural)]
pub struct DateTimeUtc {
    pub secs: i64,
    pub nanos: u32,
}

/// A timestamp is in range when its year has four digits and it is not a leap second.
pub open spec fn in_range(secs: i64, nanos: u32) -> bool {
    MIN_UNIX_SECS <= secs <= MAX_UNIX_SECS && nanos < NANOS_PER_SEC
}

/// Relies on chrono's DateTime::from_timestamp and DateTime::format (see `rfc3339_text`).
#[verifier::external_body]
fn format_rfc3339(secs: i64, nanos: u32) -> (r: String)
    requires
        in_range(secs, nanos),
    ensures
        r@ == rfc3339_text(secs, nanos),
        r@.len() == RFC3339_TEXT_LEN,
        is_ascii_chars(r@),
{
    let dt = chrono::DateTime::from_timestamp(secs, nanos).unwrap();
    dt.format("%Y-%m-%dT%H:%M:%S%.9f+00:00").to_string()
}

/// Relies on chrono's NaiveDateTime::parse_from_str with the same pattern: the text of an
/// in-range instant parses back to that instant.
#[verifier::external_body]
fn parse_rfc3339(s: &str) -> (r: Option<(i64, u32)>)
    ensures
        forall|secs: i64, nanos: u32|
            in_range(secs, nanos) && s@ == #[trigger] rfc3339_text(secs, nanos) ==> r == Some(
                (secs, nanos),
            ),
{
    match chrono::NaiveDateTime::parse_from_str(s, "%Y-%m-%dT%H:%M:%S%.9f+00:00") {
        Ok(dt) => Some((dt.and_utc().timestamp(), dt.and_utc().timestamp_subsec_nanos())),
        Err(_) => None,
    }
}

impl DateTimeUtc {
    pub open spec fn wf(&self) -> bool {
        in_range(self.secs, self.nanos)
    }

    /// Strictly later in time.
    pub open spec fn spec_is_after(&self, other: &DateTimeUtc) -> bool {
        self.secs > other.secs || (self.secs == other.secs && self.nanos > other.nanos)
    }

    pub fn new(secs: i64, nanos: u32) -> (r: Option<DateTimeUtc>)
        ensures
            r is Some <==> in_range(secs, nanos),
            r matches Some(t) ==> t.secs == secs && t.nanos == nanos,
    {
        if MIN_UNIX_SECS <= secs && secs <= MAX_UNIX_SECS && nanos < NANOS_PER_SEC {
            Some(DateTimeUtc { secs, nanos })
        } else {
            None
        }
    }

    pub fn is_after(&self, other: &DateTimeUtc) -> (r: bool)
        ensures
            r == self.spec_is_after(other),
    {
        self.secs > other.secs || (self.secs == other.secs && self.nanos > other.nanos)
    }

    /// The canonical text form, `YYYY-MM-DDTHH:MM:SS.nnnnnnnnn+00:00`.
    pub fn to_rfc3339(&self) -> (r: String)
        requires
            self.wf(),
        ensures
            r@ == rfc3339_text(self.secs, self.nanos),
            r@.len() == RFC3339_TEXT_LEN,
            is_ascii_chars(r@),
    {
        format_rfc3339(self.secs, self.nanos)
    }

    /// Parses the canonical text form; any other text is refused.
    pub fn from_rfc3339(s: &str) -> (r: Option<DateTimeUtc>)
        ensures
            r matches Some(t) ==> t.wf() && rfc3339_text(t.secs, t.nanos) == s@,
            forall|t: DateTimeUtc| t.wf() && rfc3339_text(t.secs, t.nanos) == s@ ==> r == Some(t),
    {
        match parse_rfc3339(s) {
            Some((secs, nanos)) => {
                if MIN_UNIX_SECS <= secs && secs <= MAX_UNIX_SECS && nanos < NANOS_PER_SEC {
                    let text = format_rfc3339(secs, nanos);
                    let given = s.to_owned();
                    if text == given {
                        Some(DateTimeUtc { secs, nanos })
                    } else {
                        None
                    }
                } else {
                    None
                }
            },
            None => None,
        }
    }
}

} // verus!
