use vstd::prelude::*;

verus! {

/// A block height of the chain.
#[derive(Clone, Copy, Debug, PartialEq, Eq, Structural, PartialOrd, Ord, Hash)]
pub struct BlockHeight(pub u64);

/// The largest height, which no real block reaches.
pub const SENTINEL_HEIGHT: u64 = 0xffff_ffff_ffff_ffff;

impl Default for BlockHeight {
    /// The sentinel height.
    fn default() -> (r: BlockHeight)
        ensures
            r.0 == SENTINEL_HEIGHT,
    {
        BlockHeight(SENTINEL_HEIGHT)
    }
}

impl From<BlockHeight> for u64 {
    fn from(height: BlockHeight) -> (r: u64) {
        height.0
    }
}

impl vstd::std_specs::convert::FromSpecImpl<BlockHeight> for u64 {
    open spec fn obeys_from_spec() -> bool {
        true
    }

    open spec fn from_spec(height: BlockHeight) -> u64 {
        height.0
    }
}

pub open spec fn is_digit(c: char) -> bool {
    '0' <= c && c <= '9'
}

/// The number that a string of decimal digits spells.
pub open spec fn decimal_value(d: Seq<char>) -> int
    decreases d.len(),
{
    if d.len() == 0 {
        0
    } else {
        decimal_value(d.drop_last()) * 10 + (d.last() as u32 - '0' as u32)
    }
}

/// An optional `+` followed by one or more decimal digits whose value fits in 64 bits.
pub open spec fn u64_text(s: Seq<char>) -> Option<u64> {
    let d = if s.len() > 0 && s[0] == '+' {
        s.drop_first()
    } else {
        s
    };
    if d.len() > 0 && (forall|i: int| 0 <= i < d.len() ==> is_digit(#[trigger] d[i]))
        && decimal_value(d) <= u64::MAX {
        Some(decimal_value(d) as u64)
    } else {
        None
    }
}

/// Relies on u64's `FromStr` (via `str::parse`): an optional `+` and decimal digits
/// whose value fits; anything else is an error.
#[verifier::external_body]
fn parse_u64(s: &str) -> (r: Option<u64>)
    ensures
        r == u64_text(s@),
{
    s.parse::<u64>().ok()
}

impl BlockHeight {
    /// Parses a height written in decimal.
    pub fn from_str(s: &str) -> (r: Option<BlockHeight>)
        ensures
            r is Some <==> u64_text(s@) is Some,
            r matches Some(h) ==> u64_text(s@) == Some(h.0),
    {
        match parse_u64(s) {
            Some(v) => Some(BlockHeight(v)),
            None => None,
        }
    }
}

} // verus!
