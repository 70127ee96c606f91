//! Positions in the write-ahead log.
use vstd::prelude::*;

verus! {

/// A position in the log: the byte offset at which a record ends.
#[derive(Clone, Copy, Debug, PartialEq, Eq, PartialOrd, Ord, Hash, Structural)]
pub struct Lsn(pub u64);

/// The later of two positions.
pub open spec fn later(a: Lsn, b: Lsn) -> Lsn {
    if b.0 > a.0 {
        b
    } else {
        a
    }
}

/// The later of two positions.
pub fn later_of(a: Lsn, b: Lsn) -> (r: Lsn)
    ensures
        r == later(a, b),
{
    if b.0 > a.0 {
        b
    } else {
        a
    }
}

/// The later of two positions is one of them, and neither is behind it.
pub proof fn law_later_is_the_larger(a: Lsn, b: Lsn)
    ensures
        later(a, b) == a || later(a, b) == b,
        a.0 <= later(a, b).0,
        b.0 <= later(a, b).0,
{
}

} // verus!
