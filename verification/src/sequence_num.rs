use vstd::prelude::*;

verus! {

/// A per-(author, key) version counter. A fresh key starts at 0; the owning
/// node assigns `max(existing) + 1` for each new value it authors.
#[derive(Debug, Clone, PartialEq, Eq, Structural)]
pub struct SequenceNumber {
    pub num: u64,
}

impl SequenceNumber {
    /// Sequence numbers order by the natural order of `num`.
    pub fn order(&self, other: &Self) -> (r: core::cmp::Ordering)
        ensures
            r == core::cmp::Ordering::Less <==> self.num < other.num,
            r == core::cmp::Ordering::Equal <==> self.num == other.num,
            r == core::cmp::Ordering::Greater <==> self.num > other.num,
    {
        if self.num < other.num {
            core::cmp::Ordering::Less
        } else if self.num == other.num {
            core::cmp::Ordering::Equal
        } else {
            core::cmp::Ordering::Greater
        }
    }
}

} // verus!
