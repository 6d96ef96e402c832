use vstd::prelude::*;

verus! {

/// An opaque, fixed-width node tag. It stands in for a future asymmetric
/// key, so nothing in the library inspects it beyond equality and order.
#[derive(Debug, Clone, Copy, PartialEq, Eq, PartialOrd, Ord, Hash, Structural)]
pub struct Id {
    pub tmp: u16,
}

impl Id {
    /// Relies on rand::random: draws a fresh tag; nothing is promised of
    /// the value.
    #[verifier::external_body]
    pub fn generate() -> Self {
        Self { tmp: rand::random() }
    }
}

impl Default for Id {
    fn default() -> (r: Self)
        ensures
            r.tmp == 12345,
    {
        Self { tmp: 12345 }
    }
}

impl From<u16> for Id {
    fn from(value: u16) -> (r: Self)
        ensures
            r.tmp == value,
    {
        Self { tmp: value }
    }
}

impl vstd::std_specs::convert::FromSpecImpl<u16> for Id {
    open spec fn obeys_from_spec() -> bool {
        true
    }

    open spec fn from_spec(value: u16) -> Self {
        Id { tmp: value }
    }
}

} // verus!
