use vstd::prelude::*;

verus! {

/// A runtime value of the machine.
///
/// Numbers are binary64 floating-point values held as their bit pattern.
#[derive(Clone, Copy, Debug, PartialEq, Eq, Structural)]
pub enum LoxValue {
    Number(u64),
}

impl LoxValue {
    /// The number with the given binary64 bit pattern.
    pub fn from_bits(bits: u64) -> (r: LoxValue)
        ensures
            r == LoxValue::Number(bits),
    {
        LoxValue::Number(bits)
    }

    /// The value the machine's stack slots start out with: the number zero.
    pub fn zero() -> (r: LoxValue)
        ensures
            r == LoxValue::Number(0),
    {
        LoxValue::Number(0)
    }
}

} // verus!
