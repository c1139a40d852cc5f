//! The 5-bit numbers that instructions carry.
use crate::error::Error;
use crate::text::{integer, parse_integer};
use vstd::prelude::*;

verus! {

/// An unsigned number of 5 bits.
#[allow(non_camel_case_types)]
#[derive(Debug, Clone, Copy, PartialEq, Eq, Hash, Structural)]
pub struct u5(u8);

impl View for u5 {
    type V = u8;

    closed spec fn view(&self) -> u8 {
        self.0
    }
}

impl u5 {
    #[verifier::type_invariant]
    spec fn five_bits(self) -> bool {
        self.0 < 32
    }

    /// The 5-bit number of the value `n`, for `n` below 32.
    pub closed spec fn of(n: u8) -> u5 {
        u5(n)
    }

    /// A 5-bit number is the number of its value.
    pub proof fn lemma_of(n: u8)
        ensures
            Self::of(n)@ == n,
            forall|x: u5| x@ == n ==> x == Self::of(n),
    {
    }

    /// The number `value`, which the caller knows to be below 32.
    pub fn new_unchecked(value: u8) -> (r: Self)
        requires
            value < 32,
        ensures
            r@ == value,
            r == Self::of(value),
    {
        u5(value)
    }

    /// The number `value`, or `OutOfBounds(5)` where it does not fit.
    pub fn try_from(value: u8) -> (r: Result<Self, Error>)
        ensures
            value < 32 ==> r is Ok && r->Ok_0@ == value && r->Ok_0 == Self::of(value),
            value >= 32 ==> r == Err::<Self, Error>(Error::OutOfBounds(5)),
    {
        if value > 31 {
            return Err(Error::OutOfBounds(5));
        }
        Ok(u5(value))
    }

    /// The number as a byte.
    pub fn get(&self) -> (r: u8)
        ensures
            r == self@,
            r < 32,
    {
        proof {
            use_type_invariant(self);
        }
        self.0
    }

    /// A 5-bit number is below 32, as far as it was made by this library.
    pub open spec fn small(self) -> bool {
        self@ < 32
    }

    /// The number 0.
    pub fn zero() -> (r: Self)
        ensures
            r@ == 0,
            r == Self::of(0),
    {
        u5(0)
    }

    /// The number 1.
    pub fn one() -> (r: Self)
        ensures
            r@ == 1,
            r == Self::of(1),
    {
        u5(1)
    }

    /// The number 2.
    pub fn two() -> (r: Self)
        ensures
            r@ == 2,
            r == Self::of(2),
    {
        u5(2)
    }

    /// The smallest number of five bits: 0.
    pub fn min_value() -> (r: Self)
        ensures
            r@ == 0,
            r == Self::of(0),
    {
        u5(0)
    }

    /// The largest number of five bits: 31.
    pub fn max_value() -> (r: Self)
        ensures
            r@ == 31,
            r == Self::of(31),
    {
        u5(31)
    }

    /// Whether the number is 0.
    pub fn is_zero(&self) -> (r: bool)
        ensures
            r == (self@ == 0),
    {
        self.0 == 0
    }

    /// The number `n`, where it lies between 0 and 31.
    pub open spec fn within(n: int) -> Option<u5> {
        if 0 <= n < 32 {
            Some(Self::of(n as u8))
        } else {
            None
        }
    }

    /// The number `n`, where it lies between 0 and 31.
    pub fn from_i8(n: i8) -> (r: Option<Self>)
        ensures
            r == Self::within(n as int),
    {
        if 0 <= n && n <= 31 {
            Some(u5(n as u8))
        } else {
            None
        }
    }

    /// The number `n`, where it is at most 31.
    pub fn from_u8(n: u8) -> (r: Option<Self>)
        ensures
            r == Self::within(n as int),
    {
        if n <= 31 {
            Some(u5(n))
        } else {
            None
        }
    }

    /// The number `n`, where it lies between 0 and 31.
    pub fn from_i64(n: i64) -> (r: Option<Self>)
        ensures
            r == Self::within(n as int),
    {
        if 0 <= n && n <= 31 {
            Some(u5(n as u8))
        } else {
            None
        }
    }

    /// The number `n`, where it is at most 31.
    pub fn from_u64(n: u64) -> (r: Option<Self>)
        ensures
            r == Self::within(n as int),
    {
        if n <= 31 {
            Some(u5(n as u8))
        } else {
            None
        }
    }

    /// The number that the text spells in decimal. A text that spells no
    /// number of a byte is no number; a number of a byte above 31 does not
    /// fit.
    pub open spec fn spelled(s: Seq<u8>) -> Result<u5, Error> {
        match integer(s, 0, 255) {
            Err(e) => Err(Error::ParseError(e)),
            Ok(n) => if n < 32 {
                Ok(Self::of(n as u8))
            } else {
                Err(Error::OutOfBounds(5))
            },
        }
    }

    /// The number that the text spells in decimal.
    pub fn from_str(s: &[u8]) -> (r: Result<Self, Error>)
        ensures
            r == Self::spelled(s@),
    {
        match parse_integer(s, 0, 255) {
            Err(e) => Err(Error::ParseError(e)),
            Ok(n) => Self::try_from(n as u8),
        }
    }
}

} // verus!
