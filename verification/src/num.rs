//! 29-bit and 30-bit integers used throughout the library.

use vstd::prelude::*;

verus! {

/// The largest value a 29 bit unsigned integer can hold.
pub open spec fn u29_max() -> int {
    536870911
}

/// The smallest value a 30 bit signed integer can hold.
pub open spec fn i30_min() -> int {
    -536870912
}

/// The largest value a 30 bit signed integer can hold.
pub open spec fn i30_max() -> int {
    536870911
}

/// The error returned when an integer does not fit in a narrow integer type.
#[derive(Debug, Copy, Clone, PartialEq, Eq)]
pub struct TryFromIntError(pub(crate) ());

impl TryFromIntError {
    /// The message describing this error.
    pub fn message(&self) -> (s: &'static str)
        ensures
            s@ == "out of range integral type conversion attempted"@,
    {
        "out of range integral type conversion attempted"
    }
}

/// A 29 bit integer. It cannot be zero.
#[derive(Clone, Copy, Debug, PartialEq, Eq, Structural, PartialOrd, Ord)]
pub struct NonZeroU29(u32);

impl View for NonZeroU29 {
    type V = u32;

    open spec fn view(&self) -> u32 {
        self.spec_value()
    }
}

impl NonZeroU29 {
    pub const MIN_VALUE: u32 = 1;
    pub const MAX_VALUE: u32 = 536870911;

    /// The smallest value, one.
    pub fn minimum() -> (r: Self)
        ensures
            r@ == 1,
    {
        Self(1)
    }

    /// The largest value, `2^29 - 1`.
    pub fn maximum() -> (r: Self)
        ensures
            r@ == u29_max(),
    {
        Self(536870911)
    }

    /// The value held.
    pub closed spec fn spec_value(&self) -> u32 {
        self.0
    }

    /// Every value held is in `1..=2^29 - 1`.
    #[verifier::type_invariant]
    closed spec fn in_range(&self) -> bool {
        1 <= self.0 <= u29_max()
    }

    /// Makes a value from `n`, if `n` is in `1..=2^29 - 1`.
    pub fn new(n: u32) -> (r: Option<Self>)
        ensures
            r is Some <==> 1 <= n <= u29_max(),
            r matches Some(v) ==> v@ == n,
    {
        if n >= Self::MIN_VALUE && n <= Self::MAX_VALUE {
            Some(Self(n))
        } else {
            None
        }
    }

    /// Makes a value from `n`, which must be in range (the caller checks it).
    pub fn new_unwrap(n: u32) -> (r: Self)
        requires
            1 <= n <= u29_max(),
        ensures
            r@ == n,
    {
        Self(n)
    }

    /// The value held.
    pub fn get(self) -> (r: u32)
        ensures
            r == self@,
            1 <= r <= u29_max(),
    {
        proof {
            use_type_invariant(&self);
        }
        self.0
    }

}

/// A 29 bit integer.
#[derive(Clone, Copy, Debug, PartialEq, Eq, Structural, PartialOrd, Ord)]
#[allow(non_camel_case_types)]
pub struct u29(u32);

impl View for u29 {
    type V = u32;

    open spec fn view(&self) -> u32 {
        self.spec_value()
    }
}

impl u29 {
    pub const MIN_VALUE: u32 = 0;
    pub const MAX_VALUE: u32 = 536870911;

    /// The smallest value, zero.
    pub fn zero() -> (r: Self)
        ensures
            r@ == 0,
    {
        Self(0)
    }

    /// The largest value, `2^29 - 1`.
    pub fn maximum() -> (r: Self)
        ensures
            r@ == u29_max(),
    {
        Self(536870911)
    }

    /// The value held.
    pub closed spec fn spec_value(&self) -> u32 {
        self.0
    }

    #[verifier::type_invariant]
    closed spec fn in_range(&self) -> bool {
        self.0 <= u29_max()
    }

    /// Makes a value from `n`, if `n` is in `0..=2^29 - 1`.
    pub fn new(n: u32) -> (r: Option<Self>)
        ensures
            r is Some <==> n <= u29_max(),
            r matches Some(v) ==> v@ == n,
    {
        if n <= Self::MAX_VALUE {
            Some(Self(n))
        } else {
            None
        }
    }

    /// Makes a value from `n`, which must be in range (the caller checks it).
    pub fn new_unwrap(n: u32) -> (r: Self)
        requires
            n <= u29_max(),
        ensures
            r@ == n,
    {
        Self(n)
    }

    /// The value held.
    pub fn get(self) -> (r: u32)
        ensures
            r == self@,
            r <= u29_max(),
    {
        proof {
            use_type_invariant(&self);
        }
        self.0
    }

    /// Converts from a non-zero value.
    pub fn from_non_zero(value: NonZeroU29) -> (r: Self)
        ensures
            r@ == value@,
    {
        Self(value.get())
    }

    /// Converts from an optional non-zero value, where `None` is zero.
    pub fn from_option(value: Option<NonZeroU29>) -> (r: Self)
        ensures
            r@ == (match value {
                Some(v) => v@,
                None => 0u32,
            }),
    {
        match value {
            Some(value) => Self(value.get()),
            None => Self(0),
        }
    }

    /// Converts from a `u16`, which always fits.
    pub fn from_u16(value: u16) -> (r: Self)
        ensures
            r@ == value,
    {
        Self(value as u32)
    }

    /// Converts from a `u64` if it fits.
    pub fn try_from_u64(value: u64) -> (r: Result<Self, TryFromIntError>)
        ensures
            r is Ok <==> value <= u29_max(),
            r matches Ok(v) ==> v@ == value,
    {
        if value <= 536870911u64 {
            Ok(Self(value as u32))
        } else {
            Err(TryFromIntError(()))
        }
    }

}

/// A 30 bit signed integer describing the offset of data in a segment in words.
#[derive(Clone, Copy, Debug, PartialEq, Eq, Structural, PartialOrd, Ord)]
#[allow(non_camel_case_types)]
pub struct i30(i32);

impl View for i30 {
    type V = i32;

    open spec fn view(&self) -> i32 {
        self.spec_value()
    }
}

impl i30 {
    pub const MIN_VALUE: i32 = -536870912;
    pub const MAX_VALUE: i32 = 536870911;

    /// The smallest value, `-2^29`.
    pub fn minimum() -> (r: Self)
        ensures
            r@ == i30_min(),
    {
        Self(-536870912)
    }

    /// The largest value, `2^29 - 1`.
    pub fn maximum() -> (r: Self)
        ensures
            r@ == i30_max(),
    {
        Self(536870911)
    }

    /// The value held.
    pub closed spec fn spec_value(&self) -> i32 {
        self.0
    }

    #[verifier::type_invariant]
    closed spec fn in_range(&self) -> bool {
        i30_min() <= self.0 <= i30_max()
    }

    /// Makes a value from `n`, if `n` is in `-2^29..=2^29 - 1`.
    pub fn new(n: i32) -> (r: Option<Self>)
        ensures
            r is Some <==> i30_min() <= n <= i30_max(),
            r matches Some(v) ==> v@ == n,
    {
        if n >= Self::MIN_VALUE && n <= Self::MAX_VALUE {
            Some(Self(n))
        } else {
            None
        }
    }

    /// Makes a value from `n`, which must be in range (the caller checks it).
    pub fn new_unwrap(n: i32) -> (r: Self)
        requires
            i30_min() <= n <= i30_max(),
        ensures
            r@ == n,
    {
        Self(n)
    }

    /// The value held.
    pub fn get(self) -> (r: i32)
        ensures
            r == self@,
            i30_min() <= r <= i30_max(),
    {
        proof {
            use_type_invariant(&self);
        }
        self.0
    }

    /// Converts from a 29 bit unsigned value, which always fits.
    pub fn from_u29(value: u29) -> (r: Self)
        ensures
            r@ == value@,
    {
        Self(value.get() as i32)
    }

}

} // verus!
