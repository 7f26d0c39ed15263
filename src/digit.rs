use vstd::prelude::*;

verus! {

/// An unsigned integer type that can carry one base-4 digit in and out of
/// the packed containers.
pub trait Digit: Copy {
    /// The mathematical value of this integer.
    spec fn as_int(&self) -> int;

    /// Widens the value losslessly to the width of the packing register.
    fn widen(&self) -> (r: u128)
        ensures
            r as int == self.as_int(),
    ;

    /// Converts a stored digit losslessly into this type.
    fn from_digit(d: u8) -> (r: Self)
        requires
            d < 4,
        ensures
            r.as_int() == d as int,
    ;
}

impl Digit for u8 {
    open spec fn as_int(&self) -> int {
        *self as int
    }

    fn widen(&self) -> (r: u128) {
        *self as u128
    }

    fn from_digit(d: u8) -> (r: Self) {
        d
    }
}

impl Digit for u16 {
    open spec fn as_int(&self) -> int {
        *self as int
    }

    fn widen(&self) -> (r: u128) {
        *self as u128
    }

    fn from_digit(d: u8) -> (r: Self) {
        d as u16
    }
}

impl Digit for u32 {
    open spec fn as_int(&self) -> int {
        *self as int
    }

    fn widen(&self) -> (r: u128) {
        *self as u128
    }

    fn from_digit(d: u8) -> (r: Self) {
        d as u32
    }
}

impl Digit for u64 {
    open spec fn as_int(&self) -> int {
        *self as int
    }

    fn widen(&self) -> (r: u128) {
        *self as u128
    }

    fn from_digit(d: u8) -> (r: Self) {
        d as u64
    }
}

impl Digit for u128 {
    open spec fn as_int(&self) -> int {
        *self as int
    }

    fn widen(&self) -> (r: u128) {
        *self as u128
    }

    fn from_digit(d: u8) -> (r: Self) {
        d as u128
    }
}

impl Digit for usize {
    open spec fn as_int(&self) -> int {
        *self as int
    }

    fn widen(&self) -> (r: u128) {
        *self as u128
    }

    fn from_digit(d: u8) -> (r: Self) {
        d as usize
    }
}

/// The values of a sequence of digit-carrying integers.
pub open spec fn values<T: Digit>(s: Seq<T>) -> Seq<int> {
    s.map_values(|x: T| x.as_int())
}

/// Every element is a base-4 digit: 0, 1, 2 or 3.
pub open spec fn all_digits(s: Seq<int>) -> bool {
    forall|i: int| 0 <= i < s.len() ==> 0 <= #[trigger] s[i] < 4
}

} // verus!
