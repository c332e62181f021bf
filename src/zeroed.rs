use vstd::prelude::*;

verus! {

/// Types whose all-zero value can be produced on demand.
pub trait Zeroed: Sized {
    /// The all-zero value of the type.
    spec fn zero() -> Self;

    fn zeroed() -> (r: Self)
        ensures
            r == Self::zero(),
    ;
}

impl Zeroed for u8 {
    open spec fn zero() -> u8 {
        0
    }

    fn zeroed() -> (r: u8) {
        0
    }
}

impl Zeroed for u32 {
    open spec fn zero() -> u32 {
        0
    }

    fn zeroed() -> (r: u32) {
        0
    }
}

impl Zeroed for u64 {
    open spec fn zero() -> u64 {
        0
    }

    fn zeroed() -> (r: u64) {
        0
    }
}

impl Zeroed for usize {
    open spec fn zero() -> usize {
        0
    }

    fn zeroed() -> (r: usize) {
        0
    }
}

impl Zeroed for i32 {
    open spec fn zero() -> i32 {
        0
    }

    fn zeroed() -> (r: i32) {
        0
    }
}

impl Zeroed for i64 {
    open spec fn zero() -> i64 {
        0
    }

    fn zeroed() -> (r: i64) {
        0
    }
}

impl Zeroed for bool {
    open spec fn zero() -> bool {
        false
    }

    fn zeroed() -> (r: bool) {
        false
    }
}

} // verus!
