//! Conversions between the scalar types the tracer works with.
use vstd::prelude::*;

verus! {

/// A conversion that can fail: `Some` exactly when the value fits the
/// target type.
pub trait TryConvert<Output>: Sized {
    /// Whether the value converts.
    spec fn fits(self) -> bool;

    /// The converted value, meaningful when it fits.
    spec fn value(self) -> Output;

    fn try_convert(self) -> (r: Option<Output>)
        ensures
            self.fits() ==> r == Some(self.value()),
            !self.fits() ==> r is None,
    ;
}

/// An infallible conversion.
pub trait Convert<Output>: Sized {
    /// The converted value.
    spec fn value_spec(self) -> Output;

    fn convert(self) -> (r: Output)
        ensures
            r == self.value_spec(),
    ;
}

impl TryConvert<usize> for i64 {
    open spec fn fits(self) -> bool {
        0 <= self <= usize::MAX
    }

    open spec fn value(self) -> usize {
        self as usize
    }

    fn try_convert(self) -> (r: Option<usize>) {
        if self >= 0 && self as u64 <= usize::MAX as u64 {
            Some(self as usize)
        } else {
            None
        }
    }
}

impl TryConvert<i64> for usize {
    open spec fn fits(self) -> bool {
        self <= i64::MAX
    }

    open spec fn value(self) -> i64 {
        self as i64
    }

    fn try_convert(self) -> (r: Option<i64>) {
        if self as u64 <= i64::MAX as u64 {
            Some(self as i64)
        } else {
            None
        }
    }
}

impl Convert<i64> for u32 {
    open spec fn value_spec(self) -> i64 {
        self as i64
    }

    fn convert(self) -> (r: i64) {
        self as i64
    }
}

impl Convert<usize> for u32 {
    open spec fn value_spec(self) -> usize {
        self as usize
    }

    fn convert(self) -> (r: usize) {
        self as usize
    }
}

} // verus!
