//! Exact integer square roots for the fixed-width integer types.
//!
//! The `SquareRoot` trait offers one operation, `sqrt`, on every supported
//! signed and unsigned integer type, computed without floating point.  For an
//! unsigned value it returns the floor of the real square root; for a
//! non-negative signed value it does the same; for a negative signed value it
//! returns the minimum representable value of the type as a sentinel.

use vstd::prelude::*;

pub mod extract;
pub mod floor_sqrt;

pub use extract::isqrt_16;
pub use extract::isqrt_32;
pub use extract::isqrt_64;
pub use extract::isqrt_8;
pub use floor_sqrt::is_floor_sqrt;

verus! {

/// The square-root capability: one operation, available on each supported
/// integer type.  `sqrt_post` is what `sqrt` promises for a receiver of the
/// implementing type.
pub trait SquareRoot<T> {
    /// What `sqrt` returns for this receiver: the floor square root of a
    /// value in the operation's domain, or the documented sentinel.
    spec fn sqrt_post(&self, root: T) -> bool;

    fn sqrt(&self) -> (root: T)
        ensures
            self.sqrt_post(root),
    ;
}

/// A signed value is a valid square-root input exactly when it is not
/// negative.
pub fn is_valid_signed(n: &isize) -> (r: bool)
    ensures
        r == (*n >= 0),
{
    *n >= 0
}

impl SquareRoot<u64> for u64 {
    open spec fn sqrt_post(&self, root: u64) -> bool {
        is_floor_sqrt(*self as int, root as int)
    }

    fn sqrt(&self) -> (root: u64) {
        isqrt_64(self)
    }
}

impl SquareRoot<u32> for u32 {
    open spec fn sqrt_post(&self, root: u32) -> bool {
        is_floor_sqrt(*self as int, root as int)
    }

    fn sqrt(&self) -> (root: u32) {
        isqrt_32(self)
    }
}

impl SquareRoot<u16> for u16 {
    open spec fn sqrt_post(&self, root: u16) -> bool {
        is_floor_sqrt(*self as int, root as int)
    }

    fn sqrt(&self) -> (root: u16) {
        isqrt_16(self)
    }
}

impl SquareRoot<u8> for u8 {
    open spec fn sqrt_post(&self, root: u8) -> bool {
        is_floor_sqrt(*self as int, root as int)
    }

    fn sqrt(&self) -> (root: u8) {
        isqrt_8(self)
    }
}

impl SquareRoot<usize> for usize {
    open spec fn sqrt_post(&self, root: usize) -> bool {
        is_floor_sqrt(*self as int, root as int)
    }

    fn sqrt(&self) -> (root: usize) {
        // a pointer-sized value always fits in 64 bits on the word widths the
        // verifier models, so the 64-bit extractor serves every platform
        let wide: u64 = isqrt_64(&(*self as u64));
        proof {
            floor_sqrt::lemma_floor_sqrt_le(*self as int, wide as int);
        }
        wide as usize
    }
}

impl SquareRoot<i64> for i64 {
    open spec fn sqrt_post(&self, root: i64) -> bool {
        if *self < 0 {
            root == i64::MIN
        } else {
            is_floor_sqrt(*self as int, root as int)
        }
    }

    fn sqrt(&self) -> (root: i64) {
        // an isize may be narrower than 64 bits, so test the sign in place
        if *self < 0 {
            return i64::MIN;
        }
        let wide: u64 = isqrt_64(&(*self as u64));
        proof {
            floor_sqrt::lemma_floor_sqrt_le(*self as int, wide as int);
        }
        wide as i64
    }
}

impl SquareRoot<i32> for i32 {
    open spec fn sqrt_post(&self, root: i32) -> bool {
        if *self < 0 {
            root == i32::MIN
        } else {
            is_floor_sqrt(*self as int, root as int)
        }
    }

    fn sqrt(&self) -> (root: i32) {
        if !is_valid_signed(&(*self as isize)) {
            return i32::MIN;
        }
        let wide: u32 = isqrt_32(&(*self as u32));
        proof {
            floor_sqrt::lemma_floor_sqrt_le(*self as int, wide as int);
        }
        wide as i32
    }
}

impl SquareRoot<i16> for i16 {
    open spec fn sqrt_post(&self, root: i16) -> bool {
        if *self < 0 {
            root == i16::MIN
        } else {
            is_floor_sqrt(*self as int, root as int)
        }
    }

    fn sqrt(&self) -> (root: i16) {
        if !is_valid_signed(&(*self as isize)) {
            return i16::MIN;
        }
        let wide: u16 = isqrt_16(&(*self as u16));
        proof {
            floor_sqrt::lemma_floor_sqrt_le(*self as int, wide as int);
        }
        wide as i16
    }
}

impl SquareRoot<i8> for i8 {
    open spec fn sqrt_post(&self, root: i8) -> bool {
        if *self < 0 {
            root == i8::MIN
        } else {
            is_floor_sqrt(*self as int, root as int)
        }
    }

    fn sqrt(&self) -> (root: i8) {
        if !is_valid_signed(&(*self as isize)) {
            return i8::MIN;
        }
        let narrow: u8 = isqrt_8(&(*self as u8));
        proof {
            floor_sqrt::lemma_floor_sqrt_le(*self as int, narrow as int);
        }
        narrow as i8
    }
}

impl SquareRoot<isize> for isize {
    open spec fn sqrt_post(&self, root: isize) -> bool {
        if *self < 0 {
            root == isize::MIN
        } else {
            is_floor_sqrt(*self as int, root as int)
        }
    }

    fn sqrt(&self) -> (root: isize) {
        if !is_valid_signed(self) {
            return isize::MIN;
        }
        // a pointer-sized value always fits in 64 bits on the word widths the
        // verifier models, so the 64-bit extractor serves every platform
        let wide: u64 = isqrt_64(&(*self as u64));
        proof {
            floor_sqrt::lemma_floor_sqrt_le(*self as int, wide as int);
        }
        wide as isize
    }
}

} // verus!
