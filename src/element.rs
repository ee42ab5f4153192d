use vstd::prelude::*;

verus! {

/// A value that a matrix can store: it has an additive identity and a test for it.
pub trait Element: Copy + Sized {
    /// The additive identity of the type.
    spec fn spec_zero() -> Self;

    /// Returns the additive identity.
    fn zero() -> (r: Self)
        ensures
            r == Self::spec_zero(),
    ;

    /// Checks whether the value is the additive identity.
    fn is_zero(&self) -> (r: bool)
        ensures
            r == (*self == Self::spec_zero()),
    ;
}

/// A value with addition and multiplication, as the arithmetic kernels need.
///
/// On the integer types both operations wrap around, which makes each type the
/// ring of integers modulo a power of two.
pub trait Number: Element {
    /// The sum of two values.
    spec fn spec_plus(self, other: Self) -> Self;

    /// The product of two values.
    spec fn spec_times(self, other: Self) -> Self;

    /// Adding the additive identity changes nothing.
    proof fn lemma_plus_zero(a: Self)
        ensures
            a.spec_plus(Self::spec_zero()) == a,
    ;

    /// The additive identity times any value is the additive identity.
    proof fn lemma_zero_times(a: Self)
        ensures
            Self::spec_zero().spec_times(a) == Self::spec_zero(),
    ;

    /// Adds two values.
    fn plus(self, other: Self) -> (r: Self)
        ensures
            r == self.spec_plus(other),
    ;

    /// Multiplies two values.
    fn times(self, other: Self) -> (r: Self)
        ensures
            r == self.spec_times(other),
    ;
}

impl Element for bool {
    open spec fn spec_zero() -> bool {
        false
    }

    fn zero() -> (r: bool) {
        false
    }

    fn is_zero(&self) -> (r: bool) {
        !*self
    }
}

impl Element for u8 {
    open spec fn spec_zero() -> u8 {
        0
    }

    fn zero() -> (r: u8) {
        0
    }

    fn is_zero(&self) -> (r: bool) {
        *self == 0
    }
}

impl Number for u8 {
    open spec fn spec_plus(self, other: u8) -> u8 {
        vstd::wrapping::u8_specs::wrapping_add(self, other)
    }

    open spec fn spec_times(self, other: u8) -> u8 {
        vstd::wrapping::u8_specs::wrapping_mul(self, other)
    }

    proof fn lemma_plus_zero(a: u8) {
    }

    proof fn lemma_zero_times(a: u8) {
    }

    fn plus(self, other: u8) -> (r: u8) {
        self.wrapping_add(other)
    }

    fn times(self, other: u8) -> (r: u8) {
        self.wrapping_mul(other)
    }
}

impl Element for u16 {
    open spec fn spec_zero() -> u16 {
        0
    }

    fn zero() -> (r: u16) {
        0
    }

    fn is_zero(&self) -> (r: bool) {
        *self == 0
    }
}

impl Number for u16 {
    open spec fn spec_plus(self, other: u16) -> u16 {
        vstd::wrapping::u16_specs::wrapping_add(self, other)
    }

    open spec fn spec_times(self, other: u16) -> u16 {
        vstd::wrapping::u16_specs::wrapping_mul(self, other)
    }

    proof fn lemma_plus_zero(a: u16) {
    }

    proof fn lemma_zero_times(a: u16) {
    }

    fn plus(self, other: u16) -> (r: u16) {
        self.wrapping_add(other)
    }

    fn times(self, other: u16) -> (r: u16) {
        self.wrapping_mul(other)
    }
}

impl Element for u32 {
    open spec fn spec_zero() -> u32 {
        0
    }

    fn zero() -> (r: u32) {
        0
    }

    fn is_zero(&self) -> (r: bool) {
        *self == 0
    }
}

impl Number for u32 {
    open spec fn spec_plus(self, other: u32) -> u32 {
        vstd::wrapping::u32_specs::wrapping_add(self, other)
    }

    open spec fn spec_times(self, other: u32) -> u32 {
        vstd::wrapping::u32_specs::wrapping_mul(self, other)
    }

    proof fn lemma_plus_zero(a: u32) {
    }

    proof fn lemma_zero_times(a: u32) {
    }

    fn plus(self, other: u32) -> (r: u32) {
        self.wrapping_add(other)
    }

    fn times(self, other: u32) -> (r: u32) {
        self.wrapping_mul(other)
    }
}

impl Element for u64 {
    open spec fn spec_zero() -> u64 {
        0
    }

    fn zero() -> (r: u64) {
        0
    }

    fn is_zero(&self) -> (r: bool) {
        *self == 0
    }
}

impl Number for u64 {
    open spec fn spec_plus(self, other: u64) -> u64 {
        vstd::wrapping::u64_specs::wrapping_add(self, other)
    }

    open spec fn spec_times(self, other: u64) -> u64 {
        vstd::wrapping::u64_specs::wrapping_mul(self, other)
    }

    proof fn lemma_plus_zero(a: u64) {
    }

    proof fn lemma_zero_times(a: u64) {
    }

    fn plus(self, other: u64) -> (r: u64) {
        self.wrapping_add(other)
    }

    fn times(self, other: u64) -> (r: u64) {
        self.wrapping_mul(other)
    }
}

impl Element for usize {
    open spec fn spec_zero() -> usize {
        0
    }

    fn zero() -> (r: usize) {
        0
    }

    fn is_zero(&self) -> (r: bool) {
        *self == 0
    }
}

impl Number for usize {
    open spec fn spec_plus(self, other: usize) -> usize {
        vstd::wrapping::usize_specs::wrapping_add(self, other)
    }

    open spec fn spec_times(self, other: usize) -> usize {
        vstd::wrapping::usize_specs::wrapping_mul(self, other)
    }

    proof fn lemma_plus_zero(a: usize) {
    }

    proof fn lemma_zero_times(a: usize) {
        vstd::arithmetic::div_mod::lemma_small_mod(0, (usize::MAX - usize::MIN + 1) as nat);
    }

    fn plus(self, other: usize) -> (r: usize) {
        self.wrapping_add(other)
    }

    fn times(self, other: usize) -> (r: usize) {
        self.wrapping_mul(other)
    }
}

impl Element for i8 {
    open spec fn spec_zero() -> i8 {
        0
    }

    fn zero() -> (r: i8) {
        0
    }

    fn is_zero(&self) -> (r: bool) {
        *self == 0
    }
}

impl Number for i8 {
    open spec fn spec_plus(self, other: i8) -> i8 {
        vstd::wrapping::i8_specs::wrapping_add(self, other)
    }

    open spec fn spec_times(self, other: i8) -> i8 {
        vstd::wrapping::i8_specs::wrapping_mul(self, other)
    }

    proof fn lemma_plus_zero(a: i8) {
    }

    proof fn lemma_zero_times(a: i8) {
    }

    fn plus(self, other: i8) -> (r: i8) {
        self.wrapping_add(other)
    }

    fn times(self, other: i8) -> (r: i8) {
        self.wrapping_mul(other)
    }
}

impl Element for i16 {
    open spec fn spec_zero() -> i16 {
        0
    }

    fn zero() -> (r: i16) {
        0
    }

    fn is_zero(&self) -> (r: bool) {
        *self == 0
    }
}

impl Number for i16 {
    open spec fn spec_plus(self, other: i16) -> i16 {
        vstd::wrapping::i16_specs::wrapping_add(self, other)
    }

    open spec fn spec_times(self, other: i16) -> i16 {
        vstd::wrapping::i16_specs::wrapping_mul(self, other)
    }

    proof fn lemma_plus_zero(a: i16) {
    }

    proof fn lemma_zero_times(a: i16) {
    }

    fn plus(self, other: i16) -> (r: i16) {
        self.wrapping_add(other)
    }

    fn times(self, other: i16) -> (r: i16) {
        self.wrapping_mul(other)
    }
}

impl Element for i32 {
    open spec fn spec_zero() -> i32 {
        0
    }

    fn zero() -> (r: i32) {
        0
    }

    fn is_zero(&self) -> (r: bool) {
        *self == 0
    }
}

impl Number for i32 {
    open spec fn spec_plus(self, other: i32) -> i32 {
        vstd::wrapping::i32_specs::wrapping_add(self, other)
    }

    open spec fn spec_times(self, other: i32) -> i32 {
        vstd::wrapping::i32_specs::wrapping_mul(self, other)
    }

    proof fn lemma_plus_zero(a: i32) {
    }

    proof fn lemma_zero_times(a: i32) {
    }

    fn plus(self, other: i32) -> (r: i32) {
        self.wrapping_add(other)
    }

    fn times(self, other: i32) -> (r: i32) {
        self.wrapping_mul(other)
    }
}

impl Element for i64 {
    open spec fn spec_zero() -> i64 {
        0
    }

    fn zero() -> (r: i64) {
        0
    }

    fn is_zero(&self) -> (r: bool) {
        *self == 0
    }
}

impl Number for i64 {
    open spec fn spec_plus(self, other: i64) -> i64 {
        vstd::wrapping::i64_specs::wrapping_add(self, other)
    }

    open spec fn spec_times(self, other: i64) -> i64 {
        vstd::wrapping::i64_specs::wrapping_mul(self, other)
    }

    proof fn lemma_plus_zero(a: i64) {
    }

    proof fn lemma_zero_times(a: i64) {
    }

    fn plus(self, other: i64) -> (r: i64) {
        self.wrapping_add(other)
    }

    fn times(self, other: i64) -> (r: i64) {
        self.wrapping_mul(other)
    }
}

impl Element for isize {
    open spec fn spec_zero() -> isize {
        0
    }

    fn zero() -> (r: isize) {
        0
    }

    fn is_zero(&self) -> (r: bool) {
        *self == 0
    }
}

impl Number for isize {
    open spec fn spec_plus(self, other: isize) -> isize {
        vstd::wrapping::isize_specs::wrapping_add(self, other)
    }

    open spec fn spec_times(self, other: isize) -> isize {
        vstd::wrapping::isize_specs::wrapping_mul(self, other)
    }

    proof fn lemma_plus_zero(a: isize) {
    }

    proof fn lemma_zero_times(a: isize) {
    }

    fn plus(self, other: isize) -> (r: isize) {
        self.wrapping_add(other)
    }

    fn times(self, other: isize) -> (r: isize) {
        self.wrapping_mul(other)
    }
}

} // verus!
