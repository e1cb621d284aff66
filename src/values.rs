//! Integer types that the index can hold, and the split of a value into blocks.
use vstd::arithmetic::div_mod::{lemma_fundamental_div_mod, lemma_mod_bound, lemma_small_mod};
use vstd::arithmetic::power::pow;
use vstd::arithmetic::power2::{pow2, lemma2_to64, lemma_pow2_adds};
use vstd::prelude::*;

verus! {

/// Converts a value to `usize`.
pub trait TransmuteToUsize: Sized {
    /// The value's bits read as an unsigned number.
    spec fn bit_pattern(self) -> nat;

    /// The lowest bits of the value, as many as a `usize` holds.
    fn transmute_to_usize(self) -> (r: usize)
        ensures
            r as nat == self.bit_pattern() % (usize::MAX as nat + 1),
    ;
}

/// A fixed-width integer type that the index can hold.
pub trait BitValue: TransmuteToUsize + Copy {
    /// The width of the type in bits.
    spec fn bit_count() -> nat;

    /// The width of the type in bits.
    fn bits_per_value() -> (r: usize)
        ensures
            r == Self::bit_count(),
            r == 8 || r == 16 || r == 32 || r == 64 || r == 128,
    ;

    /// The value's bits as an unsigned number.
    fn to_bits(self) -> (r: u128)
        ensures
            r == self.bit_pattern(),
    ;

    /// The value with bit pattern `bits`.
    fn from_bits(bits: u128) -> (r: Self)
        requires
            bits < pow2(Self::bit_count()),
        ensures
            r.bit_pattern() == bits,
    ;

    /// The bit pattern fits the width and tells values apart.
    proof fn lemma_bit_pattern(a: Self, b: Self)
        ensures
            a.bit_pattern() < pow2(Self::bit_count()),
            a.bit_pattern() == b.bit_pattern() ==> a == b,
    ;
}

impl TransmuteToUsize for u8 {
    open spec fn bit_pattern(self) -> nat {
        self as nat
    }

    fn transmute_to_usize(self) -> usize {
        proof {
            lemma_small_mod(self as nat, usize::MAX as nat + 1);
        }
        self as usize
    }
}

impl BitValue for u8 {
    open spec fn bit_count() -> nat {
        8
    }

    fn bits_per_value() -> usize {
        8
    }

    fn to_bits(self) -> u128 {
        self as u128
    }

    fn from_bits(bits: u128) -> Self {
        proof {
            lemma2_to64();
        }
        bits as u8
    }

    proof fn lemma_bit_pattern(a: Self, b: Self) {
        lemma2_to64();
    }
}

impl TransmuteToUsize for u16 {
    open spec fn bit_pattern(self) -> nat {
        self as nat
    }

    fn transmute_to_usize(self) -> usize {
        proof {
            lemma_small_mod(self as nat, usize::MAX as nat + 1);
        }
        self as usize
    }
}

impl BitValue for u16 {
    open spec fn bit_count() -> nat {
        16
    }

    fn bits_per_value() -> usize {
        16
    }

    fn to_bits(self) -> u128 {
        self as u128
    }

    fn from_bits(bits: u128) -> Self {
        proof {
            lemma2_to64();
        }
        bits as u16
    }

    proof fn lemma_bit_pattern(a: Self, b: Self) {
        lemma2_to64();
    }
}

impl TransmuteToUsize for u32 {
    open spec fn bit_pattern(self) -> nat {
        self as nat
    }

    fn transmute_to_usize(self) -> usize {
        proof {
            lemma_small_mod(self as nat, usize::MAX as nat + 1);
        }
        self as usize
    }
}

impl BitValue for u32 {
    open spec fn bit_count() -> nat {
        32
    }

    fn bits_per_value() -> usize {
        32
    }

    fn to_bits(self) -> u128 {
        self as u128
    }

    fn from_bits(bits: u128) -> Self {
        proof {
            lemma2_to64();
        }
        bits as u32
    }

    proof fn lemma_bit_pattern(a: Self, b: Self) {
        lemma2_to64();
    }
}

impl TransmuteToUsize for u64 {
    open spec fn bit_pattern(self) -> nat {
        self as nat
    }

    fn transmute_to_usize(self) -> usize {
        let r: u128 = (self as u128) % (usize::MAX as u128 + 1);
        proof {
            lemma_mod_bound(self as int, usize::MAX as int + 1);
        }
        r as usize
    }
}

impl BitValue for u64 {
    open spec fn bit_count() -> nat {
        64
    }

    fn bits_per_value() -> usize {
        64
    }

    fn to_bits(self) -> u128 {
        self as u128
    }

    fn from_bits(bits: u128) -> Self {
        proof {
            lemma2_to64();
        }
        bits as u64
    }

    proof fn lemma_bit_pattern(a: Self, b: Self) {
        lemma2_to64();
    }
}

impl TransmuteToUsize for u128 {
    open spec fn bit_pattern(self) -> nat {
        self as nat
    }

    fn transmute_to_usize(self) -> usize {
        let r: u128 = self % (usize::MAX as u128 + 1);
        proof {
            lemma_mod_bound(self as int, usize::MAX as int + 1);
        }
        r as usize
    }
}

impl BitValue for u128 {
    open spec fn bit_count() -> nat {
        128
    }

    fn bits_per_value() -> usize {
        128
    }

    fn to_bits(self) -> u128 {
        self
    }

    fn from_bits(bits: u128) -> Self {
        bits
    }

    proof fn lemma_bit_pattern(a: Self, b: Self) {
        lemma2_to64();
        lemma_pow2_adds(64, 64);
    }
}

impl TransmuteToUsize for i8 {
    open spec fn bit_pattern(self) -> nat {
        if self >= 0 {
            self as nat
        } else {
            (self + 0x100) as nat
        }
    }

    fn transmute_to_usize(self) -> usize {
        let bits: u128 = self.to_bits();
        let r: u128 = bits % (usize::MAX as u128 + 1);
        proof {
            lemma_mod_bound(bits as int, usize::MAX as int + 1);
        }
        r as usize
    }
}

impl BitValue for i8 {
    open spec fn bit_count() -> nat {
        8
    }

    fn bits_per_value() -> usize {
        8
    }

    fn to_bits(self) -> u128 {
        if self >= 0 {
            self as u128
        } else {
            (self as i128 + 0x100) as u128
        }
    }

    fn from_bits(bits: u128) -> Self {
        proof {
            lemma2_to64();
            
        }
        if bits < 0x80 {
            bits as i8
        } else {
            (bits as i128 - 0x100) as i8
        }
    }

    proof fn lemma_bit_pattern(a: Self, b: Self) {
        lemma2_to64();
        
    }
}

impl TransmuteToUsize for i16 {
    open spec fn bit_pattern(self) -> nat {
        if self >= 0 {
            self as nat
        } else {
            (self + 0x10000) as nat
        }
    }

    fn transmute_to_usize(self) -> usize {
        let bits: u128 = self.to_bits();
        let r: u128 = bits % (usize::MAX as u128 + 1);
        proof {
            lemma_mod_bound(bits as int, usize::MAX as int + 1);
        }
        r as usize
    }
}

impl BitValue for i16 {
    open spec fn bit_count() -> nat {
        16
    }

    fn bits_per_value() -> usize {
        16
    }

    fn to_bits(self) -> u128 {
        if self >= 0 {
            self as u128
        } else {
            (self as i128 + 0x10000) as u128
        }
    }

    fn from_bits(bits: u128) -> Self {
        proof {
            lemma2_to64();
            
        }
        if bits < 0x8000 {
            bits as i16
        } else {
            (bits as i128 - 0x10000) as i16
        }
    }

    proof fn lemma_bit_pattern(a: Self, b: Self) {
        lemma2_to64();
        
    }
}

impl TransmuteToUsize for i32 {
    open spec fn bit_pattern(self) -> nat {
        if self >= 0 {
            self as nat
        } else {
            (self + 0x100000000) as nat
        }
    }

    fn transmute_to_usize(self) -> usize {
        let bits: u128 = self.to_bits();
        let r: u128 = bits % (usize::MAX as u128 + 1);
        proof {
            lemma_mod_bound(bits as int, usize::MAX as int + 1);
        }
        r as usize
    }
}

impl BitValue for i32 {
    open spec fn bit_count() -> nat {
        32
    }

    fn bits_per_value() -> usize {
        32
    }

    fn to_bits(self) -> u128 {
        if self >= 0 {
            self as u128
        } else {
            (self as i128 + 0x100000000) as u128
        }
    }

    fn from_bits(bits: u128) -> Self {
        proof {
            lemma2_to64();
            
        }
        if bits < 0x80000000 {
            bits as i32
        } else {
            (bits as i128 - 0x100000000) as i32
        }
    }

    proof fn lemma_bit_pattern(a: Self, b: Self) {
        lemma2_to64();
        
    }
}

impl TransmuteToUsize for i64 {
    open spec fn bit_pattern(self) -> nat {
        if self >= 0 {
            self as nat
        } else {
            (self + 0x10000000000000000) as nat
        }
    }

    fn transmute_to_usize(self) -> usize {
        let bits: u128 = self.to_bits();
        let r: u128 = bits % (usize::MAX as u128 + 1);
        proof {
            lemma_mod_bound(bits as int, usize::MAX as int + 1);
        }
        r as usize
    }
}

impl BitValue for i64 {
    open spec fn bit_count() -> nat {
        64
    }

    fn bits_per_value() -> usize {
        64
    }

    fn to_bits(self) -> u128 {
        if self >= 0 {
            self as u128
        } else {
            (self as i128 + 0x10000000000000000) as u128
        }
    }

    fn from_bits(bits: u128) -> Self {
        proof {
            lemma2_to64();
            
        }
        if bits < 0x8000000000000000 {
            bits as i64
        } else {
            (bits as i128 - 0x10000000000000000) as i64
        }
    }

    proof fn lemma_bit_pattern(a: Self, b: Self) {
        lemma2_to64();
        
    }
}

impl TransmuteToUsize for i128 {
    open spec fn bit_pattern(self) -> nat {
        if self >= 0 {
            self as nat
        } else {
            (self + 0x1_0000_0000_0000_0000_0000_0000_0000_0000) as nat
        }
    }

    fn transmute_to_usize(self) -> usize {
        let bits: u128 = self.to_bits();
        let r: u128 = bits % (usize::MAX as u128 + 1);
        proof {
            lemma_mod_bound(bits as int, usize::MAX as int + 1);
        }
        r as usize
    }
}

impl BitValue for i128 {
    open spec fn bit_count() -> nat {
        128
    }

    fn bits_per_value() -> usize {
        128
    }

    fn to_bits(self) -> u128 {
        if self >= 0 {
            self as u128
        } else {
            ((self + i128::MAX) + 1) as u128 + 0x8000_0000_0000_0000_0000_0000_0000_0000
        }
    }

    fn from_bits(bits: u128) -> Self {
        proof {
            lemma2_to64();
            lemma_pow2_adds(64, 64);
        }
        if bits < 0x8000_0000_0000_0000_0000_0000_0000_0000 {
            bits as i128
        } else {
            ((bits - 0x8000_0000_0000_0000_0000_0000_0000_0000) as i128 - i128::MAX) - 1
        }
    }

    proof fn lemma_bit_pattern(a: Self, b: Self) {
        lemma2_to64();
        lemma_pow2_adds(64, 64);
    }
}

/// Digit `k` of `x` written in base `n`.
pub open spec fn digit(x: nat, n: nat, k: nat) -> nat
    decreases k,
{
    if n == 0 {
        0
    } else if k == 0 {
        x % n
    } else {
        digit(x / n, n, (k - 1) as nat)
    }
}

/// Two numbers below `n^count` with the same `count` digits in base `n` are equal.
pub proof fn lemma_digits_determine(x: nat, y: nat, n: nat, count: nat)
    requires
        n > 1,
        x < pow(n as int, count),
        y < pow(n as int, count),
        forall|k: nat| k < count ==> #[trigger] digit(x, n, k) == digit(y, n, k),
    ensures
        x == y,
    decreases count,
{
    if count == 0 {
        reveal(pow);
    } else {
        reveal(pow);
        assert forall|k: nat| k < (count - 1) as nat implies #[trigger] digit(x / n, n, k) == digit(
            y / n,
            n,
            k,
        ) by {
            assert(digit(x, n, k + 1) == digit(x / n, n, k));
            assert(digit(y, n, k + 1) == digit(y / n, n, k));
        }
        lemma_fundamental_div_mod(x as int, n as int);
        lemma_fundamental_div_mod(y as int, n as int);
        let p = pow(n as int, (count - 1) as nat);
        assert(x / n < p) by (nonlinear_arith)
            requires
                x < n * p,
                n > 1,
                x == n * (x / n) + x % n,
                0 <= x % n,
        ;
        assert(y / n < p) by (nonlinear_arith)
            requires
                y < n * p,
                n > 1,
                y == n * (y / n) + y % n,
                0 <= y % n,
        ;
        lemma_digits_determine(x / n, y / n, n, (count - 1) as nat);
        assert(digit(x, n, 0) == digit(y, n, 0));
    }
}

/// `2^(b * count) == (2^b)^count`.
pub proof fn lemma_pow2_blocks(b: nat, count: nat)
    ensures
        pow2(b * count) == pow(pow2(b) as int, count),
    decreases count,
{
    reveal(pow);
    if count == 0 {
        assert(b * count == 0) by (nonlinear_arith)
            requires
                count == 0,
        ;
        reveal(pow2);
    } else {
        let prev = (b * (count - 1)) as nat;
        lemma_pow2_blocks(b, (count - 1) as nat);
        assert(b * count == prev + b) by (nonlinear_arith)
            requires
                count > 0,
                prev == b * (count - 1),
        ;
        lemma_pow2_adds(prev, b);
        assert(pow(pow2(b) as int, count) == pow2(b) * pow(pow2(b) as int, (count - 1) as nat));
        assert(pow2(prev) * pow2(b) == pow2(b) * pow2(prev)) by (nonlinear_arith);
    }
}

} // verus!
