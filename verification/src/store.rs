//! Memory elements.
//!
//! A bit region is backed by a run of fixed-width unsigned integers. This module describes what
//! the rest of the crate needs to know about such an element: how wide it is, and how a single
//! bit of it is read and replaced.

use vstd::prelude::*;

verus! {

/// The element widths, in bits, that a region can be built on.
pub open spec fn valid_width(width: nat) -> bool {
    width == 8 || width == 16 || width == 32 || width == 64
}

/// The number of bits needed to select one bit of an element: the base-two logarithm of its
/// width.
pub open spec fn index_bits(width: nat) -> nat {
    if width == 8 {
        3
    } else if width == 16 {
        4
    } else if width == 32 {
        5
    } else {
        6
    }
}

/// The size of an element in bytes, which is also the alignment that its address must have.
pub open spec fn elem_bytes(width: nat) -> nat {
    width / 8
}

/// The bit of `value` at `pos`, counted from the least significant bit.
pub open spec fn bit_at(value: u64, pos: u8) -> bool {
    (value >> pos) & 1 == 1
}

/// `value` with the bit at `pos`, counted from the least significant bit, replaced by `bit`.
pub open spec fn with_bit(value: u64, pos: u8, bit: bool) -> u64 {
    if bit {
        value | (1u64 << pos)
    } else {
        value & !(1u64 << pos)
    }
}

/// Replacing a bit and reading it back gives the bit that was written, and every other bit of
/// the element reads as it did before.
pub proof fn lemma_with_bit(value: u64, pos: u8, bit: bool, other: u8)
    by (bit_vector)
    requires
        pos < 64,
        other < 64,
    ensures
        bit_at(with_bit(value, pos, bit), pos) == bit,
        other != pos ==> bit_at(with_bit(value, pos, bit), other) == bit_at(value, other),
{
}

/// A memory element: an unsigned integer of one of the widths that a region can be built on.
pub trait BitStore: Copy {
    /// The width of the element in bits.
    spec fn width() -> nat;

    /// The width is one that a region can be built on.
    proof fn width_is_valid()
        ensures
            valid_width(Self::width()),
    ;

    /// The numeric value of the element, which carries its bits.
    spec fn value(self) -> u64;

    /// The name of the element type.
    spec fn label_text() -> Seq<char>;

    /// The width of the element in bits.
    fn bits() -> (r: u8)
        ensures
            r as nat == Self::width(),
    ;

    /// The name of the element type.
    fn label() -> (r: &'static str)
        ensures
            r@ == Self::label_text(),
    ;

    /// The element whose bits are all zero.
    fn zero() -> (r: Self)
        ensures
            r.value() == 0,
    ;

    /// Reads the bit at `pos`, counted from the least significant bit.
    fn get_bit(self, pos: u8) -> (r: bool)
        requires
            (pos as nat) < Self::width(),
        ensures
            r == bit_at(self.value(), pos),
    ;

    /// Returns the element with the bit at `pos` replaced by `bit` and all others kept.
    fn set_bit(self, pos: u8, bit: bool) -> (r: Self)
        requires
            (pos as nat) < Self::width(),
        ensures
            r.value() == with_bit(self.value(), pos, bit),
    ;
}

/// Reading and replacing a bit of a `u8` is reading and replacing that bit of its value.
proof fn lemma_u8_bits(x: u8, pos: u8)
    by (bit_vector)
    requires
        pos < 8,
    ensures
        ((x >> pos) & 1 == 1) == bit_at(x as u64, pos),
        (x | (1u8 << pos)) as u64 == with_bit(x as u64, pos, true),
        (x & !(1u8 << pos)) as u64 == with_bit(x as u64, pos, false),
{
}

/// Reading and replacing a bit of a `u16` is reading and replacing that bit of its value.
proof fn lemma_u16_bits(x: u16, pos: u8)
    by (bit_vector)
    requires
        pos < 16,
    ensures
        ((x >> pos) & 1 == 1) == bit_at(x as u64, pos),
        (x | (1u16 << pos)) as u64 == with_bit(x as u64, pos, true),
        (x & !(1u16 << pos)) as u64 == with_bit(x as u64, pos, false),
{
}

/// Reading and replacing a bit of a `u32` is reading and replacing that bit of its value.
proof fn lemma_u32_bits(x: u32, pos: u8)
    by (bit_vector)
    requires
        pos < 32,
    ensures
        ((x >> pos) & 1 == 1) == bit_at(x as u64, pos),
        (x | (1u32 << pos)) as u64 == with_bit(x as u64, pos, true),
        (x & !(1u32 << pos)) as u64 == with_bit(x as u64, pos, false),
{
}

impl BitStore for u8 {
    open spec fn width() -> nat {
        8
    }

    proof fn width_is_valid() {
    }

    open spec fn value(self) -> u64 {
        self as u64
    }

    open spec fn label_text() -> Seq<char> {
        "u8"@
    }

    fn bits() -> (r: u8) {
        8
    }

    fn label() -> (r: &'static str) {
        "u8"
    }

    fn zero() -> (r: Self) {
        0
    }

    fn get_bit(self, pos: u8) -> (r: bool) {
        proof {
            lemma_u8_bits(self, pos);
        }
        (self >> pos) & 1 == 1
    }

    fn set_bit(self, pos: u8, bit: bool) -> (r: Self) {
        proof {
            lemma_u8_bits(self, pos);
        }
        if bit {
            self | (1u8 << pos)
        } else {
            self & !(1u8 << pos)
        }
    }
}

impl BitStore for u16 {
    open spec fn width() -> nat {
        16
    }

    proof fn width_is_valid() {
    }

    open spec fn value(self) -> u64 {
        self as u64
    }

    open spec fn label_text() -> Seq<char> {
        "u16"@
    }

    fn bits() -> (r: u8) {
        16
    }

    fn label() -> (r: &'static str) {
        "u16"
    }

    fn zero() -> (r: Self) {
        0
    }

    fn get_bit(self, pos: u8) -> (r: bool) {
        proof {
            lemma_u16_bits(self, pos);
        }
        (self >> pos) & 1 == 1
    }

    fn set_bit(self, pos: u8, bit: bool) -> (r: Self) {
        proof {
            lemma_u16_bits(self, pos);
        }
        if bit {
            self | (1u16 << pos)
        } else {
            self & !(1u16 << pos)
        }
    }
}

impl BitStore for u32 {
    open spec fn width() -> nat {
        32
    }

    proof fn width_is_valid() {
    }

    open spec fn value(self) -> u64 {
        self as u64
    }

    open spec fn label_text() -> Seq<char> {
        "u32"@
    }

    fn bits() -> (r: u8) {
        32
    }

    fn label() -> (r: &'static str) {
        "u32"
    }

    fn zero() -> (r: Self) {
        0
    }

    fn get_bit(self, pos: u8) -> (r: bool) {
        proof {
            lemma_u32_bits(self, pos);
        }
        (self >> pos) & 1 == 1
    }

    fn set_bit(self, pos: u8, bit: bool) -> (r: Self) {
        proof {
            lemma_u32_bits(self, pos);
        }
        if bit {
            self | (1u32 << pos)
        } else {
            self & !(1u32 << pos)
        }
    }
}

impl BitStore for u64 {
    open spec fn width() -> nat {
        64
    }

    proof fn width_is_valid() {
    }

    open spec fn value(self) -> u64 {
        self
    }

    open spec fn label_text() -> Seq<char> {
        "u64"@
    }

    fn bits() -> (r: u8) {
        64
    }

    fn label() -> (r: &'static str) {
        "u64"
    }

    fn zero() -> (r: Self) {
        0
    }

    fn get_bit(self, pos: u8) -> (r: bool) {
        (self >> pos) & 1 == 1
    }

    fn set_bit(self, pos: u8, bit: bool) -> (r: Self) {
        if bit {
            self | (1u64 << pos)
        } else {
            self & !(1u64 << pos)
        }
    }
}

/// Reading and replacing a bit of a `usize` is reading and replacing that bit of its value.
proof fn lemma_usize_bits(x: usize, pos: u8)
    by (bit_vector)
    requires
        pos < usize::BITS,
    ensures
        ((x >> pos) & 1 == 1) == bit_at(x as u64, pos),
        (x | (1usize << pos)) as u64 == with_bit(x as u64, pos, true),
        (x & !(1usize << pos)) as u64 == with_bit(x as u64, pos, false),
{
}

impl BitStore for usize {
    open spec fn width() -> nat {
        usize::BITS as nat
    }

    proof fn width_is_valid() {
    }

    open spec fn value(self) -> u64 {
        self as u64
    }

    open spec fn label_text() -> Seq<char> {
        "usize"@
    }

    fn bits() -> (r: u8) {
        usize::BITS as u8
    }

    fn label() -> (r: &'static str) {
        "usize"
    }

    fn zero() -> (r: Self) {
        0
    }

    fn get_bit(self, pos: u8) -> (r: bool) {
        proof {
            lemma_usize_bits(self, pos);
        }
        (self >> pos) & 1 == 1
    }

    fn set_bit(self, pos: u8, bit: bool) -> (r: Self) {
        proof {
            lemma_usize_bits(self, pos);
        }
        if bit {
            self | (1usize << pos)
        } else {
            self & !(1usize << pos)
        }
    }
}

/// The number of bits needed to select one bit of a `T`.
pub fn indx<T: BitStore>() -> (r: u8)
    ensures
        r as nat == index_bits(T::width()),
        3 <= r <= 6,
{
    proof {
        T::width_is_valid();
    }
    let bits = T::bits();
    if bits == 8 {
        3
    } else if bits == 16 {
        4
    } else if bits == 32 {
        5
    } else {
        6
    }
}

/// The mask that keeps the bits of a number that select one bit of a `T`: its width less one.
pub fn mask<T: BitStore>() -> (r: u8)
    ensures
        r as nat == T::width() - 1,
{
    proof {
        T::width_is_valid();
    }
    T::bits() - 1
}

/// Division, remainder and product by an element width, written out for each of the widths.
pub proof fn lemma_width_arith(x: nat, width: nat)
    requires
        valid_width(width),
    ensures
        x / width == (if width == 8 {
            x / 8
        } else if width == 16 {
            x / 16
        } else if width == 32 {
            x / 32
        } else {
            x / 64
        }),
        x % width == (if width == 8 {
            x % 8
        } else if width == 16 {
            x % 16
        } else if width == 32 {
            x % 32
        } else {
            x % 64
        }),
        x * width == (if width == 8 {
            x * 8
        } else if width == 16 {
            x * 16
        } else if width == 32 {
            x * 32
        } else {
            x * 64
        }),
        x * width == width * x,
{
    if width == 8 {
        assert(x / width == x / 8 && x % width == x % 8 && x * width == x * 8 && width * x == x
            * 8);
    } else if width == 16 {
        assert(x / width == x / 16 && x % width == x % 16 && x * width == x * 16 && width * x
            == x * 16);
    } else if width == 32 {
        assert(x / width == x / 32 && x % width == x % 32 && x * width == x * 32 && width * x
            == x * 32);
    } else {
        assert(x / width == x / 64 && x % width == x % 64 && x * width == x * 64 && width * x
            == x * 64);
    }
}

/// Division, remainder and product by the size of an element in bytes, written out for each of
/// the widths.
pub proof fn lemma_bytes_arith(x: nat, width: nat)
    requires
        valid_width(width),
    ensures
        elem_bytes(width) == (if width == 8 {
            1nat
        } else if width == 16 {
            2nat
        } else if width == 32 {
            4nat
        } else {
            8nat
        }),
        x / elem_bytes(width) == (if width == 8 {
            x
        } else if width == 16 {
            x / 2
        } else if width == 32 {
            x / 4
        } else {
            x / 8
        }),
        x % elem_bytes(width) == (if width == 8 {
            0
        } else if width == 16 {
            x % 2
        } else if width == 32 {
            x % 4
        } else {
            x % 8
        }),
        x * elem_bytes(width) == (if width == 8 {
            x
        } else if width == 16 {
            x * 2
        } else if width == 32 {
            x * 4
        } else {
            x * 8
        }),
        x * elem_bytes(width) == elem_bytes(width) * x,
{
    let bytes = elem_bytes(width);
    if width == 8 {
        assert(bytes == 1);
        assert(x / bytes == x / 1 && x % bytes == x % 1 && x * bytes == x * 1 && bytes * x == x
            * 1);
    } else if width == 16 {
        assert(bytes == 2);
        assert(x / bytes == x / 2 && x % bytes == x % 2 && x * bytes == x * 2 && bytes * x == x
            * 2);
    } else if width == 32 {
        assert(bytes == 4);
        assert(x / bytes == x / 4 && x % bytes == x % 4 && x * bytes == x * 4 && bytes * x == x
            * 4);
    } else {
        assert(bytes == 8);
        assert(x / bytes == x / 8 && x % bytes == x % 8 && x * bytes == x * 8 && bytes * x == x
            * 8);
    }
}

/// Rounding a division by an element width up adds one to the quotient exactly when there is a
/// remainder.
pub proof fn lemma_div_round_up(n: nat, width: nat)
    requires
        valid_width(width),
    ensures
        (n + width - 1) as nat / width == n / width + (if n % width != 0 {
            1nat
        } else {
            0nat
        }),
        n == width * (n / width) + n % width,
        n % width < width,
{
    lemma_width_arith(n, width);
    lemma_width_arith((n + width - 1) as nat, width);
    lemma_width_arith(n / width, width);
}

/// The number of elements of `T` that are needed to hold `bits` bits.
pub fn elts<T: BitStore>(bits: usize) -> (r: usize)
    ensures
        r as nat == (bits as nat + T::width() - 1) as nat / T::width(),
{
    proof {
        T::width_is_valid();
        lemma_div_round_up(bits as nat, T::width());
    }
    let width = T::bits() as usize;
    let whole = bits / width;
    if bits % width != 0 {
        assert(whole < usize::MAX) by {
            if whole == usize::MAX {
                assert(bits as nat >= T::width() * (usize::MAX as nat)) by (nonlinear_arith)
                    requires
                        bits as nat == T::width() * (bits as nat / T::width()) + bits as nat
                            % T::width(),
                        bits as nat / T::width() == usize::MAX as nat,
                ;
            }
        }
        whole + 1
    } else {
        whole
    }
}

} // verus!
