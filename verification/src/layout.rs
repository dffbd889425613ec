//! Elements as bytes in memory.
//!
//! Memory is bytes, and an element of more than one byte is laid out in it in one of two
//! orders. Where the least significant byte comes first, and the bits of an element are counted
//! from the least significant bit up, the bits of a run of elements are the bits of its bytes in
//! order, whatever the width of the elements. The same holds where the most significant byte
//! comes first and the bits are counted from the most significant bit down. A region of such
//! bits therefore reads the same when its elements are seen as elements of another width.
//! Where the order of the bytes and the order of the bits do not agree, it does not.

use vstd::prelude::*;
use crate::access::{bit_of, bits_of, lemma_bit_in_span};
use crate::align::{align_to_spec, lemma_align_to_partition, lemma_parts_in_turn};
use crate::order::{Lsb0, Msb0};
use crate::ptr::Region;
use crate::store::{BitStore, valid_width, elem_bytes, bit_at};

verus! {

/// The number whose bytes are the eight given, the least significant first.
pub open spec fn le_word(b0: u8, b1: u8, b2: u8, b3: u8, b4: u8, b5: u8, b6: u8, b7: u8) -> u64 {
    (b0 as u64) | ((b1 as u64) << 8) | ((b2 as u64) << 16) | ((b3 as u64) << 24) | ((b4 as u64)
        << 32) | ((b5 as u64) << 40) | ((b6 as u64) << 48) | ((b7 as u64) << 56)
}

/// The byte of `bytes` at `at`, or 0 where `at` is the index of none of the first `size` bytes
/// from `from`.
pub open spec fn byte_within(bytes: Seq<u8>, from: int, at: int, size: nat) -> u8 {
    if at < size {
        bytes[from + at]
    } else {
        0
    }
}

/// The value of the element of `size` bytes that lies in `bytes` from index `from`, its least
/// significant byte first.
pub open spec fn le_value(bytes: Seq<u8>, from: int, size: nat) -> u64 {
    le_word(
        byte_within(bytes, from, 0, size),
        byte_within(bytes, from, 1, size),
        byte_within(bytes, from, 2, size),
        byte_within(bytes, from, 3, size),
        byte_within(bytes, from, 4, size),
        byte_within(bytes, from, 5, size),
        byte_within(bytes, from, 6, size),
        byte_within(bytes, from, 7, size),
    )
}

/// Whether the elements of `mem` are the elements that lie in `bytes` from index `from` on,
/// each with its least significant byte first.
pub open spec fn laid_out_le<T: BitStore>(bytes: Seq<u8>, mem: Seq<T>, from: int) -> bool {
    forall|k: int|
        0 <= k < mem.len() ==> (#[trigger] mem[k]).value() == le_value(
            bytes,
            from + k * elem_bytes(T::width()),
            elem_bytes(T::width()),
        )
}

/// The bit that lies `at` bits after the first bit of the byte at `from`, where the bits of
/// each byte are counted from the least significant up.
pub open spec fn byte_bit(bytes: Seq<u8>, from: int, at: nat) -> bool {
    bit_at(bytes[from + at / 8] as u64, (at % 8) as u8)
}

/// A bit of a number is a bit of one of its bytes: the bit at `pos` is the bit at `pos % 8` of
/// the byte at `pos / 8`.
proof fn lemma_le_word_bit(
    b0: u8,
    b1: u8,
    b2: u8,
    b3: u8,
    b4: u8,
    b5: u8,
    b6: u8,
    b7: u8,
    pos: u8,
)
    by (bit_vector)
    requires
        pos < 64,
    ensures
        bit_at(le_word(b0, b1, b2, b3, b4, b5, b6, b7), pos) == bit_at(
            (if pos / 8 == 0 {
                b0
            } else if pos / 8 == 1 {
                b1
            } else if pos / 8 == 2 {
                b2
            } else if pos / 8 == 3 {
                b3
            } else if pos / 8 == 4 {
                b4
            } else if pos / 8 == 5 {
                b5
            } else if pos / 8 == 6 {
                b6
            } else {
                b7
            }) as u64,
            pos % 8,
        ),
{
}

/// Where a bit of a run of elements lies in the bytes of the run.
proof fn lemma_bit_place(at: nat, width: nat)
    by (nonlinear_arith)
    requires
        valid_width(width),
    ensures
        (at / width) * elem_bytes(width) + (at % width) / 8 == at / 8,
        (at % width) % 8 == at % 8,
        at % width < width,
        (at % width) / 8 < elem_bytes(width),
        elem_bytes(width) <= 8,
        width <= 64,
{
}

/// Counted from the least significant bit up, a bit of an element that is laid out with its
/// least significant byte first is the bit of the bytes at the same place.
pub proof fn lemma_lsb0_bit<T: BitStore>(bytes: Seq<u8>, mem: Seq<T>, from: int, at: nat)
    requires
        laid_out_le(bytes, mem, from),
        at / T::width() < mem.len(),
    ensures
        bit_of::<Lsb0, T>(mem, at) == byte_bit(bytes, from, at),
{
    let width = T::width();
    let size = elem_bytes(width);
    T::width_is_valid();
    lemma_bit_place(at, width);
    let k = (at / width) as int;
    let start = from + k * size;
    let pos = (at % width) as u8;
    assert(mem[k].value() == le_value(bytes, start, size));
    lemma_le_word_bit(
        byte_within(bytes, start, 0, size),
        byte_within(bytes, start, 1, size),
        byte_within(bytes, start, 2, size),
        byte_within(bytes, start, 3, size),
        byte_within(bytes, start, 4, size),
        byte_within(bytes, start, 5, size),
        byte_within(bytes, start, 6, size),
        byte_within(bytes, start, 7, size),
        pos,
    );
    assert(pos / 8 == (at % width) / 8);
    assert(pos % 8 == (at % 8) as u8);
}

/// Where the middle region begins in the bytes of the region that was split.
proof fn lemma_center_place(region: Region, center: Region, before: nat, at: nat)
    by (nonlinear_arith)
    requires
        center.head == 0,
        center.start() == region.start() + before,
    ensures
        center.addr >= region.addr,
        (center.addr - region.addr) + at / 8 == (region.head + before + at) / 8,
        at % 8 == (region.head + before + at) % 8,
{
}

/// Where elements are laid out with their least significant byte first and bits are counted
/// from the least significant up, a region of elements of one type that begins at a first bit
/// holds the bits that a region of elements of another type holds at the same places.
proof fn lemma_middle_lsb0<T: BitStore, U: BitStore>(
    bytes: Seq<u8>,
    mem: Seq<T>,
    center_mem: Seq<U>,
    region: Region,
    center: Region,
    before: nat,
)
    requires
        region.head < T::width(),
        center.head == 0,
        center.start() == region.start() + before,
        before + center.bits <= region.bits,
        region.elements(T::width()) <= mem.len(),
        center.elements(U::width()) <= center_mem.len(),
        laid_out_le(bytes, mem, 0),
        laid_out_le(bytes, center_mem, center.addr - region.addr),
    ensures
        bits_of::<Lsb0, U>(center_mem, center) == bits_of::<Lsb0, T>(mem, region).subrange(
            before as int,
            (before + center.bits) as int,
        ),
{
    T::width_is_valid();
    U::width_is_valid();
    let whole = bits_of::<Lsb0, T>(mem, region);
    let middle = bits_of::<Lsb0, U>(center_mem, center);
    assert forall|i: int| 0 <= i < center.bits implies middle[i] == whole[before + i] by {
        lemma_center_place(region, center, before, i as nat);
        lemma_bit_in_span(0, center.bits, i as nat, U::width());
        lemma_bit_in_span(region.head, region.bits, (before + i) as nat, T::width());
        lemma_lsb0_bit::<U>(bytes, center_mem, center.addr - region.addr, i as nat);
        lemma_lsb0_bit::<T>(bytes, mem, 0, (region.head + before + i) as nat);
    }
    assert(middle =~= whole.subrange(before as int, (before + center.bits) as int));
}

/// Where elements are laid out with their least significant byte first and bits are counted
/// from the least significant up, the three regions that a valid region splits into, read in
/// turn, give the bits of the region: the first and the last over the region's own elements,
/// the middle over the elements of the other type that lie in the same bytes.
///
/// Here `bytes` is memory from the address of the region on, `mem` holds the elements of the
/// region, and `center_mem` holds the elements of the middle region.
pub proof fn lemma_align_to_reads_lsb0<T: BitStore, U: BitStore>(
    bytes: Seq<u8>,
    mem: Seq<T>,
    center_mem: Seq<U>,
    region: Region,
)
    requires
        region.valid(T::width()),
        region.elements(T::width()) <= mem.len(),
        laid_out_le(bytes, mem, 0),
        ({
            let center = align_to_spec(region, T::width(), U::width()).1;
            center.bits > 0 ==> center.elements(U::width()) <= center_mem.len() && laid_out_le(
                bytes,
                center_mem,
                center.addr - region.addr,
            )
        }),
    ensures
        ({
            let (left, center, right) = align_to_spec(region, T::width(), U::width());
            let skip = if right.bits > 0 {
                (right.addr - region.addr) / (elem_bytes(T::width()) as int)
            } else {
                0
            };
            bits_of::<Lsb0, T>(mem, left) + bits_of::<Lsb0, U>(center_mem, center) + bits_of::<
                Lsb0,
                T,
            >(mem.skip(skip), right) == bits_of::<Lsb0, T>(mem, region)
        }),
{
    T::width_is_valid();
    U::width_is_valid();
    lemma_align_to_partition(region, T::width(), U::width());
    let (left, center, right) = align_to_spec(region, T::width(), U::width());
    if center.bits > 0 {
        lemma_middle_lsb0::<T, U>(bytes, mem, center_mem, region, center, left.bits);
    }
    lemma_parts_in_turn::<Lsb0, T, U>(mem, center_mem, region);
}

/// The value of the element of `size` bytes that lies in `bytes` from index `from`, its most
/// significant byte first.
pub open spec fn be_value(bytes: Seq<u8>, from: int, size: nat) -> u64 {
    le_word(
        byte_within(bytes, from + size - 1, 0, size),
        byte_within(bytes, from + size - 3, 1, size),
        byte_within(bytes, from + size - 5, 2, size),
        byte_within(bytes, from + size - 7, 3, size),
        byte_within(bytes, from + size - 9, 4, size),
        byte_within(bytes, from + size - 11, 5, size),
        byte_within(bytes, from + size - 13, 6, size),
        byte_within(bytes, from + size - 15, 7, size),
    )
}

/// Whether the elements of `mem` are the elements that lie in `bytes` from index `from` on,
/// each with its most significant byte first.
pub open spec fn laid_out_be<T: BitStore>(bytes: Seq<u8>, mem: Seq<T>, from: int) -> bool {
    forall|k: int|
        0 <= k < mem.len() ==> (#[trigger] mem[k]).value() == be_value(
            bytes,
            from + k * elem_bytes(T::width()),
            elem_bytes(T::width()),
        )
}

/// The bit that lies `at` bits after the first bit of the byte at `from`, where the bits of
/// each byte are counted from the most significant down.
pub open spec fn byte_bit_down(bytes: Seq<u8>, from: int, at: nat) -> bool {
    bit_at(bytes[from + at / 8] as u64, (7 - at % 8) as u8)
}

/// Where a bit of a run of elements lies in the bytes of the run, counted from the most
/// significant bit of each element down.
proof fn lemma_bit_place_down(at: nat, width: nat)
    by (nonlinear_arith)
    requires
        valid_width(width),
    ensures
        ({
            let pos = (width - 1 - at % width) as nat;
            &&& at % width < width
            &&& pos < width
            &&& (at / width) * elem_bytes(width) + (elem_bytes(width) - 1 - pos / 8) == at / 8
            &&& pos % 8 == 7 - at % 8
            &&& pos / 8 < elem_bytes(width)
            &&& elem_bytes(width) <= 8
            &&& width <= 64
        }),
{
}

/// Counted from the most significant bit down, a bit of an element that is laid out with its
/// most significant byte first is the bit of the bytes at the same place.
pub proof fn lemma_msb0_bit<T: BitStore>(bytes: Seq<u8>, mem: Seq<T>, from: int, at: nat)
    requires
        laid_out_be(bytes, mem, from),
        at / T::width() < mem.len(),
    ensures
        bit_of::<Msb0, T>(mem, at) == byte_bit_down(bytes, from, at),
{
    let width = T::width();
    let size = elem_bytes(width);
    T::width_is_valid();
    lemma_bit_place_down(at, width);
    let k = (at / width) as int;
    let start = from + k * size;
    let pos = (width - 1 - at % width) as u8;
    assert(mem[k].value() == be_value(bytes, start, size));
    lemma_le_word_bit(
        byte_within(bytes, start + size - 1, 0, size),
        byte_within(bytes, start + size - 3, 1, size),
        byte_within(bytes, start + size - 5, 2, size),
        byte_within(bytes, start + size - 7, 3, size),
        byte_within(bytes, start + size - 9, 4, size),
        byte_within(bytes, start + size - 11, 5, size),
        byte_within(bytes, start + size - 13, 6, size),
        byte_within(bytes, start + size - 15, 7, size),
        pos,
    );
    assert(pos / 8 == ((width - 1 - at % width) as nat) / 8);
    assert(pos % 8 == (7 - at % 8) as u8);
}

/// Where elements are laid out with their most significant byte first and bits are counted
/// from the most significant down, a region of elements of one type that begins at a first bit
/// holds the bits that a region of elements of another type holds at the same places.
proof fn lemma_middle_msb0<T: BitStore, U: BitStore>(
    bytes: Seq<u8>,
    mem: Seq<T>,
    center_mem: Seq<U>,
    region: Region,
    center: Region,
    before: nat,
)
    requires
        region.head < T::width(),
        center.head == 0,
        center.start() == region.start() + before,
        before + center.bits <= region.bits,
        region.elements(T::width()) <= mem.len(),
        center.elements(U::width()) <= center_mem.len(),
        laid_out_be(bytes, mem, 0),
        laid_out_be(bytes, center_mem, center.addr - region.addr),
    ensures
        bits_of::<Msb0, U>(center_mem, center) == bits_of::<Msb0, T>(mem, region).subrange(
            before as int,
            (before + center.bits) as int,
        ),
{
    T::width_is_valid();
    U::width_is_valid();
    let whole = bits_of::<Msb0, T>(mem, region);
    let middle = bits_of::<Msb0, U>(center_mem, center);
    assert forall|i: int| 0 <= i < center.bits implies middle[i] == whole[before + i] by {
        lemma_center_place(region, center, before, i as nat);
        lemma_bit_in_span(0, center.bits, i as nat, U::width());
        lemma_bit_in_span(region.head, region.bits, (before + i) as nat, T::width());
        lemma_msb0_bit::<U>(bytes, center_mem, center.addr - region.addr, i as nat);
        lemma_msb0_bit::<T>(bytes, mem, 0, (region.head + before + i) as nat);
    }
    assert(middle =~= whole.subrange(before as int, (before + center.bits) as int));
}

/// Where elements are laid out with their most significant byte first and bits are counted
/// from the most significant down, the three regions that a valid region splits into, read in
/// turn, give the bits of the region: the first and the last over the region's own elements,
/// the middle over the elements of the other type that lie in the same bytes.
///
/// Here `bytes` is memory from the address of the region on, `mem` holds the elements of the
/// region, and `center_mem` holds the elements of the middle region.
pub proof fn lemma_align_to_reads_msb0<T: BitStore, U: BitStore>(
    bytes: Seq<u8>,
    mem: Seq<T>,
    center_mem: Seq<U>,
    region: Region,
)
    requires
        region.valid(T::width()),
        region.elements(T::width()) <= mem.len(),
        laid_out_be(bytes, mem, 0),
        ({
            let center = align_to_spec(region, T::width(), U::width()).1;
            center.bits > 0 ==> center.elements(U::width()) <= center_mem.len() && laid_out_be(
                bytes,
                center_mem,
                center.addr - region.addr,
            )
        }),
    ensures
        ({
            let (left, center, right) = align_to_spec(region, T::width(), U::width());
            let skip = if right.bits > 0 {
                (right.addr - region.addr) / (elem_bytes(T::width()) as int)
            } else {
                0
            };
            bits_of::<Msb0, T>(mem, left) + bits_of::<Msb0, U>(center_mem, center) + bits_of::<
                Msb0,
                T,
            >(mem.skip(skip), right) == bits_of::<Msb0, T>(mem, region)
        }),
{
    T::width_is_valid();
    U::width_is_valid();
    lemma_align_to_partition(region, T::width(), U::width());
    let (left, center, right) = align_to_spec(region, T::width(), U::width());
    if center.bits > 0 {
        lemma_middle_msb0::<T, U>(bytes, mem, center_mem, region, center, left.bits);
    }
    lemma_parts_in_turn::<Msb0, T, U>(mem, center_mem, region);
}

} // verus!
