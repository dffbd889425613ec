//! The encoded pointer to a bit region.
//!
//! A region is a run of bits in memory: the address of its first element, the index of its
//! first live bit within that element (its head), and the number of live bits. [`BitPtr`] packs
//! these three into two machine words. The address word holds the address and, in the low bits
//! that the element's alignment leaves zero, the high bits of the head. The length word holds
//! the bit count and, in its three low bits, the low bits of the head.
//!
//! Addresses are numbers here. Nothing in this module reads or writes memory.

use vstd::prelude::*;
use core::marker::PhantomData;
use vstd::std_specs::cmp::PartialEqSpecImpl;
use crate::index::{BitIdx, BitTail, span_elements};
use crate::order::BitOrder;
use crate::word::{NonZeroWord, word_value};
use crate::store::{
    BitStore, valid_width, elem_bytes, indx, mask, lemma_div_round_up, lemma_width_arith,
    lemma_bytes_arith,
};

verus! {

/// The number of low bits of the length word that hold the low bits of the head.
pub const LEN_HEAD_BITS: usize = 3;

/// Marks the bits of the length word that hold the low bits of the head.
pub const LEN_HEAD_MASK: usize = 0b111;

/// The greatest number of bits that a region can hold: what is left of the length word's range
/// once three of its bits are given to the head.
pub const REGION_MAX_BITS: usize = usize::MAX >> 3;

/// A region of bits: the address of its first element, the index of its first live bit in that
/// element, and the number of its live bits.
pub struct Region {
    pub addr: nat,
    pub head: nat,
    pub bits: nat,
}

impl Region {
    /// Whether the three parts can be encoded, for elements that are `width` bits wide: the
    /// address is not null and is a multiple of the element's size, so that its trailing zero
    /// bits leave room for the high bits of the head; the head is an index into the element; the
    /// bit count is within the greatest count; and the address of the element after the last
    /// one touched does not lie beyond the top of the address space.
    pub open spec fn valid(self, width: nat) -> bool {
        &&& self.addr != 0
        &&& self.addr % elem_bytes(width) == 0
        &&& self.head < width
        &&& self.bits <= usize::MAX / 8
        &&& self.addr + span_elements(self.head, self.bits, width) * elem_bytes(width)
            <= usize::MAX
    }

    /// The number of elements that the region touches: its head and its bits together, divided
    /// by the width and rounded up.
    pub open spec fn elements(self, width: nat) -> nat {
        (self.head + self.bits + width - 1) as nat / width
    }

    /// The index of the first dead bit after the region in its last element: the head and the
    /// bits together modulo the width, with the width itself in place of 0, but 0 for the
    /// region that begins at index 0 and holds no bit.
    pub open spec fn tail(self, width: nat) -> nat {
        if self.head == 0 && self.bits == 0 {
            0
        } else if (self.head + self.bits) % width == 0 {
            width
        } else {
            (self.head + self.bits) % width
        }
    }

    /// The place of the region's first bit in memory, counted in bits from address 0.
    pub open spec fn start(self) -> nat {
        self.addr * 8 + self.head
    }

    /// The region that begins one bit later and is as long: the head moves on by one, and where
    /// it passes the last bit of its element it becomes 0 and the address moves on by one
    /// element.
    pub open spec fn incr_head(self, width: nat) -> Region {
        if self.head + 1 == width {
            Region { addr: self.addr + elem_bytes(width), head: 0, bits: self.bits }
        } else {
            Region { addr: self.addr, head: self.head + 1, bits: self.bits }
        }
    }

    /// The region after its head has moved on `steps` times.
    pub open spec fn incr_head_by(self, width: nat, steps: nat) -> Region
        decreases steps,
    {
        if steps == 0 {
            self
        } else {
            self.incr_head_by(width, (steps - 1) as nat).incr_head(width)
        }
    }
}

/// The two words that encode a region: the address with the high bits of the head below it,
/// and the bit count with the low three bits of the head below it.
pub open spec fn encode(region: Region, width: nat) -> (nat, nat) {
    (region.addr + region.head / 8, region.bits * 8 + region.head % 8)
}

/// The region that two words encode.
pub open spec fn decode(ptr: nat, len: nat, width: nat) -> Region {
    Region {
        addr: (ptr - ptr % elem_bytes(width)) as nat,
        head: (ptr % elem_bytes(width)) * 8 + len % 8,
        bits: len / 8,
    }
}

/// Decoding the words that encode a region gives that region back, whenever its address is
/// aligned to the element and its head is an index into the element.
#[verifier::rlimit(50)]
pub proof fn lemma_decode_encode(region: Region, width: nat)
    by (nonlinear_arith)
    requires
        valid_width(width),
        region.addr % elem_bytes(width) == 0,
        region.head < width,
    ensures
        decode(encode(region, width).0, encode(region, width).1, width) == region,
{
}

/// Any two words decode to a region whose address is aligned, whose head is an index into the
/// element and whose bit count is within the greatest count, and encoding that region gives the
/// two words back.
#[verifier::rlimit(50)]
pub proof fn lemma_encode_decode(ptr: usize, len: usize, width: nat)
    by (nonlinear_arith)
    requires
        valid_width(width),
    ensures
        decode(ptr as nat, len as nat, width).addr % elem_bytes(width) == 0,
        decode(ptr as nat, len as nat, width).head < width,
        decode(ptr as nat, len as nat, width).bits <= usize::MAX / 8,
        encode(decode(ptr as nat, len as nat, width), width) == (ptr as nat, len as nat),
{
}

/// Moving the head on as many times as the element has bits brings it back to where it was, one
/// element further on. The bit count stays what it was, however often the head moves.
pub proof fn lemma_incr_head_rollover(region: Region, width: nat, steps: nat)
    requires
        valid_width(width),
        region.head < width,
    ensures
        region.incr_head_by(width, steps).bits == region.bits,
        region.incr_head_by(width, width).head == region.head,
        region.incr_head_by(width, width).addr == region.addr + elem_bytes(width),
{
    lemma_incr_head_by(region, width, steps);
    lemma_incr_head_by(region, width, width);
    lemma_width_arith(region.head + width, width);
    lemma_bytes_arith((region.head + width) / width, width);
}

/// Where the head stands after it has moved on `steps` times.
proof fn lemma_incr_head_by(region: Region, width: nat, steps: nat)
    requires
        valid_width(width),
        region.head < width,
    ensures
        region.incr_head_by(width, steps) == (Region {
            addr: region.addr + ((region.head + steps) / width) * elem_bytes(width),
            head: (region.head + steps) % width,
            bits: region.bits,
        }),
    decreases steps,
{
    if steps > 0 {
        lemma_incr_head_by(region, width, (steps - 1) as nat);
        lemma_next_index((region.head + steps - 1) as nat, width);
    } else {
        assert(region.head / width == 0 && region.head % width == region.head && (region.head
            / width) * elem_bytes(width) == 0) by (nonlinear_arith)
            requires
                region.head < width,
        ;
    }
}

/// How the quotient and the remainder by the width change from one number to the next.
proof fn lemma_next_index(far: nat, width: nat)
    by (nonlinear_arith)
    requires
        valid_width(width),
    ensures
        far % width < width,
        far % width + 1 == width ==> (far + 1) / width == far / width + 1 && (far + 1) % width
            == 0 && ((far + 1) / width) * elem_bytes(width) == (far / width) * elem_bytes(width)
            + elem_bytes(width),
        far % width + 1 != width ==> (far + 1) / width == far / width && (far + 1) % width == far
            % width + 1,
{
}

/// The address of a memory element of type `T`. It is never null.
#[derive(Debug, PartialEq, Eq, PartialOrd, Ord, Hash)]
pub struct Address<T: BitStore> {
    inner: usize,
    _ty: PhantomData<T>,
}

impl<T: BitStore> View for Address<T> {
    type V = nat;

    closed spec fn view(&self) -> nat {
        self.inner as nat
    }
}

impl<T: BitStore> Clone for Address<T> {
    fn clone(&self) -> (r: Self)
        ensures
            r == *self,
    {
        *self
    }
}

impl<T: BitStore> Copy for Address<T> {
}

impl<T: BitStore> Address<T> {
    /// No address is null.
    #[verifier::type_invariant]
    pub closed spec fn wf(self) -> bool {
        self.inner != 0
    }

    /// What the invariant says of the view.
    pub proof fn lemma_wf(self)
        ensures
            self.wf() <==> self@ != 0,
            self@ <= usize::MAX,
    {
    }

    /// Views a number as the address of a `T`. There is no address 0.
    pub fn new(addr: usize) -> (r: Option<Self>)
        ensures
            r is Some <==> addr != 0,
            r matches Some(a) ==> a@ == addr,
    {
        if addr == 0 {
            None
        } else {
            Some(Address { inner: addr, _ty: PhantomData })
        }
    }

    /// Views a number that the caller knows not to be 0 as the address of a `T`.
    pub fn new_unchecked(addr: usize) -> (r: Self)
        requires
            addr != 0,
        ensures
            r@ == addr,
    {
        Address { inner: addr, _ty: PhantomData }
    }

    /// The address as a number.
    pub fn value(self) -> (r: usize)
        ensures
            r as nat == self@,
            r != 0,
    {
        proof {
            use_type_invariant(&self);
        }
        self.inner
    }
}

/// The region that the canonical empty pointer describes, for elements that are `width` bits
/// wide: no bit, at the head of an element whose address is the least one that is aligned and
/// not null.
pub open spec fn empty_region(width: nat) -> Region {
    Region { addr: elem_bytes(width), head: 0, bits: 0 }
}

/// The encoded pointer to a region of bits that are counted in the order `O` within elements of
/// type `T`.
///
/// It is two machine words. The address word is held as a word that is never zero, so that
/// an optional pointer is two words as well: the pattern of all zero bits stands for the
/// absence of a pointer.
#[derive(Debug)]
pub struct BitPtr<O: BitOrder, T: BitStore> {
    ptr: NonZeroWord,
    len: usize,
    _or: PhantomData<O>,
    _ty: PhantomData<T>,
}

impl<O: BitOrder, T: BitStore> View for BitPtr<O, T> {
    type V = Region;

    /// The region that the pointer's two words encode.
    open spec fn view(&self) -> Region {
        decode(self.words().0, self.words().1, T::width())
    }
}

impl<O: BitOrder, T: BitStore> Clone for BitPtr<O, T> {
    fn clone(&self) -> (r: Self)
        ensures
            r == *self,
    {
        *self
    }
}

impl<O: BitOrder, T: BitStore> Copy for BitPtr<O, T> {
}

/// The mask of the low `k` bits of a word, for each number of head bits in the address word.
proof fn lemma_head_mask(k: usize)
    by (bit_vector)
    requires
        k <= 3,
    ensures
        k == 0 ==> (1usize << k) - 1 == 0,
        k == 1 ==> (1usize << k) - 1 == 1,
        k == 2 ==> (1usize << k) - 1 == 3,
        k == 3 ==> (1usize << k) - 1 == 7,
        1usize << k >= 1,
{
}

/// Masking the address word with the head mask is the remainder by the element's size, and
/// masking it with the address mask takes that remainder away.
proof fn lemma_addr_word(word: usize, m: usize)
    by (bit_vector)
    requires
        m == 0 || m == 1 || m == 3 || m == 7,
    ensures
        m == 0 ==> word & m == 0 && word & !m == word,
        m == 1 ==> word & m == word % 2 && word & !m == word - word % 2,
        m == 3 ==> word & m == word % 4 && word & !m == word - word % 4,
        m == 7 ==> word & m == word % 8 && word & !m == word - word % 8,
{
}

/// Where the head bits of a word are clear, joining a number below the element's size to it
/// adds that number.
proof fn lemma_join_addr(addr: usize, high: usize, m: usize)
    by (bit_vector)
    requires
        m == 0 || m == 1 || m == 3 || m == 7,
        high <= m,
    ensures
        (addr & !m) | high == (addr & !m) + high,
{
}

/// Shifting the length word right by three divides it by eight, and its low three bits are
/// the remainder.
proof fn lemma_len_word(word: usize)
    by (bit_vector)
    ensures
        word >> 3 == word / 8,
        word & 7 == word % 8,
        word & !7usize == word - word % 8,
{
}

/// The greatest number of bits that a region can hold is an eighth of the greatest word.
pub proof fn lemma_region_max_bits()
    ensures
        REGION_MAX_BITS == usize::MAX / 8,
{
    lemma_len_word(usize::MAX);
}

/// Shifting a bit count left by three multiplies it by eight where that fits the word, and
/// joining three head bits to it adds them.
proof fn lemma_join_len(bits: usize, low: usize)
    by (bit_vector)
    requires
        usize::BITS == 32 ==> bits <= 0x1fff_ffff,
        usize::BITS == 64 ==> bits <= 0x1fff_ffff_ffff_ffff,
        low <= 7,
    ensures
        bits << 3 == bits * 8,
        (bits << 3) | low == bits * 8 + low,
        low | (bits << 3) == bits * 8 + low,
{
}

/// Joining the high and the low bits of a head is eight times the high bits and the low bits.
proof fn lemma_join_head(high: usize, low: usize)
    by (bit_vector)
    requires
        high <= 7,
        low <= 7,
    ensures
        (high << 3) | low == high * 8 + low,
{
}

/// The low bits of a word are the low bits of its low byte.
proof fn lemma_low_byte(x: usize, m: u8)
    by (bit_vector)
    requires
        m <= 63,
    ensures
        ((x as u8) & m) as usize == x & (m as usize),
{
}

impl<O: BitOrder, T: BitStore> BitPtr<O, T> {
    /// The two words of the pointer: the address word and the length word.
    pub closed spec fn words(self) -> (nat, nat) {
        (word_value(self.ptr) as nat, self.len as nat)
    }

    /// Every pointer encodes a region that is valid for its element type.
    #[verifier::type_invariant]
    pub open spec fn wf(self) -> bool {
        self@.valid(T::width())
    }

    /// The address word of the pointer.
    fn addr_word(&self) -> (r: usize)
        ensures
            r as nat == self.words().0,
            r != 0,
    {
        self.ptr.get()
    }

    /// The pointer of an address word and a length word that encode a valid region.
    fn from_words(ptr: usize, len: usize) -> (r: Self)
        requires
            ptr != 0,
            decode(ptr as nat, len as nat, T::width()).valid(T::width()),
        ensures
            r.words() == (ptr as nat, len as nat),
    {
        BitPtr { ptr: NonZeroWord::new(ptr).unwrap(), len, _or: PhantomData, _ty: PhantomData }
    }

    /// The number of low bits of the address word that hold the high bits of the head.
    pub fn ptr_head_bits() -> (r: usize)
        ensures
            r as nat == crate::store::index_bits(T::width()) - 3,
            r <= 3,
    {
        indx::<T>() as usize - LEN_HEAD_BITS
    }

    /// Marks the bits of the address word that hold the high bits of the head.
    pub fn ptr_head_mask() -> (r: usize)
        ensures
            r as nat + 1 == elem_bytes(T::width()),
            r == 0 || r == 1 || r == 3 || r == 7,
    {
        let k = Self::ptr_head_bits();
        proof {
            T::width_is_valid();
            lemma_head_mask(k);
            lemma_bytes_arith(0, T::width());
        }
        (1usize << k) - 1
    }

    /// Marks the bits of the address word that hold the address.
    pub fn ptr_addr_mask() -> (r: usize)
        ensures
            r == !((elem_bytes(T::width()) - 1) as usize),
    {
        let m = Self::ptr_head_mask();
        !m
    }

    /// The greatest number of elements that a region can touch: as many as hold the greatest
    /// number of bits, and one more, since a region may begin in the middle of an element.
    pub fn region_max_elts() -> (r: usize)
        ensures
            r as nat == ((usize::MAX / 8) as nat + T::width() - 1) as nat / T::width() + 1,
    {
        proof {
            T::width_is_valid();
            lemma_len_word(usize::MAX);
            lemma_width_arith(((usize::MAX / 8) as nat + T::width() - 1) as nat, T::width());
        }
        crate::store::elts::<T>(REGION_MAX_BITS) + 1
    }

    /// The canonical pointer to no bits at all.
    pub fn empty() -> (r: Self)
        ensures
            r@ == empty_region(T::width()),
    {
        let m = Self::ptr_head_mask();
        proof {
            T::width_is_valid();
            lemma_bytes_arith((m + 1) as nat, T::width());
            lemma_bytes_arith(0, T::width());
        }
        Self::from_words(m + 1, 0)
    }

    /// Makes a pointer to a region of no bits at `addr`, which keeps the address for later use.
    /// An address that is null, or that is not aligned to the element, cannot be kept: the
    /// canonical empty pointer is returned in its place.
    pub fn uninhabited(addr: usize) -> (r: Self)
        ensures
            addr != 0 && addr as nat % elem_bytes(T::width()) == 0 ==> r@ == (Region {
                addr: addr as nat,
                head: 0,
                bits: 0,
            }),
            addr == 0 || addr as nat % elem_bytes(T::width()) != 0 ==> r@ == empty_region(
                T::width(),
            ),
    {
        let m = Self::ptr_head_mask();
        proof {
            T::width_is_valid();
            lemma_addr_word(addr, m);
            lemma_bytes_arith(addr as nat, T::width());
        }
        if addr == 0 || addr & m != 0 {
            return Self::empty();
        }
        Self::from_words(addr, 0)
    }

    /// Makes a pointer to the region of `bits` bits that begins at bit `head` of the element at
    /// `addr`. There is no pointer if the address is null or not aligned to the element, if
    /// there are more bits than a region can hold, or if the region would reach beyond the top
    /// of the address space.
    pub fn new(addr: usize, head: BitIdx<T>, bits: usize) -> (r: Option<Self>)
        ensures
            r is Some <==> (Region { addr: addr as nat, head: head@, bits: bits as nat }).valid(
                T::width(),
            ),
            r matches Some(p) ==> p@ == (Region {
                addr: addr as nat,
                head: head@,
                bits: bits as nat,
            }) && p.words() == encode(p@, T::width()),
    {
        let m = Self::ptr_head_mask();
        proof {
            T::width_is_valid();
            lemma_addr_word(addr, m);
            lemma_bytes_arith(addr as nat, T::width());
            lemma_len_word(usize::MAX);
            head.lemma_wf();
            use_type_invariant(&head);
        }
        if addr == 0 || addr & m != 0 || bits > REGION_MAX_BITS {
            return None;
        }
        let elts = head.span(bits).0;
        proof {
            lemma_div_round_up((head@ + bits) as nat, T::width());
            lemma_width_arith((head@ + bits) as nat, T::width());
            lemma_bytes_arith(elts as nat, T::width());
        }
        let last = addr.wrapping_add(elts * (m + 1));
        if last < addr {
            return None;
        }
        Some(Self::new_unchecked(addr, head, bits))
    }

    /// Packs the three parts of a region that the caller knows to be valid into a pointer.
    pub fn new_unchecked(addr: usize, head: BitIdx<T>, bits: usize) -> (r: Self)
        requires
            (Region { addr: addr as nat, head: head@, bits: bits as nat }).valid(T::width()),
        ensures
            r@ == (Region { addr: addr as nat, head: head@, bits: bits as nat }),
            r.words() == encode(r@, T::width()),
    {
        let head = head.value() as usize;
        let m = Self::ptr_head_mask();
        let addr_mask = Self::ptr_addr_mask();
        proof {
            T::width_is_valid();
            lemma_addr_word(addr, m);
            lemma_bytes_arith(addr as nat, T::width());
            lemma_bytes_arith(0, T::width());
            lemma_len_word(head);
            lemma_join_addr(addr, head >> 3, m);
            lemma_join_len(bits, head & 7);
            lemma_decode_encode(
                Region { addr: addr as nat, head: head as nat, bits: bits as nat },
                T::width(),
            );
        }
        let ptr_data = addr & addr_mask;
        let ptr_head = head >> LEN_HEAD_BITS;
        let len_head = head & LEN_HEAD_MASK;
        let len_bits = bits << LEN_HEAD_BITS;
        Self::from_words(ptr_data | ptr_head, len_bits | len_head)
    }
}

impl<O: BitOrder, T: BitStore> BitPtr<O, T> {
    /// What the pointer's invariant says of its two words, written out.
    proof fn lemma_words(self)
        requires
            self.wf(),
        ensures
            word_value(self.ptr) as nat == self@.addr + self@.head / 8,
            self.len as nat == self@.bits * 8 + self@.head % 8,
            self@.addr as nat % elem_bytes(T::width()) == 0,
            self@.addr != 0,
            self@.addr <= usize::MAX,
            self@.head / 8 < elem_bytes(T::width()),
            self@.head < T::width(),
            self@.bits <= usize::MAX / 8,
    {
        T::width_is_valid();
        lemma_encode_decode(word_value(self.ptr), self.len, T::width());
        lemma_bytes_arith(word_value(self.ptr) as nat, T::width());
        lemma_bytes_arith(0, T::width());
    }

    /// The address of the first element of the region.
    pub fn pointer(&self) -> (r: Address<T>)
        ensures
            r@ == self@.addr,
    {
        let word = self.addr_word();
        let m = Self::ptr_head_mask();
        let addr_mask = Self::ptr_addr_mask();
        proof {
            use_type_invariant(self);
            self.lemma_words();
            T::width_is_valid();
            lemma_bytes_arith(word as nat, T::width());
            lemma_addr_word(word, m);
        }
        Address::new_unchecked(word & addr_mask)
    }

    /// The index of the first live bit of the region in its first element.
    pub fn head(&self) -> (r: BitIdx<T>)
        ensures
            r@ == self@.head,
    {
        let word = self.addr_word();
        let m = Self::ptr_head_mask();
        proof {
            use_type_invariant(self);
            self.lemma_words();
            T::width_is_valid();
            lemma_bytes_arith(word as nat, T::width());
            lemma_addr_word(word, m);
            lemma_len_word(self.len);
            lemma_join_head(word & m, self.len & 7);
        }
        let ptr_head = (word & m) << LEN_HEAD_BITS;
        let len_head = self.len & LEN_HEAD_MASK;
        BitIdx::new_unchecked((ptr_head | len_head) as u8)
    }

    /// The number of live bits in the region.
    pub fn len(&self) -> (r: usize)
        ensures
            r as nat == self@.bits,
            r <= REGION_MAX_BITS,
    {
        proof {
            lemma_len_word(self.len);
            lemma_len_word(usize::MAX);
        }
        self.len >> LEN_HEAD_BITS
    }

    /// The three parts of the region: its address, its head and its bit count.
    pub fn raw_parts(&self) -> (r: (Address<T>, BitIdx<T>, usize))
        ensures
            r.0@ == self@.addr,
            r.1@ == self@.head,
            r.2 as nat == self@.bits,
    {
        (self.pointer(), self.head(), self.len())
    }

    /// Moves the region to `addr`, keeping its head and its bit count. The caller knows
    /// that the region is valid at the new address. A null address leaves the canonical empty
    /// pointer behind.
    pub fn set_pointer(&mut self, addr: usize)
        requires
            addr != 0 ==> (Region { addr: addr as nat, ..old(self)@ }).valid(T::width()),
        ensures
            addr != 0 ==> final(self)@ == (Region { addr: addr as nat, ..old(self)@ }),
            addr == 0 ==> final(self)@ == empty_region(T::width()),
    {
        let word = self.addr_word();
        if addr == 0 {
            *self = Self::empty();
            return ;
        }
        let m = Self::ptr_head_mask();
        let addr_mask = Self::ptr_addr_mask();
        proof {
            use_type_invariant(&*self);
            self.lemma_words();
            T::width_is_valid();
            lemma_bytes_arith(word as nat, T::width());
            lemma_bytes_arith(addr as nat, T::width());
            lemma_addr_word(word, m);
            lemma_addr_word(addr, m);
            lemma_join_addr(addr, word & m, m);
            lemma_decode_encode(Region { addr: addr as nat, ..self@ }, T::width());
        }
        let mut addr_value = addr;
        addr_value &= addr_mask;
        addr_value |= word & m;
        *self = Self::from_words(addr_value, self.len);
    }

    /// Moves the first live bit of the region to `head`, keeping its address and its bit count.
    /// The caller knows that the region is valid with the new head.
    pub fn set_head(&mut self, head: BitIdx<T>)
        requires
            (Region { head: head@, ..old(self)@ }).valid(T::width()),
        ensures
            final(self)@ == (Region { head: head@, ..old(self)@ }),
    {
        let word = self.addr_word();
        let head = head.value() as usize;
        let m = Self::ptr_head_mask();
        let addr_mask = Self::ptr_addr_mask();
        proof {
            use_type_invariant(&*self);
            self.lemma_words();
            T::width_is_valid();
            lemma_bytes_arith(word as nat, T::width());
            lemma_bytes_arith(0, T::width());
            lemma_addr_word(word, m);
            lemma_len_word(head);
            lemma_len_word(self.len);
            lemma_len_word(usize::MAX);
            lemma_join_addr(word, head >> 3, m);
            lemma_join_len(self.len >> 3, head & 7);
            lemma_low_bits(self.len, head & 7);
            lemma_decode_encode(Region { head: head as nat, ..self@ }, T::width());
        }
        let mut ptr = word;
        ptr &= addr_mask;
        ptr |= head >> LEN_HEAD_BITS;
        let mut len = self.len;
        len &= !LEN_HEAD_MASK;
        len |= head & LEN_HEAD_MASK;
        *self = Self::from_words(ptr, len);
    }

    /// Sets the number of live bits of the region, keeping its address and its head. The caller
    /// knows that the region is valid with the new bit count.
    pub fn set_len(&mut self, new_len: usize)
        requires
            (Region { bits: new_len as nat, ..old(self)@ }).valid(T::width()),
        ensures
            final(self)@ == (Region { bits: new_len as nat, ..old(self)@ }),
    {
        let word = self.addr_word();
        proof {
            use_type_invariant(&*self);
            self.lemma_words();
            T::width_is_valid();
            lemma_len_word(self.len);
            lemma_len_word(usize::MAX);
            lemma_join_len(new_len, self.len & 7);
            lemma_decode_encode(Region { bits: new_len as nat, ..self@ }, T::width());
        }
        let mut len = self.len;
        len &= LEN_HEAD_MASK;
        len |= new_len << LEN_HEAD_BITS;
        *self = Self::from_words(word, len);
    }

    /// The number of elements that the region touches.
    pub fn elements(&self) -> (r: usize)
        ensures
            r as nat == self@.elements(T::width()),
    {
        let k = indx::<T>();
        let m = mask::<T>();
        let total = self.len() + self.head().value() as usize;
        proof {
            T::width_is_valid();
            crate::index::lemma_shift_mask(total, k, m);
            lemma_low_byte(total, m);
            lemma_div_round_up(total as nat, T::width());
            lemma_width_arith(total as nat, T::width());
        }
        let base = total >> k;
        let tail = total as u8 & m;
        if tail != 0 {
            base + 1
        } else {
            base
        }
    }

    /// The index of the first dead bit after the region in its last element.
    pub fn tail(&self) -> (r: BitTail<T>)
        ensures
            r@ == self@.tail(T::width()),
    {
        let head = self.head();
        let len = self.len();
        if head.value() == 0 && len == 0 {
            return BitTail::zero();
        }
        let m = mask::<T>();
        let k = indx::<T>();
        let total = head.value() as usize + len;
        proof {
            T::width_is_valid();
            crate::index::lemma_shift_mask(total, k, m);
            lemma_width_arith(total as nat, T::width());
        }
        let tail = total & m as usize;
        if tail == 0 {
            BitTail::end()
        } else {
            BitTail::new_unchecked(tail as u8)
        }
    }

    /// Moves the first live bit of the region on by one bit, into the next element where it
    /// passes the last bit of its element. The bit count is kept. The caller knows that the
    /// region is valid where it then begins.
    pub fn incr_head(&mut self)
        requires
            old(self)@.incr_head(T::width()).valid(T::width()),
        ensures
            final(self)@ == old(self)@.incr_head(T::width()),
    {
        let word = self.addr_word();
        let head = self.head().value() as usize + 1;
        let m = Self::ptr_head_mask();
        let addr_mask = Self::ptr_addr_mask();
        proof {
            use_type_invariant(&*self);
            self.lemma_words();
            T::width_is_valid();
            lemma_bytes_arith(word as nat, T::width());
            lemma_bytes_arith(0, T::width());
            lemma_addr_word(word, m);
            lemma_len_word(head);
            lemma_len_word(self.len);
            lemma_len_word(usize::MAX);
            lemma_join_len(self.len >> 3, head & 7);
            lemma_low_bits(self.len, head & 7);
            lemma_decode_encode(self@.incr_head(T::width()), T::width());
        }
        let mut len = self.len;
        len &= !LEN_HEAD_MASK;
        len |= head & LEN_HEAD_MASK;
        let head = head >> LEN_HEAD_BITS;
        let mut ptr = word;
        ptr &= addr_mask;
        ptr += head;
        *self = Self::from_words(ptr, len);
    }

    /// The distance from this pointer to `other`: how many elements the first element of
    /// `other` lies after the first element of this one, and how many bits its head lies after
    /// this one's head. Either number is negative where `other` lies before. The two pointers
    /// point into one allocation, so that their addresses differ by no more than the greatest
    /// signed word.
    pub fn ptr_diff(&self, other: &Self) -> (r: (isize, i8))
        requires
            other@.addr - self@.addr <= isize::MAX,
            self@.addr - other@.addr <= isize::MAX,
        ensures
            r.0 * elem_bytes(T::width()) == other@.addr - self@.addr,
            r.1 == other@.head - self@.head,
    {
        let k = Self::ptr_head_bits();
        let this = self.pointer().value();
        let that = other.pointer().value();
        proof {
            use_type_invariant(self);
            use_type_invariant(other);
            T::width_is_valid();
            if that >= this {
                lemma_shift_bytes((that - this) as usize, k);
                lemma_exact_quotient(that as nat, this as nat, k as nat, T::width());
            } else {
                lemma_shift_bytes((this - that) as usize, k);
                lemma_exact_quotient(this as nat, that as nat, k as nat, T::width());
            }
        }
        let elts = if that >= this {
            ((that - this) >> k) as isize
        } else {
            -(((this - that) >> k) as isize)
        };
        let bits = other.head().value() as i8 - self.head().value() as i8;
        (elts, bits)
    }
}

/// Clearing the low three bits of a word is shifting them out and back.
proof fn lemma_low_bits(word: usize, low: usize)
    by (bit_vector)
    requires
        low <= 7,
    ensures
        (word & !7usize) | low == ((word >> 3) << 3) | low,
{
}

/// The distance between two aligned addresses is a whole number of elements.
proof fn lemma_exact_quotient(high: nat, low: nat, k: nat, width: nat)
    by (nonlinear_arith)
    requires
        valid_width(width),
        k == crate::store::index_bits(width) - 3,
        high % elem_bytes(width) == 0,
        low % elem_bytes(width) == 0,
        high >= low,
    ensures
        k == 0 ==> (high - low) * elem_bytes(width) == high - low,
        k == 1 ==> ((high - low) / 2) * elem_bytes(width) == high - low,
        k == 2 ==> ((high - low) / 4) * elem_bytes(width) == high - low,
        k == 3 ==> ((high - low) / 8) * elem_bytes(width) == high - low,
        k == 0 ==> (-(high - low)) * elem_bytes(width) == low - high,
        k == 1 ==> (-((high - low) / 2)) * elem_bytes(width) == low - high,
        k == 2 ==> (-((high - low) / 4)) * elem_bytes(width) == low - high,
        k == 3 ==> (-((high - low) / 8)) * elem_bytes(width) == low - high,
{
}

/// Shifting right by the number of head bits in the address word divides by the element's
/// size.
proof fn lemma_shift_bytes(x: usize, k: usize)
    by (bit_vector)
    requires
        k <= 3,
    ensures
        k == 0 ==> x >> k == x,
        k == 1 ==> x >> k == x / 2,
        k == 2 ==> x >> k == x / 4,
        k == 3 ==> x >> k == x / 8,
{
}

impl<O: BitOrder, T: BitStore> Default for BitPtr<O, T> {
    /// The canonical pointer to no bits at all.
    fn default() -> (r: Self)
        ensures
            r@ == empty_region(T::width()),
    {
        Self::empty()
    }
}

impl<O: BitOrder, T: BitStore, U: BitStore> PartialEq<BitPtr<O, U>> for BitPtr<O, T> {
    /// Two pointers are equal when their elements are as wide and they describe the same
    /// region. All regions of no bits are the same region, wherever they lie.
    fn eq(&self, other: &BitPtr<O, U>) -> (r: bool) {
        let (addr_a, head_a, bits_a) = self.raw_parts();
        let (addr_b, head_b, bits_b) = other.raw_parts();
        T::bits() == U::bits() && ((bits_a == 0 && bits_b == 0) || (addr_a.value()
            == addr_b.value() && head_a.value() == head_b.value() && bits_a == bits_b))
    }
}

impl<O: BitOrder, T: BitStore, U: BitStore> PartialEqSpecImpl<BitPtr<O, U>> for BitPtr<O, T> {
    open spec fn obeys_eq_spec() -> bool {
        true
    }

    open spec fn eq_spec(&self, other: &BitPtr<O, U>) -> bool {
        T::width() == U::width() && ((self@.bits == 0 && other@.bits == 0) || self@ == other@)
    }
}

impl<O: BitOrder, T: BitStore> Eq for BitPtr<O, T> {
}

/// The opaque form of a pointer to a bit region that may only be read: its two words, of which
/// nothing is known but that they are null or encode a valid region.
#[derive(Debug)]
pub struct BitSlicePtr<O: BitOrder, T: BitStore> {
    addr: usize,
    len: usize,
    _or: PhantomData<O>,
    _ty: PhantomData<T>,
}

/// The opaque form of a pointer to a bit region that may be written: its two words, of which
/// nothing is known but that they are null or encode a valid region.
#[derive(Debug)]
pub struct BitSlicePtrMut<O: BitOrder, T: BitStore> {
    addr: usize,
    len: usize,
    _or: PhantomData<O>,
    _ty: PhantomData<T>,
}

impl<O: BitOrder, T: BitStore> Clone for BitSlicePtr<O, T> {
    fn clone(&self) -> (r: Self)
        ensures
            r == *self,
    {
        *self
    }
}

impl<O: BitOrder, T: BitStore> Copy for BitSlicePtr<O, T> {
}

impl<O: BitOrder, T: BitStore> Clone for BitSlicePtrMut<O, T> {
    fn clone(&self) -> (r: Self)
        ensures
            r == *self,
    {
        *self
    }
}

impl<O: BitOrder, T: BitStore> Copy for BitSlicePtrMut<O, T> {
}

impl<O: BitOrder, T: BitStore> BitSlicePtr<O, T> {
    /// The address word and the length word.
    pub closed spec fn words(self) -> (nat, nat) {
        (self.addr as nat, self.len as nat)
    }

    /// The address word is null, or the two words encode a valid region.
    #[verifier::type_invariant]
    pub open spec fn wf(self) -> bool {
        self.words().0 == 0 || decode(self.words().0, self.words().1, T::width()).valid(
            T::width(),
        )
    }

    /// The null pointer, with any length word.
    pub fn null(len: usize) -> (r: Self)
        ensures
            r.words() == (0nat, len as nat),
    {
        BitSlicePtr { addr: 0, len, _or: PhantomData, _ty: PhantomData }
    }

    /// Takes two words for the opaque form of a pointer, if they are such: if the address word
    /// is null or the words encode a valid region.
    pub fn from_words(addr: usize, len: usize) -> (r: Option<Self>)
        ensures
            r is Some <==> addr == 0 || decode(addr as nat, len as nat, T::width()).valid(
                T::width(),
            ),
            r matches Some(raw) ==> raw.words() == (addr as nat, len as nat),
    {
        if addr == 0 {
            return Some(Self::null(len));
        }
        let m = BitPtr::<O, T>::ptr_head_mask();
        proof {
            T::width_is_valid();
            lemma_encode_decode(addr, len, T::width());
            lemma_bytes_arith(addr as nat, T::width());
            lemma_addr_word(addr, m);
            lemma_len_word(len);
            lemma_join_head(addr & m, len & 7);
        }
        let head = BitIdx::<T>::new_unchecked((((addr & m) << 3) | (len & 7)) as u8);
        match BitPtr::<O, T>::new(addr & !m, head, len >> 3) {
            Some(bitptr) => Some(bitptr.to_bitslice_ptr()),
            None => None,
        }
    }

    /// Whether the address word is null.
    pub fn is_null(self) -> (r: bool)
        ensures
            r == (self.words().0 == 0),
    {
        self.addr == 0
    }

    /// The address word and the length word.
    pub fn to_words(self) -> (r: (usize, usize))
        ensures
            (r.0 as nat, r.1 as nat) == self.words(),
    {
        (self.addr, self.len)
    }

    /// The same two words, as a pointer to a region that may be written.
    pub fn cast_mut(self) -> (r: BitSlicePtrMut<O, T>)
        ensures
            r.words() == self.words(),
    {
        proof {
            use_type_invariant(&self);
        }
        BitSlicePtrMut { addr: self.addr, len: self.len, _or: PhantomData, _ty: PhantomData }
    }
}

impl<O: BitOrder, T: BitStore> BitSlicePtrMut<O, T> {
    /// The address word and the length word.
    pub closed spec fn words(self) -> (nat, nat) {
        (self.addr as nat, self.len as nat)
    }

    /// The address word is null, or the two words encode a valid region.
    #[verifier::type_invariant]
    pub open spec fn wf(self) -> bool {
        self.words().0 == 0 || decode(self.words().0, self.words().1, T::width()).valid(
            T::width(),
        )
    }

    /// The null pointer, with any length word.
    pub fn null(len: usize) -> (r: Self)
        ensures
            r.words() == (0nat, len as nat),
    {
        BitSlicePtrMut { addr: 0, len, _or: PhantomData, _ty: PhantomData }
    }

    /// Whether the address word is null.
    pub fn is_null(self) -> (r: bool)
        ensures
            r == (self.words().0 == 0),
    {
        self.addr == 0
    }

    /// The address word and the length word.
    pub fn to_words(self) -> (r: (usize, usize))
        ensures
            (r.0 as nat, r.1 as nat) == self.words(),
    {
        (self.addr, self.len)
    }

    /// Takes two words for the opaque form of a pointer, if they are such: if the address word
    /// is null or the words encode a valid region.
    pub fn from_words(addr: usize, len: usize) -> (r: Option<Self>)
        ensures
            r is Some <==> addr == 0 || decode(addr as nat, len as nat, T::width()).valid(
                T::width(),
            ),
            r matches Some(raw) ==> raw.words() == (addr as nat, len as nat),
    {
        match BitSlicePtr::<O, T>::from_words(addr, len) {
            Some(raw) => Some(raw.cast_mut()),
            None => None,
        }
    }

    /// The same two words, as a pointer to a region that may only be read.
    pub fn cast_const(self) -> (r: BitSlicePtr<O, T>)
        ensures
            r.words() == self.words(),
    {
        proof {
            use_type_invariant(&self);
        }
        BitSlicePtr { addr: self.addr, len: self.len, _or: PhantomData, _ty: PhantomData }
    }
}

impl<O: BitOrder, T: BitStore> BitPtr<O, T> {
    /// The words of every pointer are the words that encode its region.
    pub proof fn lemma_words_encode(self)
        ensures
            self.words() == encode(self@, T::width()),
    {
        T::width_is_valid();
        lemma_encode_decode(word_value(self.ptr), self.len, T::width());
    }

    /// Reads the two words of an opaque pointer as a region pointer. The null pointer reads as
    /// the canonical empty pointer.
    pub fn from_bitslice_ptr(raw: BitSlicePtr<O, T>) -> (r: Self)
        ensures
            raw.words().0 == 0 ==> r@ == empty_region(T::width()),
            raw.words().0 != 0 ==> r.words() == raw.words(),
    {
        proof {
            use_type_invariant(&raw);
        }
        if raw.addr == 0 {
            return Self::empty();
        }
        Self::from_words(raw.addr, raw.len)
    }

    /// Reads the two words of an opaque pointer as a region pointer. The null pointer reads as
    /// the canonical empty pointer.
    pub fn from_bitslice_ptr_mut(raw: BitSlicePtrMut<O, T>) -> (r: Self)
        ensures
            raw.words().0 == 0 ==> r@ == empty_region(T::width()),
            raw.words().0 != 0 ==> r.words() == raw.words(),
    {
        Self::from_bitslice_ptr(raw.cast_const())
    }

    /// Hands the two words of the pointer out in their opaque form.
    pub fn to_bitslice_ptr(self) -> (r: BitSlicePtr<O, T>)
        ensures
            r.words() == self.words(),
            r.words() == encode(self@, T::width()),
            r.words().0 != 0,
    {
        let word = self.addr_word();
        proof {
            use_type_invariant(&self);
            self.lemma_words();
            self.lemma_words_encode();
        }
        BitSlicePtr { addr: word, len: self.len, _or: PhantomData, _ty: PhantomData }
    }

    /// Hands the two words of the pointer out in their opaque form.
    pub fn to_bitslice_ptr_mut(self) -> (r: BitSlicePtrMut<O, T>)
        ensures
            r.words() == self.words(),
            r.words() == encode(self@, T::width()),
            r.words().0 != 0,
    {
        self.to_bitslice_ptr().cast_mut()
    }
}

/// Makes the opaque pointer to the region of `bits` bits that begins at bit `head` of the
/// element at `addr`. There is none if the address is null or not aligned to the element, if
/// there are more bits than a region can hold, or if the region would reach beyond the top of
/// the address space.
pub fn bitslice_from_raw_parts<O: BitOrder, T: BitStore>(
    addr: usize,
    head: BitIdx<T>,
    bits: usize,
) -> (r: Option<BitSlicePtr<O, T>>)
    ensures
        r is Some <==> (Region { addr: addr as nat, head: head@, bits: bits as nat }).valid(
            T::width(),
        ),
        r matches Some(raw) ==> raw.words() == encode(
            Region { addr: addr as nat, head: head@, bits: bits as nat },
            T::width(),
        ),
{
    match BitPtr::<O, T>::new(addr, head, bits) {
        Some(bitptr) => Some(bitptr.to_bitslice_ptr()),
        None => None,
    }
}

/// Makes the opaque pointer, through which bits may be written, to the region of `bits` bits
/// that begins at bit `head` of the element at `addr`. There is none where
/// [`bitslice_from_raw_parts`] has none.
pub fn bitslice_from_raw_parts_mut<O: BitOrder, T: BitStore>(
    addr: usize,
    head: BitIdx<T>,
    bits: usize,
) -> (r: Option<BitSlicePtrMut<O, T>>)
    ensures
        r is Some <==> (Region { addr: addr as nat, head: head@, bits: bits as nat }).valid(
            T::width(),
        ),
        r matches Some(raw) ==> raw.words() == encode(
            Region { addr: addr as nat, head: head@, bits: bits as nat },
            T::width(),
        ),
{
    match BitPtr::<O, T>::new(addr, head, bits) {
        Some(bitptr) => Some(bitptr.to_bitslice_ptr_mut()),
        None => None,
    }
}

} // verus!
