//! Splitting a region so that its middle can be seen as elements of another width.
//!
//! The elements of a region that are live as a whole are a run of bytes. Where that run holds
//! bytes that begin at a multiple of another element size and make up whole elements of that
//! size, it can be described by a pointer over elements of the other width. What lies before
//! and after stays described over the region's own elements, together with the elements at
//! either end of the region that are live only in part.

use vstd::prelude::*;
use crate::domain::{Domain, DomainView, domain_of};
use crate::index::{BitIdx, span_elements};
use crate::order::BitOrder;
use crate::access::{bits_of, lemma_bit_in_span, lemma_part_bits, lemma_skip_elements};
use crate::ptr::{Address, BitPtr, Region, empty_region};
use crate::store::{BitStore, valid_width, elem_bytes, lemma_bytes_arith, lemma_width_arith};

verus! {

/// How a run of `elts` elements of `from` bytes each, which begins at `addr`, splits around the
/// elements of `to` bytes each that lie within it: the number of elements before the first
/// address that is a multiple of `to`, the number of whole elements of `to` bytes from there
/// on, and the number of elements that are left after those. Where the run ends before such an
/// address, all of it lies before.
pub open spec fn align_spans(addr: nat, elts: nat, from: nat, to: nat) -> (nat, nat, nat) {
    let lead = ((to - addr % to) as nat) % to;
    if lead > elts * from {
        (elts, 0, 0)
    } else {
        let rest = (elts * from - lead) as nat;
        (lead / from, rest / to, (rest % to) / from)
    }
}

/// The three regions that a region splits into when its middle is to be seen as elements that
/// are `to` bits wide: what lies before the middle, over elements of `from` bits; the middle,
/// over elements of `to` bits; and what lies after it, over elements of `from` bits again.
///
/// A region within a single element that reaches neither end of it has no middle: it is its
/// own first part. Otherwise the elements that are live as a whole split as [`align_spans`]
/// says. The first part begins where the region begins and runs up to the middle, the last
/// part begins after the middle and runs up to where the region ends, and a part that holds no
/// bit is the canonical empty region.
pub open spec fn align_to_spec(region: Region, from: nat, to: nat) -> (Region, Region, Region) {
    match domain_of(region, from) {
        DomainView::Enclave { .. } => (region, empty_region(to), empty_region(from)),
        DomainView::Region { head, body, tail } => {
            let (l, c, r) = align_spans(body.0, body.1, elem_bytes(from), elem_bytes(to));
            let c_addr = body.0 + l * elem_bytes(from);
            let r_addr = c_addr + c * elem_bytes(to);
            let left = match head {
                Some((idx, addr)) => Region {
                    addr,
                    head: idx,
                    bits: (from - idx + l * from) as nat,
                },
                None => if l == 0 {
                    empty_region(from)
                } else {
                    Region { addr: body.0, head: 0, bits: l * from }
                },
            };
            let center = if c == 0 {
                empty_region(to)
            } else {
                Region { addr: c_addr, head: 0, bits: c * to }
            };
            let right = match tail {
                Some((addr, end)) => Region {
                    addr: if r == 0 {
                        addr
                    } else {
                        r_addr
                    },
                    head: 0,
                    bits: end + r * from,
                },
                None => if r == 0 {
                    empty_region(from)
                } else {
                    Region { addr: r_addr, head: 0, bits: r * from }
                },
            };
            (left, center, right)
        },
    }
}

/// The bytes of the elements of a region that are live as a whole: the address of the first,
/// and the address after the last.
pub open spec fn body_bytes(region: Region, width: nat) -> (nat, nat) {
    match domain_of(region, width) {
        DomainView::Enclave { addr, .. } => (addr, addr),
        DomainView::Region { body, .. } => (body.0, body.0 + body.1 * elem_bytes(width)),
    }
}

/// Whether an element of `size` bytes at `addr` is aligned and lies within the bytes from
/// `start` up to `end`.
pub open spec fn fits_aligned(addr: nat, size: nat, start: nat, end: nat) -> bool {
    addr % size == 0 && start <= addr && addr + size <= end
}

/// The parts of a run of elements that is split around the elements of another size add up to
/// the run, and the middle part begins at a multiple of the other size.
pub proof fn lemma_align_spans(addr: nat, elts: nat, from: nat, to: nat)
    requires
        valid_width(from),
        valid_width(to),
        addr % elem_bytes(from) == 0,
    ensures
        ({
            let (l, c, r) = align_spans(addr, elts, elem_bytes(from), elem_bytes(to));
            &&& l * elem_bytes(from) + c * elem_bytes(to) + r * elem_bytes(from) == elts
                * elem_bytes(from)
            &&& l * from + c * to + r * from == elts * from
            &&& c > 0 ==> (addr + l * elem_bytes(from)) % elem_bytes(to) == 0
            &&& (addr + l * elem_bytes(from)) % elem_bytes(from) == 0
            &&& (addr + l * elem_bytes(from) + c * elem_bytes(to)) % elem_bytes(from) == 0
        }),
{
    let fb = elem_bytes(from);
    let tb = elem_bytes(to);
    lemma_bytes_arith(addr, from);
    lemma_bytes_arith(0, to);
    lemma_spans_bytes(addr, elts, fb, tb);
    let (l, c, r) = align_spans(addr, elts, fb, tb);
    lemma_width_arith(elts, from);
    lemma_width_arith(l, from);
    lemma_width_arith(r, from);
    lemma_width_arith(c, to);
    lemma_bytes_arith(elts, from);
    lemma_bytes_arith(l, from);
    lemma_bytes_arith(r, from);
    lemma_bytes_arith(c, to);
}

/// [`lemma_align_spans`], over the sizes of the elements in bytes.
#[verifier::rlimit(50)]
proof fn lemma_spans_bytes(addr: nat, elts: nat, fb: nat, tb: nat)
    by (nonlinear_arith)
    requires
        fb == 1 || fb == 2 || fb == 4 || fb == 8,
        tb == 1 || tb == 2 || tb == 4 || tb == 8,
        addr % fb == 0,
    ensures
        ({
            let (l, c, r) = align_spans(addr, elts, fb, tb);
            &&& l * fb + c * tb + r * fb == elts * fb
            &&& c > 0 ==> (addr + l * fb) % tb == 0
            &&& (addr + l * fb) % fb == 0
            &&& (addr + l * fb + c * tb) % fb == 0
        }),
{
}

/// Splits a run of `elts` elements of type `T`, which begins at `addr`, around the elements
/// of type `U` that lie within it.
pub fn align_elements<T: BitStore, U: BitStore>(addr: Address<T>, elts: usize) -> (r: (
    usize,
    usize,
    usize,
))
    requires
        addr@ % elem_bytes(T::width()) == 0,
        addr@ + elts * elem_bytes(T::width()) <= usize::MAX,
    ensures
        (r.0 as nat, r.1 as nat, r.2 as nat) == align_spans(
            addr@,
            elts as nat,
            elem_bytes(T::width()),
            elem_bytes(U::width()),
        ),
{
    proof {
        T::width_is_valid();
        U::width_is_valid();
        lemma_bytes_arith(0, T::width());
        lemma_bytes_arith(0, U::width());
    }
    let from = (T::bits() / 8) as usize;
    let to = (U::bits() / 8) as usize;
    let lead = (to - addr.value() % to) % to;
    let bytes = elts * from;
    if lead > bytes {
        (elts, 0, 0)
    } else {
        let rest = bytes - lead;
        (lead / from, rest / to, (rest % to) / from)
    }
}

impl<O: BitOrder, T: BitStore> BitPtr<O, T> {
    /// Splits the region into three, of which the middle one is described over elements of
    /// type `U`: as much of the region as is made of whole, aligned elements of that type.
    pub fn align_to<U: BitStore>(self) -> (r: (Self, BitPtr<O, U>, Self))
        ensures
            (r.0@, r.1@, r.2@) == align_to_spec(self@, T::width(), U::width()),
    {
        proof {
            use_type_invariant(&self);
            T::width_is_valid();
            U::width_is_valid();
            lemma_align_to_valid(self@, T::width(), U::width());
        }
        match self.domain() {
            Domain::Enclave { .. } => (self, BitPtr::empty(), BitPtr::empty()),
            Domain::Region { head, body, tail } => {
                proof {
                    lemma_domain_facts(self@, T::width());
                    lemma_align_spans(body.0@, body.1 as nat, T::width(), U::width());
                    lemma_align_to_bounds(self@, T::width(), U::width());
                }
                let (l, c, r) = align_elements::<T, U>(body.0, body.1);
                let t_bits = T::bits() as usize;
                let u_bits = U::bits() as usize;
                let t_bytes = t_bits / 8;
                let u_bytes = u_bits / 8;
                let l_bits = l * t_bits;
                let c_bits = c * u_bits;
                let r_bits = r * t_bits;
                assert(l_bits == 0 <==> l == 0) by (nonlinear_arith)
                    requires
                        l_bits == l * t_bits,
                        t_bits >= 8,
                ;
                assert(c_bits == 0 <==> c == 0) by (nonlinear_arith)
                    requires
                        c_bits == c * u_bits,
                        u_bits >= 8,
                ;
                let l_addr = body.0.value();
                let c_addr = l_addr + l * t_bytes;
                let r_addr = c_addr + c * u_bytes;
                let l_ptr = match head {
                    Some((head, addr)) => BitPtr::new_unchecked(
                        addr.value(),
                        head,
                        t_bits - head.value() as usize + l_bits,
                    ),
                    None => {
                        if l_bits == 0 {
                            BitPtr::empty()
                        } else {
                            BitPtr::new_unchecked(l_addr, BitIdx::zero(), l_bits)
                        }
                    },
                };
                let c_ptr = if c_bits == 0 {
                    BitPtr::empty()
                } else {
                    BitPtr::new_unchecked(c_addr, BitIdx::zero(), c_bits)
                };
                let r_ptr = match tail {
                    Some((addr, tail)) => BitPtr::new_unchecked(
                        if r == 0 {
                            addr.value()
                        } else {
                            r_addr
                        },
                        BitIdx::zero(),
                        tail.value() as usize + r_bits,
                    ),
                    None => {
                        if r != 0 {
                            BitPtr::new_unchecked(r_addr, BitIdx::zero(), r_bits)
                        } else {
                            BitPtr::empty()
                        }
                    },
                };
                (l_ptr, c_ptr, r_ptr)
            },
        }
    }
}

/// A run of bits that ends within `count` elements touches no more than `count` of them.
#[verifier::rlimit(50)]
proof fn lemma_span_fits(head: nat, bits: nat, width: nat, count: nat)
    by (nonlinear_arith)
    requires
        valid_width(width),
        head + bits <= count * width,
    ensures
        span_elements(head, bits, width) <= count,
{
}

/// A region that is aligned, not null, and ends within `count` elements that lie below the top
/// of the address space is valid.
#[verifier::rlimit(50)]
proof fn lemma_region_valid(region: Region, width: nat, count: nat)
    by (nonlinear_arith)
    requires
        valid_width(width),
        region.addr != 0,
        region.addr % elem_bytes(width) == 0,
        region.head < width,
        region.bits <= usize::MAX / 8,
        region.head + region.bits <= count * width,
        region.addr + count * elem_bytes(width) <= usize::MAX,
    ensures
        region.valid(width),
{
    lemma_span_fits(region.head, region.bits, width, count);
}

/// What the elements of a valid region are, with every quotient and product named.
#[verifier::rlimit(50)]
proof fn lemma_domain_facts(region: Region, width: nat)
    by (nonlinear_arith)
    requires
        valid_width(width),
        region.valid(width),
    ensures
        domain_of(region, width) matches DomainView::Region { head, body, tail } ==> {
            &&& body.0 != 0
            &&& body.0 % elem_bytes(width) == 0
            &&& body.0 + body.1 * elem_bytes(width) <= usize::MAX
            &&& head matches Some((idx, addr)) ==> idx == region.head && addr == region.addr
                && 0 < idx < width && body.0 == addr + elem_bytes(width)
            &&& head is None ==> body.0 == region.addr && (region.bits == 0 || region.head == 0)
            &&& tail matches Some((addr, end)) ==> addr == body.0 + body.1 * elem_bytes(width)
                && 0 < end < width && addr + elem_bytes(width) <= usize::MAX
            &&& region.bits == (match head {
                Some((idx, addr)) => (width - idx) as nat,
                None => 0,
            }) + body.1 * width + (match tail {
                Some((addr, end)) => end,
                None => 0,
            })
        },
{
}

/// The sizes and addresses that the split of a valid region goes through all fit a word.
#[verifier::rlimit(50)]
proof fn lemma_align_to_bounds(region: Region, from: nat, to: nat)
    by (nonlinear_arith)
    requires
        valid_width(from),
        valid_width(to),
        region.valid(from),
    ensures
        domain_of(region, from) matches DomainView::Region { head, body, tail } ==> ({
            let (l, c, r) = align_spans(body.0, body.1, elem_bytes(from), elem_bytes(to));
            &&& l * from <= region.bits
            &&& c * to <= region.bits
            &&& r * from <= region.bits
            &&& body.0 + l * elem_bytes(from) + c * elem_bytes(to) <= usize::MAX
            &&& elem_bytes(from) * 8 == from
            &&& elem_bytes(to) * 8 == to
        }),
{
    match domain_of(region, from) {
        DomainView::Enclave { .. } => {},
        DomainView::Region { head, body, tail } => {
            lemma_domain_facts(region, from);
            lemma_align_spans(body.0, body.1, from, to);
        },
    }
}

/// Each of the three regions that a valid region splits into is valid for its own elements.
pub proof fn lemma_align_to_valid(region: Region, from: nat, to: nat)
    requires
        valid_width(from),
        valid_width(to),
        region.valid(from),
    ensures
        align_to_spec(region, from, to).0.valid(from),
        align_to_spec(region, from, to).1.valid(to),
        align_to_spec(region, from, to).2.valid(from),
{
    lemma_align_to_partition(region, from, to);
}

/// The three regions that a valid region splits into are valid, they hold the bits of the
/// region between them, and each that holds a bit begins where the one before it ends: the
/// first where the region begins, the middle after the bits of the first, and the last after
/// the bits of the first two. So no bit of the region is left out and none is held twice.
pub proof fn lemma_align_to_partition(region: Region, from: nat, to: nat)
    requires
        valid_width(from),
        valid_width(to),
        region.valid(from),
    ensures
        ({
            let (left, center, right) = align_to_spec(region, from, to);
            &&& left.valid(from)
            &&& center.valid(to)
            &&& right.valid(from)
            &&& left.bits + center.bits + right.bits == region.bits
            &&& left.bits > 0 ==> left.start() == region.start()
            &&& center.bits > 0 ==> center.start() == region.start() + left.bits
            &&& right.bits > 0 ==> right.start() == region.start() + left.bits + center.bits
        }),
{
    lemma_left_valid(region, from, to);
    lemma_center_valid(region, from, to);
    lemma_right_valid(region, from, to);
    lemma_places(region, from, to);
}

/// The first of the three regions that a valid region splits into is valid.
#[verifier::rlimit(50)]
proof fn lemma_left_valid(region: Region, from: nat, to: nat)
    by (nonlinear_arith)
    requires
        valid_width(from),
        valid_width(to),
        region.valid(from),
    ensures
        align_to_spec(region, from, to).0.valid(from),
{
    match domain_of(region, from) {
        DomainView::Enclave { .. } => {},
        DomainView::Region { head, body, tail } => {
            lemma_domain_facts(region, from);
            lemma_align_spans(body.0, body.1, from, to);
            let (l, c, r) = align_spans(body.0, body.1, elem_bytes(from), elem_bytes(to));
            let left = align_to_spec(region, from, to).0;
            match head {
                Some((idx, addr)) => {
                    lemma_region_valid(left, from, l + 1);
                },
                None => {
                    if l > 0 {
                        lemma_region_valid(left, from, l);
                    } else {
                        lemma_region_valid(left, from, 0);
                    }
                },
            }
        },
    }
}

/// The middle one of the three regions that a valid region splits into is valid.
#[verifier::rlimit(50)]
proof fn lemma_center_valid(region: Region, from: nat, to: nat)
    by (nonlinear_arith)
    requires
        valid_width(from),
        valid_width(to),
        region.valid(from),
    ensures
        align_to_spec(region, from, to).1.valid(to),
{
    lemma_region_valid(empty_region(to), to, 0);
    match domain_of(region, from) {
        DomainView::Enclave { .. } => {},
        DomainView::Region { head, body, tail } => {
            lemma_domain_facts(region, from);
            lemma_align_spans(body.0, body.1, from, to);
            let (l, c, r) = align_spans(body.0, body.1, elem_bytes(from), elem_bytes(to));
            let center = align_to_spec(region, from, to).1;
            if c > 0 {
                lemma_region_valid(center, to, c);
            }
        },
    }
}

/// The last of the three regions that a valid region splits into is valid.
#[verifier::rlimit(50)]
proof fn lemma_right_valid(region: Region, from: nat, to: nat)
    by (nonlinear_arith)
    requires
        valid_width(from),
        valid_width(to),
        region.valid(from),
    ensures
        align_to_spec(region, from, to).2.valid(from),
{
    lemma_region_valid(empty_region(from), from, 0);
    match domain_of(region, from) {
        DomainView::Enclave { .. } => {},
        DomainView::Region { head, body, tail } => {
            lemma_domain_facts(region, from);
            lemma_align_spans(body.0, body.1, from, to);
            let (l, c, r) = align_spans(body.0, body.1, elem_bytes(from), elem_bytes(to));
            let right = align_to_spec(region, from, to).2;
            match tail {
                Some((addr, end)) => {
                    lemma_region_valid(right, from, r + 1);
                },
                None => {
                    if r > 0 {
                        lemma_region_valid(right, from, r);
                    }
                },
            }
        },
    }
}

/// The three regions that a valid region splits into hold its bits between them, each
/// beginning where the one before it ends.
#[verifier::rlimit(50)]
proof fn lemma_places(region: Region, from: nat, to: nat)
    by (nonlinear_arith)
    requires
        valid_width(from),
        valid_width(to),
        region.valid(from),
    ensures
        ({
            let (left, center, right) = align_to_spec(region, from, to);
            &&& left.bits + center.bits + right.bits == region.bits
            &&& left.bits > 0 ==> left.start() == region.start()
            &&& center.bits > 0 ==> center.start() == region.start() + left.bits
            &&& right.bits > 0 ==> right.start() == region.start() + left.bits + center.bits
        }),
{
    match domain_of(region, from) {
        DomainView::Enclave { .. } => {},
        DomainView::Region { head, body, tail } => {
            lemma_domain_facts(region, from);
            lemma_align_spans(body.0, body.1, from, to);
        },
    }
}

/// Where an aligned element of `tb` bytes lies within a run of elements, the run has a middle.
#[verifier::rlimit(50)]
proof fn lemma_fit_has_center(addr: nat, elts: nat, fb: nat, tb: nat, at: nat)
    by (nonlinear_arith)
    requires
        fb == 1 || fb == 2 || fb == 4 || fb == 8,
        tb == 1 || tb == 2 || tb == 4 || tb == 8,
        addr % fb == 0,
        fits_aligned(at, tb, addr, addr + elts * fb),
    ensures
        align_spans(addr, elts, fb, tb).1 > 0,
{
}

/// The middle region holds a bit exactly when an aligned element of the other width lies
/// within the bytes of the elements of the region that are live as a whole.
pub proof fn lemma_center_exists(region: Region, from: nat, to: nat)
    requires
        valid_width(from),
        valid_width(to),
        region.valid(from),
    ensures
        align_to_spec(region, from, to).1.bits > 0 <==> exists|at: nat| #[trigger]
            fits_aligned(
                at,
                elem_bytes(to),
                body_bytes(region, from).0,
                body_bytes(region, from).1,
            ),
{
    let fb = elem_bytes(from);
    let tb = elem_bytes(to);
    let (start, end) = body_bytes(region, from);
    lemma_bytes_arith(1, from);
    lemma_bytes_arith(1, to);
    match domain_of(region, from) {
        DomainView::Enclave { addr, .. } => {
            assert forall|at: nat| !fits_aligned(at, tb, start, end) by {}
        },
        DomainView::Region { head, body, tail } => {
            lemma_domain_facts(region, from);
            lemma_align_spans(body.0, body.1, from, to);
            let (l, c, r) = align_spans(body.0, body.1, fb, tb);
            lemma_width_arith(c, to);
            if c > 0 {
                lemma_center_fits(body.0, body.1, fb, tb);
                assert(fits_aligned(body.0 + l * fb, tb, start, end));
            } else {
                assert forall|at: nat| !fits_aligned(at, tb, start, end) by {
                    if fits_aligned(at, tb, start, end) {
                        lemma_fit_has_center(body.0, body.1, fb, tb, at);
                    }
                }
            }
        },
    }
}

/// The middle of a run of elements, where it has one, begins with an aligned element that lies
/// within the run.
#[verifier::rlimit(50)]
proof fn lemma_center_fits(addr: nat, elts: nat, fb: nat, tb: nat)
    by (nonlinear_arith)
    requires
        fb == 1 || fb == 2 || fb == 4 || fb == 8,
        tb == 1 || tb == 2 || tb == 4 || tb == 8,
        addr % fb == 0,
        align_spans(addr, elts, fb, tb).1 > 0,
    ensures
        fits_aligned(addr + align_spans(addr, elts, fb, tb).0 * fb, tb, addr, addr + elts * fb),
{
}

/// How far a region that begins at the head of an element lies from one that begins earlier:
/// a whole number of elements, which hold the bits between the two beginnings.
#[verifier::rlimit(50)]
proof fn lemma_element_distance(low: Region, high: Region, between: nat, width: nat)
    by (nonlinear_arith)
    requires
        valid_width(width),
        low.addr % elem_bytes(width) == 0,
        high.addr % elem_bytes(width) == 0,
        low.head < width,
        high.head < width,
        high.start() == low.start() + between,
    ensures
        high.addr >= low.addr,
        high.head + ((high.addr - low.addr) / (elem_bytes(width) as int)) * width == low.head
            + between,
{
}

/// The first and the last of the three regions that a valid region splits into hold the bits
/// that the region holds at the same places: the first holds its first bits, and the last
/// holds its last bits. Here `mem` holds the elements of the region.
pub proof fn lemma_align_to_edges<O: BitOrder, T: BitStore>(mem: Seq<T>, region: Region, to: nat)
    requires
        valid_width(to),
        region.valid(T::width()),
        region.elements(T::width()) <= mem.len(),
    ensures
        ({
            let (left, center, right) = align_to_spec(region, T::width(), to);
            let skip = (right.addr - region.addr) / (elem_bytes(T::width()) as int);
            &&& left.bits > 0 ==> bits_of::<O, T>(mem, left) == bits_of::<O, T>(
                mem,
                region,
            ).subrange(0, left.bits as int)
            &&& right.bits > 0 ==> skip >= 0 && bits_of::<O, T>(mem.skip(skip), right)
                == bits_of::<O, T>(mem, region).subrange(
                (left.bits + center.bits) as int,
                region.bits as int,
            )
        }),
{
    let width = T::width();
    T::width_is_valid();
    lemma_align_to_partition(region, width, to);
    let (left, center, right) = align_to_spec(region, width, to);
    if left.bits > 0 {
        lemma_element_distance(region, left, 0, width);
        lemma_part_bits::<O, T>(mem, region, left, 0, 0);
        assert(mem.skip(0) =~= mem);
    }
    if right.bits > 0 {
        let between = left.bits + center.bits;
        lemma_element_distance(region, right, between, width);
        let skip = ((right.addr - region.addr) / (elem_bytes(width) as int)) as nat;
        lemma_part_bits::<O, T>(mem, region, right, skip, between);
    }
}

/// Where the middle of the three regions that a valid region splits into holds the bits that
/// the region holds at the same places, the three read in turn give the bits of the region.
pub proof fn lemma_parts_in_turn<O: BitOrder, T: BitStore, U: BitStore>(
    mem: Seq<T>,
    center_mem: Seq<U>,
    region: Region,
)
    requires
        region.valid(T::width()),
        region.elements(T::width()) <= mem.len(),
        ({
            let (left, center, right) = align_to_spec(region, T::width(), U::width());
            center.bits > 0 ==> bits_of::<O, U>(center_mem, center) == bits_of::<O, T>(
                mem,
                region,
            ).subrange(left.bits as int, (left.bits + center.bits) as int)
        }),
    ensures
        ({
            let (left, center, right) = align_to_spec(region, T::width(), U::width());
            let skip = if right.bits > 0 {
                (right.addr - region.addr) / (elem_bytes(T::width()) as int)
            } else {
                0
            };
            bits_of::<O, T>(mem, left) + bits_of::<O, U>(center_mem, center) + bits_of::<O, T>(
                mem.skip(skip),
                right,
            ) == bits_of::<O, T>(mem, region)
        }),
{
    T::width_is_valid();
    U::width_is_valid();
    lemma_align_to_partition(region, T::width(), U::width());
    lemma_align_to_edges::<O, T>(mem, region, U::width());
    let (left, center, right) = align_to_spec(region, T::width(), U::width());
    let skip = if right.bits > 0 {
        (right.addr - region.addr) / (elem_bytes(T::width()) as int)
    } else {
        0
    };
    assert(bits_of::<O, T>(mem, left) + bits_of::<O, U>(center_mem, center) + bits_of::<O, T>(
        mem.skip(skip),
        right,
    ) =~= bits_of::<O, T>(mem, region));
}

/// Where the elements of the two types are of one width, and each element of the middle
/// region holds the value that the region's element at the same address holds, the three
/// regions that a valid region splits into, read in turn, give the bits of the region, in any
/// order of bits. Here `mem` holds the elements of the region, and `center_mem` holds the
/// elements of the middle region.
pub proof fn lemma_align_to_reads_same_width<O: BitOrder, T: BitStore, U: BitStore>(
    mem: Seq<T>,
    center_mem: Seq<U>,
    region: Region,
)
    requires
        U::width() == T::width(),
        region.valid(T::width()),
        region.elements(T::width()) <= mem.len(),
        ({
            let center = align_to_spec(region, T::width(), U::width()).1;
            let skip = (center.addr - region.addr) / (elem_bytes(T::width()) as int);
            center.bits > 0 ==> center.elements(U::width()) <= center_mem.len() && forall|k: int|
                0 <= k < center.elements(U::width()) ==> (#[trigger] center_mem[k]).value()
                    == mem[skip + k].value()
        }),
    ensures
        ({
            let (left, center, right) = align_to_spec(region, T::width(), U::width());
            let skip = if right.bits > 0 {
                (right.addr - region.addr) / (elem_bytes(T::width()) as int)
            } else {
                0
            };
            bits_of::<O, T>(mem, left) + bits_of::<O, U>(center_mem, center) + bits_of::<O, T>(
                mem.skip(skip),
                right,
            ) == bits_of::<O, T>(mem, region)
        }),
{
    let width = T::width();
    T::width_is_valid();
    lemma_align_to_partition(region, width, width);
    let (left, center, right) = align_to_spec(region, width, width);
    if center.bits > 0 {
        lemma_element_distance(region, center, left.bits, width);
        let skip = ((center.addr - region.addr) / (elem_bytes(width) as int)) as nat;
        lemma_part_bits::<O, T>(mem, region, center, skip, left.bits);
        let part = mem.skip(skip as int);
        assert forall|i: int| 0 <= i < center.bits implies bits_of::<O, U>(center_mem, center)[i]
            == bits_of::<O, T>(part, center)[i] by {
            lemma_bit_in_span(0, center.bits, i as nat, width);
            lemma_bit_in_span(region.head, region.bits, (left.bits + i) as nat, width);
            lemma_skip_elements(i as nat, skip, width);
        }
        assert(bits_of::<O, U>(center_mem, center) =~= bits_of::<O, T>(part, center));
    }
    lemma_parts_in_turn::<O, T, U>(mem, center_mem, region);
}

} // verus!
