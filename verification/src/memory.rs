//! Bump allocation arithmetic shared by the kernel heap and the VirtIO DMA pool.
use vstd::prelude::*;
use vstd::arithmetic::power2::pow2;
use vstd::bits::{low_bits_mask, lemma_usize_low_bits_mask_is_mod};

verus! {

/// `align` is a power of two that a `usize` can hold.
pub open spec fn is_pow2(align: usize) -> bool {
    exists|k: nat| k < usize::BITS && align as int == pow2(k) as int
}

/// The least multiple of `align` that is at least `value`.
pub open spec fn round_up(value: int, align: int) -> int {
    ((value + align - 1) / align) * align
}

/// The only multiple of `align` in `[value, value + align)` is `round_up(value, align)`.
pub proof fn lemma_round_up(value: int, align: int, r: int)
    requires
        align > 0,
        r % align == 0,
        value <= r < value + align,
    ensures
        r == round_up(value, align),
{
    vstd::arithmetic::div_mod::lemma_fundamental_div_mod(r, align);
    let q = r / align;
    assert(r == align * q);
    let rem = value + align - 1 - align * q;
    assert(0 <= rem < align);
    assert(q * align == align * q) by (nonlinear_arith);
    vstd::arithmetic::div_mod::lemma_fundamental_div_mod_converse(value + align - 1, align, q, rem);
}

/// Rounds `value` up to the next multiple of the power of two `align`.
pub fn align_up(value: usize, align: usize) -> (r: usize)
    requires
        is_pow2(align),
        value + align - 1 <= usize::MAX,
    ensures
        r % align == 0,
        value <= r < value + align,
        r == round_up(value as int, align as int),
{
    let ghost k: nat = choose|k: nat| k < usize::BITS && align as int == pow2(k) as int;
    proof {
        vstd::arithmetic::power2::lemma_pow2_pos(k);
    }
    let mask: usize = align - 1;
    let x: usize = value + mask;
    let r: usize = x & !mask;
    assert(r & mask == 0 && r <= x && x - r <= mask) by (bit_vector)
        requires
            r == x & !mask,
    ;
    proof {
        assert(mask == low_bits_mask(k) as usize);
        lemma_usize_low_bits_mask_is_mod(r, k);
        lemma_round_up(value as int, align as int, r as int);
    }
    r
}


/// Size of a page, the unit of DMA memory.
pub const PAGE_SIZE: usize = 4096;

/// One attempt of the bump allocator.
#[derive(PartialEq, Eq, Structural)]
pub enum Reservation {
    /// The region cannot hold the request.
    Exhausted,
    /// Bytes `[start, base + end)` would be handed out, moving the bump pointer from
    /// the current offset to `end`.
    Claim { start: usize, end: usize },
}

/// Where a request of `size` bytes (at least one), aligned to `align`, goes in the region
/// of `capacity` bytes at `base` of which `current` are used.
pub open spec fn reserve_spec(base: int, capacity: int, current: int, size: int, align: int) -> Reservation {
    let size = if size >= 1 { size } else { 1 };
    if base + current > usize::MAX {
        Reservation::Exhausted
    } else {
        let start = round_up(base + current, align);
        let end = start - base + size;
        if end > usize::MAX || end > capacity {
            Reservation::Exhausted
        } else {
            Reservation::Claim { start: start as usize, end: end as usize }
        }
    }
}

/// Plans one bump allocation; the caller claims `end` with a compare-and-swap on the
/// bump pointer and retries from the new offset if another hart was faster.
pub fn plan_reservation(base: usize, capacity: usize, current: usize, size: usize, align: usize) -> (r: Reservation)
    requires
        is_pow2(align),
        base + current <= usize::MAX ==> base + current + align - 1 <= usize::MAX,
    ensures
        r == reserve_spec(base as int, capacity as int, current as int, size as int, align as int),
{
    let size = if size > 1 { size } else { 1 };
    let start = match base.checked_add(current) {
        Some(s) => s,
        None => {
            return Reservation::Exhausted;
        },
    };
    let start = align_up(start, align);
    let offset = start - base;
    let end = match offset.checked_add(size) {
        Some(e) => e,
        None => {
            return Reservation::Exhausted;
        },
    };
    if end > capacity {
        return Reservation::Exhausted;
    }
    Reservation::Claim { start, end }
}

/// A claimed block is aligned, lies inside the region, and holds the request.
pub proof fn law_claim_inside_region(base: int, capacity: int, current: int, size: int, align: int)
    requires
        align > 0,
        0 <= base,
        0 <= current,
        base + current + align - 1 <= usize::MAX,
    ensures
        reserve_spec(base, capacity, current, size, align) matches Reservation::Claim { start, end } ==> {
            &&& (start as int) % align == 0
            &&& base + current <= start
            &&& start + (if size >= 1 { size } else { 1 }) == base + end
            &&& end <= capacity
        },
{
    if base + current <= usize::MAX {
        let x = base + current;
        let r = round_up(x, align);
        vstd::arithmetic::div_mod::lemma_fundamental_div_mod(x + align - 1, align);
        let q = (x + align - 1) / align;
        assert(r == q * align);
        assert(x <= r) by (nonlinear_arith)
            requires
                x + align - 1 == align * q + (x + align - 1) % align,
                0 <= (x + align - 1) % align < align,
                r == q * align,
        ;
        assert(r < x + align) by (nonlinear_arith)
            requires
                x + align - 1 == align * q + (x + align - 1) % align,
                0 <= (x + align - 1) % align < align,
                r == q * align,
        ;
        vstd::arithmetic::div_mod::lemma_mod_multiples_basic(q, align);
        assert(r % align == 0);
    }
}

/// The kernel heap: a bump allocator over a static region of `heap_size` bytes.
pub struct KernelAllocator {
    pub heap_size: usize,
}

impl KernelAllocator {
    /// Plans an allocation of `size` bytes aligned to `align` in the heap at `heap_base`
    /// whose first `current` bytes are used.
    pub fn alloc_plan(&self, heap_base: usize, current: usize, size: usize, align: usize) -> (r: Reservation)
        requires
            is_pow2(align),
            heap_base + current <= usize::MAX ==> heap_base + current + align - 1 <= usize::MAX,
        ensures
            r == reserve_spec(heap_base as int, self.heap_size as int, current as int, size as int, align as int),
    {
        plan_reservation(heap_base, self.heap_size, current, size, align)
    }
}

/// VirtIO DMA support: page-aligned bump allocation from a static region of
/// `dma_size` bytes, identity-mapped.
pub struct VirtioHal {
    pub dma_size: usize,
}

impl VirtioHal {
    /// Plans a DMA buffer of `pages` pages in the region at `dma_base` whose first
    /// `current` bytes are used.
    pub fn dma_alloc_plan(&self, dma_base: usize, current: usize, pages: usize) -> (r: Reservation)
        requires
            pages * PAGE_SIZE <= usize::MAX,
            dma_base + current <= usize::MAX ==> dma_base + current + PAGE_SIZE - 1 <= usize::MAX,
        ensures
            r == reserve_spec(dma_base as int, self.dma_size as int, current as int, pages * PAGE_SIZE, PAGE_SIZE as int),
    {
        proof {
            vstd::arithmetic::power2::lemma2_to64();
            assert(is_pow2(PAGE_SIZE));
        }
        plan_reservation(dma_base, self.dma_size, current, pages * PAGE_SIZE, PAGE_SIZE)
    }

    /// DMA memory is never given back; always succeeds.
    pub fn dma_dealloc(&self, paddr: usize, pages: usize) -> (r: i32)
        ensures
            r == 0,
    {
        0
    }

    /// Physical and virtual addresses coincide.
    pub fn phys_to_virt(&self, paddr: usize) -> (r: usize)
        ensures
            r == paddr,
    {
        paddr
    }

    /// Physical and virtual addresses coincide.
    pub fn virt_to_phys(&self, vaddr: usize) -> (r: usize)
        ensures
            r == vaddr,
    {
        vaddr
    }
}

} // verus!
