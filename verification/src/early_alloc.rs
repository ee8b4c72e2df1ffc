//! The dual-end bootstrap bump allocator: one address range serving byte
//! allocations forward from the low end and page allocations backward from
//! the high end, with an always-shrinking gap between the two cursors.
use vstd::prelude::*;
use vstd::arithmetic::power2::{pow2, is_pow2, is_pow2_equiv, lemma_pow2_pos};
use vstd::arithmetic::power::pow;
use vstd::arithmetic::div_mod::{lemma_fundamental_div_mod, lemma_mod_division_less_than_divisor};
use vstd::bits::{lemma_usize_shl_is_mul, lemma_usize_pow2_no_overflow};
use crate::AllocError;

verus! {

/// The smallest multiple of `a` at or above `x`.
pub open spec fn align_up(x: int, a: int) -> int {
    ((x + a - 1) / a) * a
}

/// The largest multiple of `a` at or below `x`.
pub open spec fn align_down(x: int, a: int) -> int {
    (x / a) * a
}

/// Early memory allocator, usable before the main allocator's bookkeeping
/// structures themselves have memory to live in. One address range is split
/// at runtime:
///
/// `[ bytes-used | available | pages-used ]`, with the byte cursor growing
/// forward from `start` and the page cursor growing backward from `end`.
///
/// Byte deallocation reclaims space only for the most recent allocation;
/// page deallocation likewise. Anything else is a deliberate no-op: the
/// bootstrap phase has stack-like allocation lifetimes.
pub struct EarlyAllocator<const PAGE_SIZE: usize> {
    start: usize,
    end: usize,
    byte_pos: usize,
    page_pos: usize,
}

impl<const PAGE_SIZE: usize> EarlyAllocator<PAGE_SIZE> {
    /// Low end of the managed range.
    pub closed spec fn start_spec(self) -> int {
        self.start as int
    }

    /// One past the high end of the managed range.
    pub closed spec fn end_spec(self) -> int {
        self.end as int
    }

    /// Next byte-allocation position (grows forward).
    pub closed spec fn byte_pos_spec(self) -> int {
        self.byte_pos as int
    }

    /// Exclusive upper bound of the gap: the most recent page allocation
    /// (shrinks backward).
    pub closed spec fn page_pos_spec(self) -> int {
        self.page_pos as int
    }

    /// The cursors never cross and stay inside the managed range.
    pub open spec fn wf(self) -> bool {
        &&& PAGE_SIZE >= 1
        &&& self.start_spec() <= self.byte_pos_spec()
        &&& self.byte_pos_spec() <= self.page_pos_spec()
        &&& self.page_pos_spec() <= self.end_spec()
    }

    /// An empty allocator over the empty range.
    pub fn new() -> (r: Self)
        requires
            PAGE_SIZE >= 1,
        ensures
            r.wf(),
            r.start_spec() == 0,
            r.end_spec() == 0,
            r.byte_pos_spec() == 0,
            r.page_pos_spec() == 0,
    {
        EarlyAllocator { start: 0, end: 0, byte_pos: 0, page_pos: 0 }
    }

    /// Take over the free region `[start, start + size)`: bytes will grow
    /// from its low end, pages from its high end.
    pub fn init(&mut self, start: usize, size: usize)
        requires
            old(self).wf(),
            start + size <= usize::MAX,
        ensures
            final(self).wf(),
            final(self).start_spec() == start,
            final(self).end_spec() == start + size,
            final(self).byte_pos_spec() == start,
            final(self).page_pos_spec() == start + size,
    {
        self.end = start + size;
        self.start = start;
        self.byte_pos = start;
        self.page_pos = self.end;
    }

    /// The bootstrap allocator manages a single range; a further region is
    /// acknowledged and ignored.
    pub fn add_memory(&mut self, _start: usize, _size: usize) -> (r: Result<(), AllocError>)
        ensures
            *final(self) == *old(self),
            r is Ok,
    {
        Ok(())
    }

    /// What a successful byte allocation did: the returned address is the
    /// byte cursor aligned up, the allocation ends at or below the page
    /// cursor, and the byte cursor moved to its end.
    pub open spec fn bytes_ok_post(pre: Self, post: Self, size: int, align: int, addr: int) -> bool {
        let aligned = align_up(pre.byte_pos_spec(), align);
        &&& addr == aligned
        &&& addr % align == 0
        &&& pre.byte_pos_spec() <= aligned
        &&& aligned + size <= pre.page_pos_spec()
        &&& post.byte_pos_spec() == aligned + size
        &&& post.start_spec() == pre.start_spec()
        &&& post.end_spec() == pre.end_spec()
        &&& post.page_pos_spec() == pre.page_pos_spec()
    }

    /// Bump the byte cursor: align it up to `align` (a power of two), check
    /// the end of the request against the page cursor, and hand out the
    /// aligned start. Fails with `NoMemory`, moving nothing, exactly when
    /// the aligned request would cross the page cursor.
    pub fn alloc_bytes(&mut self, size: usize, align: usize) -> (r: Result<usize, AllocError>)
        requires
            old(self).wf(),
            is_pow2(align as int),
            old(self).end_spec() + align + size <= usize::MAX,
        ensures
            final(self).wf(),
            match r {
                Ok(addr) => Self::bytes_ok_post(
                    *old(self),
                    *final(self),
                    size as int,
                    align as int,
                    addr as int,
                ),
                Err(e) => {
                    &&& e == AllocError::NoMemory
                    &&& align_up(old(self).byte_pos_spec(), align as int) + size > old(
                        self,
                    ).page_pos_spec()
                    &&& *final(self) == *old(self)
                },
            },
    {
        proof {
            is_pow2_equiv(align as int);
            assert(align >= 1) by {
                let e = choose|e: nat| pow(2, e) == align as int;
                vstd::arithmetic::power::lemma_pow_positive(2, e);
            }
            let a = align as int;
            let x = self.byte_pos as int + a - 1;
            lemma_fundamental_div_mod(x, a);
            lemma_mod_division_less_than_divisor(x, a);
            assert((x / a) * a == a * (x / a));
            assert((x / a) * a == x - (x % a));
        }
        let mask = align - 1;
        let b_pos = ((self.byte_pos + mask) / align) * align;
        proof {
            let x = old(self).byte_pos_spec() + align - 1;
            let a = align as int;
            assert(b_pos == x - (x % a));
            assert((b_pos as int) % a == 0) by (nonlinear_arith)
                requires
                    a >= 1,
                    b_pos as int == (x / a) * a,
            ;
        }
        let b_end = b_pos + size;
        if b_end > self.page_pos {
            return Err(AllocError::NoMemory);
        }
        self.byte_pos = b_end;
        Ok(b_pos)
    }

    /// Reclaim a byte allocation only if it is the most recent one (its end
    /// is exactly the byte cursor), rewinding the cursor to its start;
    /// freeing any earlier allocation is a deliberate no-op.
    pub fn dealloc(&mut self, pos: usize, size: usize)
        requires
            old(self).wf(),
            pos + size <= usize::MAX,
            pos + size == old(self).byte_pos_spec() ==> pos >= old(self).start_spec(),
        ensures
            final(self).wf(),
            final(self).start_spec() == old(self).start_spec(),
            final(self).end_spec() == old(self).end_spec(),
            final(self).page_pos_spec() == old(self).page_pos_spec(),
            final(self).byte_pos_spec() == if pos + size == old(self).byte_pos_spec() {
                pos as int
            } else {
                old(self).byte_pos_spec()
            },
    {
        let b_end = pos + size;
        if b_end == self.byte_pos {
            self.byte_pos = pos;
        }
    }

    /// What a successful page allocation did: the page cursor, aligned down
    /// to the requested power-of-two alignment, moved back by the size of
    /// the run, staying at or above the byte cursor; the new cursor is the
    /// returned base address.
    pub open spec fn pages_ok_post(pre: Self, post: Self, num: int, a: int, addr: int) -> bool {
        let target = align_down(pre.page_pos_spec(), a) - num * PAGE_SIZE;
        &&& addr == target
        &&& target >= pre.byte_pos_spec()
        &&& post.page_pos_spec() == target
        &&& post.start_spec() == pre.start_spec()
        &&& post.end_spec() == pre.end_spec()
        &&& post.byte_pos_spec() == pre.byte_pos_spec()
    }

    /// Allocate a run of `num_pages` pages backward: align the page cursor
    /// down to `2^align_pow2`, move it back by the run, and fail with
    /// `NoMemory`, moving nothing, exactly when that would cross below the
    /// byte cursor.
    pub fn alloc_pages(&mut self, num_pages: usize, align_pow2: usize) -> (r: Result<
        usize,
        AllocError,
    >)
        requires
            old(self).wf(),
            align_pow2 < 32,
            num_pages * PAGE_SIZE <= usize::MAX,
        ensures
            final(self).wf(),
            match r {
                Ok(addr) => Self::pages_ok_post(
                    *old(self),
                    *final(self),
                    num_pages as int,
                    pow2(align_pow2 as nat) as int,
                    addr as int,
                ),
                Err(e) => {
                    &&& e == AllocError::NoMemory
                    &&& align_down(old(self).page_pos_spec(), pow2(align_pow2 as nat) as int)
                        - num_pages * PAGE_SIZE < old(self).byte_pos_spec()
                    &&& *final(self) == *old(self)
                },
            },
    {
        proof {
            lemma_usize_pow2_no_overflow(align_pow2 as nat);
            lemma_usize_shl_is_mul(1usize, align_pow2);
            lemma_pow2_pos(align_pow2 as nat);
        }
        let align = 1usize << align_pow2;
        proof {
            let a = align as int;
            let x = self.page_pos as int;
            lemma_fundamental_div_mod(x, a);
            lemma_mod_division_less_than_divisor(x, a);
            assert((x / a) * a == a * (x / a));
            assert((x / a) * a == x - (x % a));
        }
        let p_end = (self.page_pos / align) * align;
        let need = num_pages * PAGE_SIZE;
        if p_end < need || p_end - need < self.byte_pos {
            return Err(AllocError::NoMemory);
        }
        let p_pos = p_end - need;
        self.page_pos = p_pos;
        Ok(p_pos)
    }

    /// Rewind the page cursor over a run that ends exactly at it; any
    /// other argument is a deliberate no-op. In normal use pages are never
    /// freed; this path exists for the stack-like unwind case only.
    pub fn dealloc_pages(&mut self, pos: usize, num_pages: usize)
        requires
            old(self).wf(),
            pos + num_pages * PAGE_SIZE <= usize::MAX,
            pos + num_pages * PAGE_SIZE == old(self).page_pos_spec() ==> pos >= old(
                self,
            ).byte_pos_spec(),
        ensures
            final(self).wf(),
            final(self).start_spec() == old(self).start_spec(),
            final(self).end_spec() == old(self).end_spec(),
            final(self).byte_pos_spec() == old(self).byte_pos_spec(),
            final(self).page_pos_spec() == if pos + num_pages * PAGE_SIZE == old(
                self,
            ).page_pos_spec() {
                pos as int
            } else {
                old(self).page_pos_spec()
            },
    {
        let p_end = pos + num_pages * PAGE_SIZE;
        if p_end == self.page_pos {
            self.page_pos = pos;
        }
    }

    /// Size of the managed range in bytes.
    pub fn total_bytes(&self) -> (r: usize)
        requires
            self.wf(),
        ensures
            r == self.end_spec() - self.start_spec(),
    {
        self.end - self.start
    }

    /// Bytes taken by byte allocations.
    pub fn used_bytes(&self) -> (r: usize)
        requires
            self.wf(),
        ensures
            r == self.byte_pos_spec() - self.start_spec(),
    {
        self.byte_pos - self.start
    }

    /// Bytes in the gap between the two cursors.
    pub fn available_bytes(&self) -> (r: usize)
        requires
            self.wf(),
        ensures
            r == self.page_pos_spec() - self.byte_pos_spec(),
    {
        self.page_pos - self.byte_pos
    }

    /// Whole pages between the byte cursor and the high end.
    pub fn total_pages(&self) -> (r: usize)
        requires
            self.wf(),
        ensures
            r == (self.end_spec() - self.byte_pos_spec()) / (PAGE_SIZE as int),
    {
        (self.end - self.byte_pos) / PAGE_SIZE
    }

    /// Whole pages taken by page allocations.
    pub fn used_pages(&self) -> (r: usize)
        requires
            self.wf(),
        ensures
            r == (self.end_spec() - self.page_pos_spec()) / (PAGE_SIZE as int),
    {
        (self.end - self.page_pos) / PAGE_SIZE
    }

    /// Whole pages that still fit in the gap.
    pub fn available_pages(&self) -> (r: usize)
        requires
            self.wf(),
        ensures
            r == (self.page_pos_spec() - self.byte_pos_spec()) / (PAGE_SIZE as int),
    {
        (self.page_pos - self.byte_pos) / PAGE_SIZE
    }

    /// Bootstrap ordering: a byte allocation and a page allocation made
    /// after it hand out ranges that cannot overlap — the byte range ends
    /// at or below the byte cursor, which the later page allocation never
    /// crosses.
    pub proof fn lemma_bootstrap_no_overlap(
        s0: Self,
        s1: Self,
        s2: Self,
        size: int,
        align: int,
        baddr: int,
        num: int,
        a: int,
        paddr: int,
    )
        requires
            Self::bytes_ok_post(s0, s1, size, align, baddr),
            Self::pages_ok_post(s1, s2, num, a, paddr),
        ensures
            baddr + size <= paddr,
    {
    }
}

} // verus!
