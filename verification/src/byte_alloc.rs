//! The segregated-fit byte allocator: a matrix of free-block buckets indexed
//! by a two-level size class, with one bitmap word per level caching which
//! buckets are non-empty, plus running capacity counters.
//!
//! Free-block metadata lives in the allocator value itself: each bucket is a
//! last-in-first-out chain of `(address, size)` descriptors for the free
//! blocks of that class. The bitmaps are strictly derived from the bucket
//! matrix and are kept consistent by a single helper that both insertion and
//! removal call.
use vstd::prelude::*;
use vstd::pervasive::VecAdditionalExecFns;
use crate::size_class::{
    fl_of, sl_of, class_le, classify, lemma_class_monotone, lemma_class_bounds, lemma_class_gap,
    MAX_CLASS_SIZE,
};
use crate::AllocError;

verus! {

/// Descriptor of one free block: its start address and its length in bytes
/// (header included).
#[derive(Clone, Copy, Debug, PartialEq, Eq, Structural)]
pub struct FreeBlock {
    pub addr: usize,
    pub size: usize,
}

/// Bytes of block metadata at the start of every managed block; a block is
/// split only when the remainder could host at least a header of its own.
pub const HEADER_SIZE: usize = 32;

/// Test of bit `i` of a bitmap word.
pub open spec fn bit_set(w: u32, i: u32) -> bool {
    w & (1u32 << i) != 0
}

/// Sum of the block sizes of one bucket.
pub open spec fn bucket_sum(s: Seq<FreeBlock>) -> int
    decreases s.len(),
{
    if s.len() == 0 {
        0
    } else {
        bucket_sum(s.drop_last()) + s.last().size
    }
}

pub struct LabByteAllocator {
    fl_bitmap: u32,
    sl_bitmap: Vec<u32>,
    free_blocks: Vec<Vec<FreeBlock>>,
    total_memory: usize,
    used_memory: usize,
}

impl LabByteAllocator {
    /// The chain of free blocks of class `(f, s)`, most recently inserted
    /// last.
    pub closed spec fn bucket(self, f: int, s: int) -> Seq<FreeBlock> {
        self.free_blocks@[f * 32 + s]@
    }

    /// Registered capacity in bytes.
    pub closed spec fn total_spec(self) -> int {
        self.total_memory as int
    }

    /// Currently allocated bytes.
    pub closed spec fn used_spec(self) -> int {
        self.used_memory as int
    }

    spec fn sl_word(self, f: int) -> u32 {
        self.sl_bitmap@[f]
    }

    spec fn wf_lens(self) -> bool {
        self.sl_bitmap@.len() == 32 && self.free_blocks@.len() == 1024
    }

    /// The bitmaps agree with the bucket matrix: a second-level bit is set
    /// iff its bucket is non-empty, and a first-level bit is set iff its
    /// second-level word has any bit set.
    spec fn wf_bits(self) -> bool {
        &&& forall|f: int, s: int|
            0 <= f < 32 && 0 <= s < 32 ==> (bit_set(self.sl_word(f), s as u32) <==> #[trigger] self
                .bucket(f, s).len() > 0)
        &&& forall|f: int|
            0 <= f < 32 ==> (bit_set(self.fl_bitmap, f as u32) <==> #[trigger] self.sl_word(f)
                != 0)
    }

    /// Every block in a bucket carries a classifiable size, sits in the
    /// bucket of its own class, and spans an address range that fits in the
    /// address space.
    spec fn wf_blocks(self) -> bool {
        forall|f: int, s: int, i: int|
            0 <= f < 32 && 0 <= s < 32 && 0 <= i < self.bucket(f, s).len()
                ==> Self::block_ok(#[trigger] self.bucket(f, s)[i], f, s)
    }

    pub open spec fn block_ok(b: FreeBlock, f: int, s: int) -> bool {
        &&& 8 <= b.size <= MAX_CLASS_SIZE
        &&& fl_of(b.size as nat) == f
        &&& sl_of(b.size as nat) == s
        &&& b.addr + b.size <= usize::MAX
    }

    spec fn free_total_upto(self, n: int) -> int
        decreases n,
    {
        if n <= 0 {
            0
        } else {
            self.free_total_upto(n - 1) + bucket_sum(self.free_blocks@[n - 1]@)
        }
    }

    /// Sum of the sizes of all free blocks in the index.
    pub closed spec fn free_total(self) -> int {
        self.free_total_upto(1024)
    }

    /// Capacity conservation: what is in use plus what is still free never
    /// exceeds the registered total.
    spec fn wf_accounting(self) -> bool {
        self.used_spec() + self.free_total() <= self.total_spec()
    }

    /// Well-formedness of the allocator state.
    pub closed spec fn wf(self) -> bool {
        &&& self.wf_lens()
        &&& self.wf_bits()
        &&& self.wf_blocks()
        &&& self.wf_accounting()
    }

    proof fn lemma_free_total_upto_update(a: Self, b: Self, k: int, n: int)
        requires
            a.free_blocks@.len() == 1024,
            b.free_blocks@.len() == 1024,
            0 <= k < 1024,
            n <= 1024,
            forall|j: int| 0 <= j < 1024 && j != k ==> a.free_blocks@[j]@ == b.free_blocks@[j]@,
        ensures
            k < n ==> b.free_total_upto(n) == a.free_total_upto(n) - bucket_sum(
                a.free_blocks@[k]@,
            ) + bucket_sum(b.free_blocks@[k]@),
            k >= n ==> b.free_total_upto(n) == a.free_total_upto(n),
        decreases n,
    {
        if n > 0 {
            Self::lemma_free_total_upto_update(a, b, k, n - 1);
        }
    }

    /// Changing bucket `k` alone changes the free total by the difference of
    /// that bucket's sums.
    proof fn lemma_free_total_update(a: Self, b: Self, k: int)
        requires
            a.free_blocks@.len() == 1024,
            b.free_blocks@.len() == 1024,
            0 <= k < 1024,
            forall|j: int| 0 <= j < 1024 && j != k ==> a.free_blocks@[j]@ == b.free_blocks@[j]@,
        ensures
            b.free_total() == a.free_total() - bucket_sum(a.free_blocks@[k]@) + bucket_sum(
                b.free_blocks@[k]@,
            ),
    {
        Self::lemma_free_total_upto_update(a, b, k, 1024);
    }

    proof fn lemma_bucket_sum_push(s: Seq<FreeBlock>, b: FreeBlock)
        ensures
            bucket_sum(s.push(b)) == bucket_sum(s) + b.size,
    {
        assert(s.push(b).drop_last() =~= s);
    }

    proof fn lemma_bucket_sum_nonneg(s: Seq<FreeBlock>)
        ensures
            bucket_sum(s) >= 0,
        decreases s.len(),
    {
        if s.len() > 0 {
            Self::lemma_bucket_sum_nonneg(s.drop_last());
        }
    }

    proof fn lemma_free_total_upto_nonneg(self, n: int)
        requires
            n <= 1024,
            self.free_blocks@.len() == 1024,
        ensures
            self.free_total_upto(n) >= 0,
        decreases n,
    {
        if n > 0 {
            self.lemma_free_total_upto_nonneg(n - 1);
            Self::lemma_bucket_sum_nonneg(self.free_blocks@[n - 1]@);
        }
    }

    /// The free total is never negative, so the used counter never exceeds
    /// the registered capacity.
    proof fn lemma_free_total_nonneg(self)
        requires
            self.free_blocks@.len() == 1024,
        ensures
            self.free_total() >= 0,
    {
        self.lemma_free_total_upto_nonneg(1024);
    }

    /// Create an empty allocator: no capacity, nothing used, every bucket
    /// empty.
    pub fn new() -> (r: Self)
        ensures
            r.wf(),
            r.total_spec() == 0,
            r.used_spec() == 0,
            r.free_total() == 0,
            forall|f: int, s: int| 0 <= f < 32 && 0 <= s < 32 ==> #[trigger] r.bucket(f, s).len()
                == 0,
    {
        let mut sl_bitmap: Vec<u32> = Vec::new();
        let mut i: usize = 0;
        while i < 32
            invariant
                i <= 32,
                sl_bitmap@.len() == i,
                forall|j: int| 0 <= j < i ==> sl_bitmap@[j] == 0u32,
            decreases 32 - i,
        {
            sl_bitmap.push(0u32);
            i = i + 1;
        }
        let mut free_blocks: Vec<Vec<FreeBlock>> = Vec::new();
        let mut k: usize = 0;
        while k < 1024
            invariant
                k <= 1024,
                free_blocks@.len() == k,
                forall|j: int| 0 <= j < k ==> #[trigger] free_blocks@[j]@.len() == 0,
            decreases 1024 - k,
        {
            free_blocks.push(Vec::new());
            k = k + 1;
        }
        let r = LabByteAllocator {
            fl_bitmap: 0u32,
            sl_bitmap,
            free_blocks,
            total_memory: 0,
            used_memory: 0,
        };
        proof {
            assert forall|j: u32| !#[trigger] bit_set(0u32, j) by {
                Self::lemma_bit_zero(j);
            }
            r.lemma_free_total_upto_zero(1024);
        }
        r
    }

    proof fn lemma_bit_zero(j: u32)
        ensures
            !bit_set(0u32, j),
    {
        assert(0u32 & (1u32 << j) == 0) by (bit_vector);
    }

    proof fn lemma_bit_or(w: u32, s: u32, j: u32)
        requires
            s < 32,
            j < 32,
        ensures
            bit_set(w | (1u32 << s), j) == (bit_set(w, j) || j == s),
    {
        assert((w | (1u32 << s)) & (1u32 << j) != 0 <==> (w & (1u32 << j) != 0 || j == s))
            by (bit_vector)
            requires
                s < 32,
                j < 32,
        ;
    }

    proof fn lemma_bit_clear(w: u32, s: u32, j: u32)
        requires
            s < 32,
            j < 32,
        ensures
            bit_set(w & !(1u32 << s), j) == (bit_set(w, j) && j != s),
    {
        assert((w & !(1u32 << s)) & (1u32 << j) != 0 <==> (w & (1u32 << j) != 0 && j != s))
            by (bit_vector)
            requires
                s < 32,
                j < 32,
        ;
    }

    proof fn lemma_free_total_upto_zero(self, n: int)
        requires
            n <= 1024,
            self.free_blocks@.len() == 1024,
            forall|j: int| 0 <= j < 1024 ==> #[trigger] self.free_blocks@[j]@.len() == 0,
        ensures
            self.free_total_upto(n) == 0,
        decreases n,
    {
        if n > 0 {
            self.lemma_free_total_upto_zero(n - 1);
        }
    }

    /// The bitmap invariant, with the second-level bit of `(f, s)` and the
    /// first-level bit of row `f` possibly stale; `update_bitmaps`
    /// re-derives exactly those two bits after a bucket mutation.
    spec fn wf_bits_except(self, f: int, s: int) -> bool {
        &&& forall|f2: int, s2: int|
            0 <= f2 < 32 && 0 <= s2 < 32 && !(f2 == f && s2 == s) ==> (bit_set(
                self.sl_word(f2),
                s2 as u32,
            ) <==> #[trigger] self.bucket(f2, s2).len() > 0)
        &&& forall|f2: int|
            0 <= f2 < 32 && f2 != f ==> (bit_set(self.fl_bitmap, f2 as u32)
                <==> #[trigger] self.sl_word(f2) != 0)
    }

    proof fn lemma_idx_inj(f1: int, s1: int, f2: int, s2: int)
        requires
            0 <= f1 < 32,
            0 <= s1 < 32,
            0 <= f2 < 32,
            0 <= s2 < 32,
            f1 * 32 + s1 == f2 * 32 + s2,
        ensures
            f1 == f2 && s1 == s2,
    {
    }

    /// Re-derive the cached bits for bucket `(fl, sl)` and its first-level
    /// row from the bucket matrix. The single place the bitmaps are written
    /// after a bucket changes, shared by insertion and removal.
    fn update_bitmaps(&mut self, fl: usize, sl: usize)
        requires
            fl < 32,
            sl < 32,
            old(self).wf_lens(),
            old(self).wf_bits_except(fl as int, sl as int),
        ensures
            final(self).wf_lens(),
            final(self).wf_bits(),
            final(self).free_blocks == old(self).free_blocks,
            final(self).total_memory == old(self).total_memory,
            final(self).used_memory == old(self).used_memory,
    {
        let idx = fl * 32 + sl;
        let nonempty = self.free_blocks[idx].len() > 0;
        let w = self.sl_bitmap[fl];
        let w2 = if nonempty {
            w | (1u32 << (sl as u32))
        } else {
            w & !(1u32 << (sl as u32))
        };
        self.sl_bitmap.set(fl, w2);
        let fw = self.fl_bitmap;
        let fw2 = if w2 != 0 {
            fw | (1u32 << (fl as u32))
        } else {
            fw & !(1u32 << (fl as u32))
        };
        self.fl_bitmap = fw2;
        proof {
            let ghost pre = *old(self);
            assert forall|f2: int, s2: int| 0 <= f2 < 32 && 0 <= s2 < 32 implies (bit_set(
                self.sl_word(f2),
                s2 as u32,
            ) <==> #[trigger] self.bucket(f2, s2).len() > 0) by {
                assert(self.bucket(f2, s2) == pre.bucket(f2, s2));
                if f2 == fl as int {
                    assert(self.sl_word(f2) == w2);
                    if nonempty {
                        Self::lemma_bit_or(w, sl as u32, s2 as u32);
                    } else {
                        Self::lemma_bit_clear(w, sl as u32, s2 as u32);
                    }
                    if s2 != sl as int {
                        assert(bit_set(pre.sl_word(f2), s2 as u32) <==> pre.bucket(f2, s2).len()
                            > 0);
                    }
                } else {
                    assert(self.sl_word(f2) == pre.sl_word(f2));
                    assert(bit_set(pre.sl_word(f2), s2 as u32) <==> pre.bucket(f2, s2).len() > 0);
                }
            }
            assert forall|f2: int| 0 <= f2 < 32 implies (bit_set(self.fl_bitmap, f2 as u32)
                <==> #[trigger] self.sl_word(f2) != 0) by {
                if w2 != 0 {
                    Self::lemma_bit_or(fw, fl as u32, f2 as u32);
                } else {
                    Self::lemma_bit_clear(fw, fl as u32, f2 as u32);
                }
                if f2 != fl as int {
                    assert(self.sl_word(f2) == pre.sl_word(f2));
                    assert(bit_set(pre.fl_bitmap, f2 as u32) <==> pre.sl_word(f2) != 0);
                } else {
                    assert(self.sl_word(f2) == w2);
                }
            }
        }
    }

    proof fn lemma_free_total_agree(a: Self, b: Self, n: int)
        requires
            a.free_blocks == b.free_blocks,
        ensures
            a.free_total_upto(n) == b.free_total_upto(n),
        decreases n,
    {
        if n > 0 {
            Self::lemma_free_total_agree(a, b, n - 1);
        }
    }

    /// A counter write leaves the index as it was: the bucket matrix, the
    /// bitmaps, their invariants and the free total all carry over.
    proof fn lemma_wf_same_structure(a: Self, b: Self)
        requires
            a.wf_lens(),
            a.wf_bits(),
            a.wf_blocks(),
            b.free_blocks == a.free_blocks,
            b.sl_bitmap == a.sl_bitmap,
            b.fl_bitmap == a.fl_bitmap,
        ensures
            b.wf_lens(),
            b.wf_bits(),
            b.wf_blocks(),
            b.free_total() == a.free_total(),
            forall|f: int, s: int|
                0 <= f < 32 && 0 <= s < 32 ==> #[trigger] b.bucket(f, s) == a.bucket(f, s),
    {
        Self::lemma_free_total_agree(a, b, 1024);
        assert forall|f: int, s: int| 0 <= f < 32 && 0 <= s < 32 implies #[trigger] b.bucket(f, s)
            == a.bucket(f, s) by {}
        assert forall|f: int, s: int| 0 <= f < 32 && 0 <= s < 32 implies (bit_set(
            b.sl_word(f),
            s as u32,
        ) <==> #[trigger] b.bucket(f, s).len() > 0) by {
            assert(bit_set(a.sl_word(f), s as u32) <==> a.bucket(f, s).len() > 0);
        }
        assert forall|f: int| 0 <= f < 32 implies (bit_set(b.fl_bitmap, f as u32)
            <==> #[trigger] b.sl_word(f) != 0) by {
            assert(bit_set(a.fl_bitmap, f as u32) <==> a.sl_word(f) != 0);
        }
        assert forall|f: int, s: int, i: int|
            0 <= f < 32 && 0 <= s < 32 && 0 <= i < b.bucket(f, s).len() implies Self::block_ok(
            #[trigger] b.bucket(f, s)[i],
            f,
            s,
        ) by {
            assert(Self::block_ok(a.bucket(f, s)[i], f, s));
        }
    }

    /// Insert the descriptor of a free block at `addr` of `size` bytes into
    /// the bucket of its class. Accounting is the caller's business: the
    /// free total grows by `size`.
    fn insert_free_block(&mut self, addr: usize, size: usize)
        requires
            old(self).wf_lens(),
            old(self).wf_bits(),
            old(self).wf_blocks(),
            8 <= size && size <= MAX_CLASS_SIZE,
            addr + size <= usize::MAX,
        ensures
            final(self).wf_lens(),
            final(self).wf_bits(),
            final(self).wf_blocks(),
            final(self).total_memory == old(self).total_memory,
            final(self).used_memory == old(self).used_memory,
            final(self).bucket(fl_of(size as nat) as int, sl_of(size as nat) as int) == old(
                self,
            ).bucket(fl_of(size as nat) as int, sl_of(size as nat) as int).push(
                FreeBlock { addr, size },
            ),
            forall|f2: int, s2: int|
                0 <= f2 < 32 && 0 <= s2 < 32 && !(f2 == fl_of(size as nat) && s2 == sl_of(
                    size as nat,
                )) ==> #[trigger] final(self).bucket(f2, s2) == old(self).bucket(f2, s2),
            final(self).free_total() == old(self).free_total() + size,
            3 <= fl_of(size as nat) < 32,
            sl_of(size as nat) < 32,
    {
        let ghost pre = *old(self);
        let (fl, sl) = Self::mapping(size);
        let idx = fl * 32 + sl;
        let block = FreeBlock { addr, size };
        self.free_blocks[idx].push(block);
        let ghost mid = *self;
        proof {
            assert forall|f2: int, s2: int|
                0 <= f2 < 32 && 0 <= s2 < 32 && !(f2 == fl as int && s2 == sl as int) implies (
            #[trigger] mid.bucket(f2, s2) == pre.bucket(f2, s2)) by {
                if f2 * 32 + s2 == idx {
                    Self::lemma_idx_inj(f2, s2, fl as int, sl as int);
                }
            }
            assert(mid.bucket(fl as int, sl as int) == pre.bucket(fl as int, sl as int).push(
                block,
            ));
            assert forall|f2: int, s2: int, i: int|
                0 <= f2 < 32 && 0 <= s2 < 32 && 0 <= i < mid.bucket(f2, s2).len() implies
                Self::block_ok(#[trigger] mid.bucket(f2, s2)[i], f2, s2) by {
                if f2 == fl as int && s2 == sl as int && i == mid.bucket(f2, s2).len() - 1 {
                    assert(mid.bucket(f2, s2)[i] == block);
                } else {
                    assert(mid.bucket(f2, s2)[i] == pre.bucket(f2, s2)[i]);
                }
            }
            Self::lemma_free_total_update(pre, mid, idx as int);
            Self::lemma_bucket_sum_push(pre.free_blocks@[idx as int]@, block);
            assert forall|f2: int, s2: int|
                0 <= f2 < 32 && 0 <= s2 < 32 && !(f2 == fl as int && s2 == sl as int) implies (
            bit_set(mid.sl_word(f2), s2 as u32) <==> #[trigger] mid.bucket(f2, s2).len() > 0) by {
                assert(bit_set(pre.sl_word(f2), s2 as u32) <==> pre.bucket(f2, s2).len() > 0);
            }
            assert forall|f2: int| 0 <= f2 < 32 && f2 != fl as int implies (bit_set(
                mid.fl_bitmap,
                f2 as u32,
            ) <==> #[trigger] mid.sl_word(f2) != 0) by {
                assert(bit_set(pre.fl_bitmap, f2 as u32) <==> pre.sl_word(f2) != 0);
            }
        }
        self.update_bitmaps(fl, sl);
        proof {
            let fin = *self;
            Self::lemma_free_total_agree(mid, fin, 1024);
            assert forall|f2: int, s2: int, i: int|
                0 <= f2 < 32 && 0 <= s2 < 32 && 0 <= i < fin.bucket(f2, s2).len() implies
                Self::block_ok(#[trigger] fin.bucket(f2, s2)[i], f2, s2) by {
                assert(fin.bucket(f2, s2) == mid.bucket(f2, s2));
                assert(Self::block_ok(mid.bucket(f2, s2)[i], f2, s2));
            }
            assert forall|f2: int, s2: int|
                0 <= f2 < 32 && 0 <= s2 < 32 && !(f2 == fl_of(size as nat) && s2 == sl_of(
                    size as nat,
                )) implies #[trigger] fin.bucket(f2, s2) == pre.bucket(f2, s2) by {
                assert(fin.bucket(f2, s2) == mid.bucket(f2, s2));
                assert(mid.bucket(f2, s2) == pre.bucket(f2, s2));
            }
            assert(fin.bucket(fl as int, sl as int) == mid.bucket(fl as int, sl as int));
        }
    }

    /// Take the most recently inserted free block out of bucket `(fl, sl)`,
    /// if it has one, and re-derive the two cached bits.
    pub fn remove_free_block(&mut self, fl: usize, sl: usize) -> (r: Option<FreeBlock>)
        requires
            old(self).wf(),
            fl < 32,
            sl < 32,
        ensures
            final(self).wf(),
            final(self).total_spec() == old(self).total_spec(),
            final(self).used_spec() == old(self).used_spec(),
            match r {
                None => {
                    &&& old(self).bucket(fl as int, sl as int).len() == 0
                    &&& forall|f2: int, s2: int|
                        0 <= f2 < 32 && 0 <= s2 < 32 ==> #[trigger] final(self).bucket(f2, s2)
                            == old(self).bucket(f2, s2)
                    &&& final(self).free_total() == old(self).free_total()
                },
                Some(b) => {
                    &&& old(self).bucket(fl as int, sl as int).len() > 0
                    &&& b == old(self).bucket(fl as int, sl as int).last()
                    &&& Self::block_ok(b, fl as int, sl as int)
                    &&& final(self).bucket(fl as int, sl as int) == old(self).bucket(
                        fl as int,
                        sl as int,
                    ).drop_last()
                    &&& forall|f2: int, s2: int|
                        0 <= f2 < 32 && 0 <= s2 < 32 && !(f2 == fl as int && s2 == sl as int)
                            ==> #[trigger] final(self).bucket(f2, s2) == old(self).bucket(f2, s2)
                    &&& final(self).free_total() == old(self).free_total() - b.size
                },
            },
    {
        let ghost pre = *old(self);
        let idx = fl * 32 + sl;
        if self.free_blocks[idx].len() == 0 {
            return None;
        }
        let b = self.free_blocks[idx].pop().unwrap();
        let ghost mid = *self;
        proof {
            assert(pre.free_blocks@[idx as int]@.drop_last() =~= mid.free_blocks@[idx as int]@);
            assert forall|f2: int, s2: int|
                0 <= f2 < 32 && 0 <= s2 < 32 && !(f2 == fl as int && s2 == sl as int) implies (
            #[trigger] mid.bucket(f2, s2) == pre.bucket(f2, s2)) by {
                if f2 * 32 + s2 == idx {
                    Self::lemma_idx_inj(f2, s2, fl as int, sl as int);
                }
            }
            assert forall|f2: int, s2: int, i: int|
                0 <= f2 < 32 && 0 <= s2 < 32 && 0 <= i < mid.bucket(f2, s2).len() implies
                Self::block_ok(#[trigger] mid.bucket(f2, s2)[i], f2, s2) by {
                assert(mid.bucket(f2, s2)[i] == pre.bucket(f2, s2)[i]);
            }
            Self::lemma_free_total_update(pre, mid, idx as int);
            assert(bucket_sum(pre.free_blocks@[idx as int]@) == bucket_sum(
                mid.free_blocks@[idx as int]@,
            ) + b.size);
            Self::lemma_bucket_sum_nonneg(mid.free_blocks@[idx as int]@);
            assert forall|f2: int, s2: int|
                0 <= f2 < 32 && 0 <= s2 < 32 && !(f2 == fl as int && s2 == sl as int) implies (
            bit_set(mid.sl_word(f2), s2 as u32) <==> #[trigger] mid.bucket(f2, s2).len() > 0) by {
                assert(bit_set(pre.sl_word(f2), s2 as u32) <==> pre.bucket(f2, s2).len() > 0);
            }
            assert forall|f2: int| 0 <= f2 < 32 && f2 != fl as int implies (bit_set(
                mid.fl_bitmap,
                f2 as u32,
            ) <==> #[trigger] mid.sl_word(f2) != 0) by {
                assert(bit_set(pre.fl_bitmap, f2 as u32) <==> pre.sl_word(f2) != 0);
            }
        }
        self.update_bitmaps(fl, sl);
        proof {
            let fin = *self;
            Self::lemma_free_total_agree(mid, fin, 1024);
            assert forall|f2: int, s2: int, i: int|
                0 <= f2 < 32 && 0 <= s2 < 32 && 0 <= i < fin.bucket(f2, s2).len() implies
                Self::block_ok(#[trigger] fin.bucket(f2, s2)[i], f2, s2) by {
                assert(fin.bucket(f2, s2) == mid.bucket(f2, s2));
                assert(Self::block_ok(mid.bucket(f2, s2)[i], f2, s2));
            }
            assert forall|f2: int, s2: int|
                0 <= f2 < 32 && 0 <= s2 < 32 && !(f2 == fl as int && s2 == sl as int) implies
                #[trigger] fin.bucket(f2, s2) == pre.bucket(f2, s2) by {
                assert(fin.bucket(f2, s2) == mid.bucket(f2, s2));
                assert(mid.bucket(f2, s2) == pre.bucket(f2, s2));
            }
            assert(fin.bucket(fl as int, sl as int) == mid.bucket(fl as int, sl as int));
            Self::lemma_bucket_sum_nonneg(pre.free_blocks@[idx as int]@);
        }
        Some(b)
    }

    /// Column of the first non-empty bucket of row `f` at or after column
    /// `s`, if any.
    pub open spec fn scan_row(self, f: int, s: int) -> Option<int>
        decreases 32 - s,
    {
        if s >= 32 {
            None
        } else if self.bucket(f, s).len() > 0 {
            Some(s)
        } else {
            self.scan_row(f, s + 1)
        }
    }

    /// First non-empty bucket at or lexicographically after class `(f, s)`.
    pub open spec fn scan_from(self, f: int, s: int) -> Option<(int, int)>
        decreases 32 - f,
    {
        if f >= 32 {
            None
        } else {
            match self.scan_row(f, s) {
                Some(s2) => Some((f, s2)),
                None => self.scan_from(f + 1, 0),
            }
        }
    }

    /// The class the search serves a rounded request `r8` from: the
    /// request's own bucket if its most recent block is large enough,
    /// otherwise the first non-empty bucket strictly above the request's
    /// class.
    pub open spec fn spec_find(self, r8: int) -> Option<(int, int)> {
        let f = fl_of(r8 as nat) as int;
        let s = sl_of(r8 as nat) as int;
        if self.bucket(f, s).len() > 0 && self.bucket(f, s).last().size >= r8 {
            Some((f, s))
        } else {
            self.scan_from(f, s + 1)
        }
    }

    proof fn lemma_scan_row_empty(self, f: int, s: int)
        requires
            0 <= s,
            forall|s3: int| s <= s3 < 32 ==> #[trigger] self.bucket(f, s3).len() == 0,
        ensures
            self.scan_row(f, s) is None,
        decreases 32 - s,
    {
        if s < 32 {
            assert(self.bucket(f, s).len() == 0);
            self.lemma_scan_row_empty(f, s + 1);
        }
    }

    proof fn lemma_scan_row_finds(self, f: int, s: int, j: int)
        requires
            0 <= s <= j < 32,
            self.bucket(f, j).len() > 0,
            forall|s3: int| s <= s3 < j ==> #[trigger] self.bucket(f, s3).len() == 0,
        ensures
            self.scan_row(f, s) == Some(j),
        decreases 32 - s,
    {
        if s < j {
            assert(self.bucket(f, s).len() == 0);
            self.lemma_scan_row_finds(f, s + 1, j);
        }
    }

    proof fn lemma_scan_row_props(self, f: int, s: int)
        requires
            0 <= s,
        ensures
            match self.scan_row(f, s) {
                None => forall|s3: int| s <= s3 < 32 ==> #[trigger] self.bucket(f, s3).len() == 0,
                Some(s2) => s <= s2 < 32 && self.bucket(f, s2).len() > 0,
            },
        decreases 32 - s,
    {
        if s < 32 && self.bucket(f, s).len() == 0 {
            self.lemma_scan_row_props(f, s + 1);
        }
    }

    /// What a completed scan means: a hit names a non-empty bucket at or
    /// after the start class; a miss means every bucket from the start class
    /// on is empty.
    proof fn lemma_scan_from_props(self, f: int, s: int)
        requires
            0 <= f,
            0 <= s,
        ensures
            match self.scan_from(f, s) {
                None => forall|f2: int, s2: int|
                    f <= f2 < 32 && 0 <= s2 < 32 && (f2 > f || s2 >= s)
                        ==> #[trigger] self.bucket(f2, s2).len() == 0,
                Some(p) => {
                    &&& f <= p.0 < 32
                    &&& 0 <= p.1 < 32
                    &&& (p.0 > f || p.1 >= s)
                    &&& self.bucket(p.0, p.1).len() > 0
                },
            },
        decreases 32 - f,
    {
        if f < 32 {
            self.lemma_scan_row_props(f, s);
            if self.scan_row(f, s) is None {
                self.lemma_scan_from_props(f + 1, 0);
            }
        }
    }

    proof fn lemma_mask_ge(w: u32, t: u64, j: u32)
        requires
            t <= 32,
            j < 32,
        ensures
            bit_set(w & !(((1u64 << t) - 1) as u32), j) == (bit_set(w, j) && j as u64 >= t),
    {
        assert((w & !(((1u64 << t) - 1) as u32)) & (1u32 << j) != 0 <==> (w & (1u32 << j) != 0
            && j as u64 >= t)) by (bit_vector)
            requires
                t <= 32,
                j < 32,
        ;
    }

    /// Scan row `f` for its first non-empty bucket at or after column
    /// `start`, using the row's bitmap word.
    #[verifier::loop_isolation(false)]
    fn scan_row_from(&self, f: usize, start: usize) -> (r: Option<usize>)
        requires
            self.wf(),
            f < 32,
            start <= 32,
        ensures
            match r {
                Some(j) => start <= j < 32 && self.scan_row(f as int, start as int) == Some(
                    j as int,
                ),
                None => self.scan_row(f as int, start as int) is None,
            },
    {
        let w = self.sl_bitmap[f];
        let t: u64 = start as u64;
        proof {
            assert(1u64 << t >= 1) by (bit_vector)
                requires
                    t <= 32,
            ;
        }
        let mask = w & !(#[verifier::truncate] (((1u64 << t) - 1) as u32));
        if mask != 0 {
            let mut j: usize = 0;
            while j < 32
                invariant
                    j <= 32,
                    forall|k: u32| k < j ==> !#[trigger] bit_set(mask, k),
                decreases 32 - j,
            {
                if mask & (1u32 << (j as u32)) != 0 {
                    proof {
                        Self::lemma_mask_ge(w, start as u64, j as u32);
                        assert(bit_set(self.sl_word(f as int), j as u32));
                        assert(self.bucket(f as int, j as int).len() > 0);
                        assert forall|s3: int| start as int <= s3 < j as int implies #[trigger] self
                            .bucket(f as int, s3).len() == 0 by {
                            assert(!bit_set(mask, s3 as u32));
                            Self::lemma_mask_ge(w, start as u64, s3 as u32);
                            assert(!bit_set(self.sl_word(f as int), s3 as u32));
                        }
                        self.lemma_scan_row_finds(f as int, start as int, j as int);
                    }
                    return Some(j);
                }
                j = j + 1;
            }
        }
        proof {
            assert forall|s3: int| start as int <= s3 < 32 implies #[trigger] self.bucket(
                f as int,
                s3,
            ).len() == 0 by {
                Self::lemma_bit_zero(s3 as u32);
                assert(!bit_set(mask, s3 as u32));
                Self::lemma_mask_ge(w, start as u64, s3 as u32);
                assert(!bit_set(self.sl_word(f as int), s3 as u32));
            }
            self.lemma_scan_row_empty(f as int, start as int);
        }
        None
    }

    /// Find the class the allocator will serve a request of `size` bytes
    /// from: the request's own bucket when its most recent block is large
    /// enough, else the first non-empty bucket strictly above the request's
    /// class, scanning the second-level bitmap words row by row.
    #[verifier::loop_isolation(false)]
    pub fn find_suitable_block(&self, size: usize) -> (r: Option<(usize, usize)>)
        requires
            self.wf(),
            8 <= size && size <= MAX_CLASS_SIZE,
        ensures
            match r {
                Some(p) => p.0 < 32 && p.1 < 32 && self.spec_find(size as int) == Some(
                    (p.0 as int, p.1 as int),
                ),
                None => self.spec_find(size as int) is None,
            },
    {
        let (fl, sl) = Self::mapping(size);
        let idx = fl * 32 + sl;
        let blen = self.free_blocks[idx].len();
        if blen > 0 {
            let top = self.free_blocks[idx][blen - 1];
            proof {
                assert(top == self.bucket(fl as int, sl as int).last());
            }
            if top.size >= size {
                return Some((fl, sl));
            }
        }
        let mut i: usize = fl;
        while i < 32
            invariant
                fl <= i,
                self.spec_find(size as int) == self.scan_from(
                    i as int,
                    if i == fl {
                        sl as int + 1
                    } else {
                        0
                    },
                ),
            decreases 32 - i,
        {
            let start = if i == fl {
                sl + 1
            } else {
                0
            };
            let row = self.scan_row_from(i, start);
            match row {
                Some(j) => {
                    return Some((i, j));
                },
                None => {},
            }
            i = i + 1;
        }
        None
    }

    /// Map a size to its `(first-level, second-level)` class.
    pub fn mapping(size: usize) -> (r: (usize, usize))
        requires
            8 <= size && size <= MAX_CLASS_SIZE,
        ensures
            r.0 == fl_of(size as nat),
            r.1 == sl_of(size as nat),
            3 <= r.0 < 32,
            r.1 < 32,
    {
        classify(size)
    }

    fn round_up_size(size: usize) -> (r: usize)
        requires
            size + 7 <= usize::MAX,
        ensures
            r == round8(size as int),
            size <= r <= size + 7,
    {
        proof {
            assert(1usize << 3 == 8) by (bit_vector);
            assert((size + 7) as usize & !7usize == (((size + 7) as usize) / 8) * 8)
                by (bit_vector);
        }
        let m = (1usize << 3) - 1;
        (size + m) & !m
    }

    fn align_down_size(size: usize) -> (r: usize)
        ensures
            r == align_down8(size as int),
            r <= size,
    {
        proof {
            assert(1usize << 3 == 8) by (bit_vector);
            assert(size & !7usize == (size / 8) * 8) by (bit_vector);
        }
        let m = (1usize << 3) - 1;
        size & !m
    }

    /// What a successful allocation did: the block handed out is the most
    /// recent block of the class the search chose, its capacity covers the
    /// rounded request, the used counter grew by the rounded request, and
    /// the chosen block either left its bucket whole or was split, with
    /// exactly one new free block of the remaining size filed under its own
    /// class.
    pub open spec fn alloc_ok_post(pre: Self, post: Self, r8: int, addr: int) -> bool {
        match pre.spec_find(r8) {
            None => false,
            Some(p) => {
                let top = pre.bucket(p.0, p.1).last();
                &&& pre.bucket(p.0, p.1).len() > 0
                &&& top.size >= r8
                &&& addr == top.addr
                &&& post.total_spec() == pre.total_spec()
                &&& post.used_spec() == pre.used_spec() + r8
                &&& if top.size > r8 + HEADER_SIZE {
                    Self::split_buckets(pre, post, p.0, p.1, top, r8)
                } else {
                    &&& post.bucket(p.0, p.1) == pre.bucket(p.0, p.1).drop_last()
                    &&& (forall|f2: int, s2: int|
                        0 <= f2 < 32 && 0 <= s2 < 32 && !(f2 == p.0 && s2 == p.1)
                            ==> #[trigger] post.bucket(f2, s2) == pre.bucket(f2, s2))
                    &&& post.free_total() == pre.free_total() - top.size
                }
            },
        }
    }

    /// The bucket matrix after a split: the chosen block left bucket
    /// `(f, s)`, and one new free block holding the remainder was pushed
    /// onto the bucket of the remainder's own class.
    pub open spec fn split_buckets(
        pre: Self,
        post: Self,
        f: int,
        s: int,
        top: FreeBlock,
        r8: int,
    ) -> bool {
        let tail = FreeBlock { addr: (top.addr + r8) as usize, size: (top.size - r8) as usize };
        let tf = fl_of(tail.size as nat) as int;
        let ts = sl_of(tail.size as nat) as int;
        &&& if tf == f && ts == s {
            post.bucket(f, s) == pre.bucket(f, s).drop_last().push(tail)
        } else {
            post.bucket(f, s) == pre.bucket(f, s).drop_last() && post.bucket(tf, ts) == pre.bucket(
                tf,
                ts,
            ).push(tail)
        }
        &&& (forall|f2: int, s2: int|
            0 <= f2 < 32 && 0 <= s2 < 32 && !(f2 == f && s2 == s) && !(f2 == tf && s2 == ts)
                ==> #[trigger] post.bucket(f2, s2) == pre.bucket(f2, s2))
        &&& post.free_total() == pre.free_total() - r8
    }

    /// A failed allocation: no bucket at or above the request's class held
    /// a usable block, and nothing changed.
    pub open spec fn alloc_err_post(pre: Self, post: Self, r8: int) -> bool {
        &&& pre.spec_find(r8) is None
        &&& post.used_spec() == pre.used_spec()
        &&& post.total_spec() == pre.total_spec()
        &&& post.free_total() == pre.free_total()
        &&& (forall|f2: int, s2: int|
            0 <= f2 < 32 && 0 <= s2 < 32 ==> #[trigger] post.bucket(f2, s2) == pre.bucket(f2, s2))
    }

    /// What a deallocation did: a free block covering the rounded size was
    /// pushed onto the bucket of its class and the used counter shrank by
    /// the rounded size.
    pub open spec fn dealloc_post(pre: Self, post: Self, pos: usize, r8: int) -> bool {
        let f = fl_of(r8 as nat) as int;
        let s = sl_of(r8 as nat) as int;
        &&& post.total_spec() == pre.total_spec()
        &&& post.used_spec() == pre.used_spec() - r8
        &&& post.free_total() == pre.free_total() + r8
        &&& post.bucket(f, s) == pre.bucket(f, s).push(FreeBlock { addr: pos, size: r8 as usize })
        &&& (forall|f2: int, s2: int|
            0 <= f2 < 32 && 0 <= s2 < 32 && !(f2 == f && s2 == s) ==> #[trigger] post.bucket(
                f2,
                s2,
            ) == pre.bucket(f2, s2))
    }

    /// Register the first memory region: the start address is aligned up
    /// and the size down to the 8-byte granularity, one free block covering
    /// the aligned region is filed, and the aligned size becomes the
    /// capacity.
    pub fn init(&mut self, start: usize, size: usize)
        requires
            old(self).wf(),
            old(self).total_spec() == 0,
            old(self).used_spec() == 0,
            forall|f: int, s: int|
                0 <= f < 32 && 0 <= s < 32 ==> #[trigger] old(self).bucket(f, s).len() == 0,
            start + size + 7 <= usize::MAX,
            HEADER_SIZE <= align_down8(size as int),
            align_down8(size as int) <= MAX_CLASS_SIZE,
        ensures
            final(self).wf(),
            final(self).total_spec() == align_down8(size as int),
            final(self).used_spec() == 0,
            final(self).free_total() == align_down8(size as int),
            ({
                let b = FreeBlock {
                    addr: round8(start as int) as usize,
                    size: align_down8(size as int) as usize,
                };
                let f = fl_of(b.size as nat) as int;
                let s = sl_of(b.size as nat) as int;
                &&& final(self).bucket(f, s) == seq![b]
                &&& (forall|f2: int, s2: int|
                    0 <= f2 < 32 && 0 <= s2 < 32 && !(f2 == f && s2 == s)
                        ==> #[trigger] final(self).bucket(f2, s2).len() == 0)
            }),
    {
        let ghost pre = *old(self);
        let aligned_start = Self::round_up_size(start);
        let aligned_size = Self::align_down_size(size);
        proof {
            assert forall|j: int| 0 <= j < 1024 implies #[trigger] pre.free_blocks@[j]@.len()
                == 0 by {
                let f = j / 32;
                let s = j % 32;
                assert(pre.bucket(f, s).len() == 0);
            }
            pre.lemma_free_total_upto_zero(1024);
        }
        self.insert_free_block(aligned_start, aligned_size);
        let ghost mid = *self;
        self.total_memory = aligned_size;
        proof {
            Self::lemma_wf_same_structure(mid, *self);
            let f = fl_of(aligned_size as nat) as int;
            let s = sl_of(aligned_size as nat) as int;
            assert(pre.bucket(f, s).len() == 0);
            assert(pre.bucket(f, s).push(FreeBlock { addr: aligned_start, size: aligned_size })
                =~= seq![FreeBlock { addr: aligned_start, size: aligned_size }]);
            assert forall|f2: int, s2: int|
                0 <= f2 < 32 && 0 <= s2 < 32 && !(f2 == f && s2 == s) implies #[trigger] self
                .bucket(f2, s2).len() == 0 by {
                assert(mid.bucket(f2, s2) == pre.bucket(f2, s2));
                assert(pre.bucket(f2, s2).len() == 0);
            }
        }
    }

    /// Register one more memory region after startup: aligned the same way
    /// as the first, filed as one free block, and added to the capacity.
    pub fn add_memory(&mut self, start: usize, size: usize) -> (r: Result<(), AllocError>)
        requires
            old(self).wf(),
            start + size + 7 <= usize::MAX,
            HEADER_SIZE <= align_down8(size as int),
            align_down8(size as int) <= MAX_CLASS_SIZE,
            old(self).total_spec() + align_down8(size as int) <= usize::MAX,
        ensures
            final(self).wf(),
            r is Ok,
            final(self).total_spec() == old(self).total_spec() + align_down8(size as int),
            final(self).used_spec() == old(self).used_spec(),
            final(self).free_total() == old(self).free_total() + align_down8(size as int),
            ({
                let b = FreeBlock {
                    addr: round8(start as int) as usize,
                    size: align_down8(size as int) as usize,
                };
                let f = fl_of(b.size as nat) as int;
                let s = sl_of(b.size as nat) as int;
                &&& final(self).bucket(f, s) == old(self).bucket(f, s).push(b)
                &&& (forall|f2: int, s2: int|
                    0 <= f2 < 32 && 0 <= s2 < 32 && !(f2 == f && s2 == s)
                        ==> #[trigger] final(self).bucket(f2, s2) == old(self).bucket(f2, s2))
            }),
    {
        let ghost pre = *old(self);
        let aligned_start = Self::round_up_size(start);
        let aligned_size = Self::align_down_size(size);
        proof {
            pre.lemma_free_total_nonneg();
        }
        self.insert_free_block(aligned_start, aligned_size);
        let ghost mid = *self;
        self.total_memory = self.total_memory + aligned_size;
        proof {
            Self::lemma_wf_same_structure(mid, *self);
        }
        Ok(())
    }

    /// Serve a request of `size` bytes (the alignment argument is accepted
    /// for interface symmetry; the allocator guarantees its own 8-byte
    /// granularity only). The request is rounded up to the granularity, the
    /// search picks the serving class, the block leaves its bucket, an
    /// oversized block is split, and the used counter grows by the rounded
    /// request. Fails with `NoMemory` exactly when the search finds no
    /// usable block.
    pub fn alloc_bytes(&mut self, size: usize, _align: usize) -> (r: Result<usize, AllocError>)
        requires
            old(self).wf(),
            1 <= size,
            size <= MAX_CLASS_SIZE - 7,
        ensures
            final(self).wf(),
            match r {
                Ok(addr) => Self::alloc_ok_post(
                    *old(self),
                    *final(self),
                    round8(size as int),
                    addr as int,
                ),
                Err(e) => e == AllocError::NoMemory && Self::alloc_err_post(
                    *old(self),
                    *final(self),
                    round8(size as int),
                ),
            },
    {
        let ghost pre = *old(self);
        let size_r = Self::round_up_size(size);
        let ghost f0 = fl_of(size_r as nat) as int;
        let ghost s0 = sl_of(size_r as nat) as int;
        let found = self.find_suitable_block(size_r);
        match found {
            Some((fl, sl)) => {
                proof {
                    // the chosen bucket is non-empty and its top block
                    // covers the request
                    if !(pre.bucket(f0, s0).len() > 0 && pre.bucket(f0, s0).last().size
                        >= size_r) {
                        pre.lemma_scan_from_props(f0, s0 + 1);
                        let blen = pre.bucket(fl as int, sl as int).len();
                        assert(Self::block_ok(
                            pre.bucket(fl as int, sl as int)[blen - 1],
                            fl as int,
                            sl as int,
                        ));
                        lemma_class_gap(
                            size_r as nat,
                            pre.bucket(fl as int, sl as int).last().size as nat,
                        );
                    }
                    assert(pre.bucket(fl as int, sl as int).len() > 0);
                    assert(pre.bucket(fl as int, sl as int).last().size >= size_r);
                }
                let b = self.remove_free_block(fl, sl).unwrap();
                let ghost mid = *self;
                proof {
                    mid.lemma_free_total_nonneg();
                    assert(pre.used_spec() + size_r <= pre.total_spec());
                }
                if b.size - size_r > HEADER_SIZE {
                    let tail_addr = b.addr + size_r;
                    let tail_size = b.size - size_r;
                    self.insert_free_block(tail_addr, tail_size);
                }
                let ghost mid2 = *self;
                self.used_memory = self.used_memory + size_r;
                proof {
                    Self::lemma_wf_same_structure(mid2, *self);
                    let post = *self;
                    let r8 = size_r as int;
                    let tail = FreeBlock {
                        addr: (b.addr + r8) as usize,
                        size: (b.size - r8) as usize,
                    };
                    let tf = fl_of(tail.size as nat) as int;
                    let ts = sl_of(tail.size as nat) as int;
                    if b.size > r8 + HEADER_SIZE {
                        // a split happened: compose the removal of the top
                        // block with the insertion of the tail
                        if tf == fl as int && ts == sl as int {
                            assert(post.bucket(tf, ts) == mid2.bucket(tf, ts));
                            assert(mid2.bucket(tf, ts) == mid.bucket(tf, ts).push(tail));
                            assert(mid.bucket(tf, ts) == pre.bucket(tf, ts).drop_last());
                        } else {
                            assert(post.bucket(fl as int, sl as int) == mid2.bucket(
                                fl as int,
                                sl as int,
                            ));
                            assert(mid2.bucket(fl as int, sl as int) == mid.bucket(
                                fl as int,
                                sl as int,
                            ));
                            assert(post.bucket(tf, ts) == mid2.bucket(tf, ts));
                            assert(mid2.bucket(tf, ts) == mid.bucket(tf, ts).push(tail));
                            assert(mid.bucket(tf, ts) == pre.bucket(tf, ts));
                        }
                        assert forall|f2: int, s2: int|
                            0 <= f2 < 32 && 0 <= s2 < 32 && !(f2 == fl as int && s2 == sl as int)
                                && !(f2 == tf && s2 == ts) implies #[trigger] post.bucket(f2, s2)
                            == pre.bucket(f2, s2) by {
                            assert(post.bucket(f2, s2) == mid2.bucket(f2, s2));
                            assert(mid2.bucket(f2, s2) == mid.bucket(f2, s2));
                            assert(mid.bucket(f2, s2) == pre.bucket(f2, s2));
                        }
                        assert(Self::split_buckets(pre, post, fl as int, sl as int, b, r8));
                    } else {
                        assert(post.bucket(fl as int, sl as int) == mid2.bucket(
                            fl as int,
                            sl as int,
                        ));
                        assert forall|f2: int, s2: int|
                            0 <= f2 < 32 && 0 <= s2 < 32 && !(f2 == fl as int && s2
                                == sl as int) implies #[trigger] post.bucket(f2, s2) == pre.bucket(
                            f2,
                            s2,
                        ) by {
                            assert(post.bucket(f2, s2) == mid2.bucket(f2, s2));
                            assert(mid2.bucket(f2, s2) == pre.bucket(f2, s2));
                        }
                    }
                    assert(Self::alloc_ok_post(pre, post, r8, b.addr as int));
                }
                Ok(b.addr)
            },
            None => Err(AllocError::NoMemory),
        }
    }

    /// Return a block of `size` bytes at address `pos` to the allocator:
    /// the size is rounded the same way allocation rounded it, a free block
    /// of that size is filed under its class, and the used counter shrinks
    /// by the rounded size. The caller must hand back exactly what a
    /// matching allocation returned.
    pub fn dealloc(&mut self, pos: usize, size: usize, _align: usize)
        requires
            old(self).wf(),
            1 <= size,
            size <= MAX_CLASS_SIZE - 7,
            round8(size as int) <= old(self).used_spec(),
            pos + round8(size as int) <= usize::MAX,
        ensures
            final(self).wf(),
            Self::dealloc_post(*old(self), *final(self), pos, round8(size as int)),
    {
        let ghost pre = *old(self);
        let size_r = Self::round_up_size(size);
        self.insert_free_block(pos, size_r);
        let ghost mid = *self;
        self.used_memory = self.used_memory - size_r;
        proof {
            Self::lemma_wf_same_structure(mid, *self);
            let f = fl_of(size_r as nat) as int;
            let s = sl_of(size_r as nat) as int;
            assert(self.bucket(f, s) == mid.bucket(f, s));
            assert forall|f2: int, s2: int|
                0 <= f2 < 32 && 0 <= s2 < 32 && !(f2 == f && s2 == s) implies #[trigger] self
                .bucket(f2, s2) == pre.bucket(f2, s2) by {
                assert(self.bucket(f2, s2) == mid.bucket(f2, s2));
                assert(mid.bucket(f2, s2) == pre.bucket(f2, s2));
            }
        }
    }

    /// Capacity conservation: the used and available byte counts always
    /// sum to the registered total, and what is in use never exceeds it.
    /// The total itself only grows, and only by region registration, as
    /// the contracts of the mutating operations state.
    pub proof fn lemma_capacity_conservation(self)
        requires
            self.wf(),
        ensures
            self.used_spec() + (self.total_spec() - self.used_spec()) == self.total_spec(),
            0 <= self.used_spec() <= self.total_spec(),
    {
        self.lemma_free_total_nonneg();
    }

    /// The search cannot miss: if any bucket at or above the rounded
    /// request's class ends in a block large enough, the allocator serves
    /// the request.
    pub proof fn lemma_find_succeeds(self, r8: int, f: int, s: int)
        requires
            self.wf(),
            8 <= r8 <= MAX_CLASS_SIZE,
            0 <= f < 32,
            0 <= s < 32,
            class_le(fl_of(r8 as nat) as int, sl_of(r8 as nat) as int, f, s),
            self.bucket(f, s).len() > 0,
            self.bucket(f, s).last().size >= r8,
        ensures
            self.spec_find(r8) is Some,
    {
        let f0 = fl_of(r8 as nat) as int;
        let s0 = sl_of(r8 as nat) as int;
        if !(self.bucket(f0, s0).len() > 0 && self.bucket(f0, s0).last().size >= r8) {
            assert(!(f == f0 && s == s0));
            self.lemma_scan_from_props(f0, s0 + 1);
            if self.scan_from(f0, s0 + 1) is None {
                assert(self.bucket(f, s).len() == 0);
                assert(false);
            }
        }
    }

    /// Round-trip: allocating a size and immediately deallocating the
    /// returned address with the same size restores the used count to its
    /// pre-allocation value, and a subsequent request of any size up to
    /// the original is served without registering new regions.
    pub proof fn lemma_round_trip(
        pre: Self,
        mid: Self,
        post: Self,
        size: int,
        addr: usize,
        size2: int,
    )
        requires
            post.wf(),
            1 <= size,
            size + 7 <= MAX_CLASS_SIZE,
            1 <= size2 <= size,
            Self::alloc_ok_post(pre, mid, round8(size), addr as int),
            Self::dealloc_post(mid, post, addr, round8(size)),
        ensures
            post.used_spec() == pre.used_spec(),
            post.spec_find(round8(size2)) is Some,
    {
        let r8 = round8(size);
        let r82 = round8(size2);
        let cf = fl_of(r8 as nat) as int;
        let cs = sl_of(r8 as nat) as int;
        vstd::arithmetic::div_mod::lemma_div_is_ordered(size2 + 7, size + 7, 8);
        lemma_class_monotone(r82 as nat, r8 as nat);
        assert(post.bucket(cf, cs).last() == FreeBlock { addr, size: r8 as usize });
        lemma_class_bounds(r8 as nat);
        post.lemma_find_succeeds(r82, cf, cs);
    }

    /// Splitting correctness: when the chosen block was larger than the
    /// rounded request plus one header, exactly one new free block holding
    /// the remainder was filed (the split case of `alloc_ok_post`), and a
    /// subsequent request sized to fit that remainder is served.
    pub proof fn lemma_split_discoverable(
        pre: Self,
        post: Self,
        size: int,
        addr: usize,
        size2: int,
    )
        requires
            pre.wf(),
            post.wf(),
            1 <= size,
            size + 7 <= MAX_CLASS_SIZE,
            Self::alloc_ok_post(pre, post, round8(size), addr as int),
            pre.spec_find(round8(size)) is Some,
            ({
                let p = pre.spec_find(round8(size)).unwrap();
                let top = pre.bucket(p.0, p.1).last();
                &&& top.size > round8(size) + HEADER_SIZE
                &&& 1 <= size2
                &&& round8(size2) <= top.size - round8(size)
            }),
        ensures
            post.spec_find(round8(size2)) is Some,
    {
        let r8 = round8(size);
        let r82 = round8(size2);
        let p = pre.spec_find(r8).unwrap();
        let top = pre.bucket(p.0, p.1).last();
        let tail = FreeBlock { addr: (top.addr + r8) as usize, size: (top.size - r8) as usize };
        let tf = fl_of(tail.size as nat) as int;
        let ts = sl_of(tail.size as nat) as int;
        lemma_class_bounds(r8 as nat);
        let f0 = fl_of(r8 as nat) as int;
        let s0 = sl_of(r8 as nat) as int;
        if !(pre.bucket(f0, s0).len() > 0 && pre.bucket(f0, s0).last().size >= r8) {
            pre.lemma_scan_from_props(f0, s0 + 1);
        }
        assert(0 <= p.0 < 32 && 0 <= p.1 < 32);
        assert(Self::block_ok(pre.bucket(p.0, p.1)[pre.bucket(p.0, p.1).len() - 1], p.0, p.1));
        lemma_class_bounds(tail.size as nat);
        assert(post.bucket(tf, ts).last() == tail);
        lemma_class_monotone(r82 as nat, tail.size as nat);
        post.lemma_find_succeeds(r82, tf, ts);
    }

    /// Registered capacity in bytes.
    pub fn total_bytes(&self) -> (r: usize)
        ensures
            r == self.total_spec(),
    {
        self.total_memory
    }

    /// Currently allocated bytes.
    pub fn used_bytes(&self) -> (r: usize)
        ensures
            r == self.used_spec(),
    {
        self.used_memory
    }

    /// Bytes not currently allocated: the capacity minus what is in use.
    pub fn available_bytes(&self) -> (r: usize)
        requires
            self.wf(),
        ensures
            r == self.total_spec() - self.used_spec(),
    {
        proof {
            self.lemma_free_total_nonneg();
        }
        self.total_memory - self.used_memory
    }
}

/// A size rounded up to the allocator's 8-byte granularity.
pub open spec fn round8(x: int) -> int {
    ((x + 7) / 8) * 8
}

/// A size rounded down to the allocator's 8-byte granularity.
pub open spec fn align_down8(x: int) -> int {
    (x / 8) * 8
}

} // verus!
