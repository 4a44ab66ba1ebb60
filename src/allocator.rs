use vstd::prelude::*;
use vstd::arithmetic::power2::{pow2, lemma_pow2_unfold, lemma2_to64};

verus! {

/// Total number of bytes in the arena.
pub const ARENA_SIZE: usize = 131072;

/// Largest alignment that an allocation may ask for.
pub const MAX_SUPPORTED_ALIGN: usize = 4096;

/// Room taken by the header of a free block: its offset link and its size.
pub const HEADER_SIZE: usize = 16;

/// A free block of the arena: `size` bytes, header included, from offset `start`.
#[derive(Clone, Copy, Debug, PartialEq, Eq, Structural)]
pub struct MemBlock {
    pub start: usize,
    pub size: usize,
}

/// Why an operation could not be carried out.
#[derive(Clone, Copy, Debug, PartialEq, Eq, Structural)]
pub enum Failure {
    UnsupportedAlignment,
    OutOfMemory,
    IndexOutOfBounds,
}

/// A power of two no larger than `MAX_SUPPORTED_ALIGN` (2 to the 12th).
pub open spec fn supported_align(align: int) -> bool {
    exists|k: nat| k <= 12 && align == pow2(k) as int
}

/// The smallest multiple of `align` that is not below `addr`.
pub open spec fn align_up_spec(addr: int, align: int) -> int {
    if addr % align == 0 {
        addr
    } else {
        addr + (align - addr % align)
    }
}

pub open spec fn block_end(b: MemBlock) -> int {
    b.start + b.size
}

/// Bytes skipped at the front of `b` so that the returned offset is aligned.
pub open spec fn padding(b: MemBlock, align: int) -> int {
    align_up_spec(b.start as int, align) - b.start
}

/// `b` can hold `size` bytes at alignment `align` and still leave room for a header.
pub open spec fn fits(b: MemBlock, size: int, align: int) -> bool {
    b.size >= size + HEADER_SIZE + padding(b, align)
}

/// Index of the first block at or after `i` that fits, or the length if none does.
pub open spec fn first_fit(s: Seq<MemBlock>, size: int, align: int, i: int) -> int
    decreases s.len() - i,
{
    if i < 0 || i >= s.len() {
        s.len() as int
    } else if fits(s[i], size, align) {
        i
    } else {
        first_fit(s, size, align, i + 1)
    }
}

/// What is left of `b` once `size` bytes at alignment `align` are taken from it.
pub open spec fn remainder(b: MemBlock, size: int, align: int) -> MemBlock {
    MemBlock {
        start: (align_up_spec(b.start as int, align) + size) as usize,
        size: (b.size - padding(b, align) - size) as usize,
    }
}

/// First-fit allocation on the free list `s`: the new list and the outcome.
pub open spec fn alloc_spec(s: Seq<MemBlock>, size: int, align: int) -> (Seq<MemBlock>, Result<usize, Failure>) {
    if !supported_align(align) {
        (s, Err(Failure::UnsupportedAlignment))
    } else {
        let i = first_fit(s, size, align, 0);
        if i == s.len() {
            (s, Err(Failure::OutOfMemory))
        } else {
            (s.update(i, remainder(s[i], size, align)), Ok(align_up_spec(s[i].start as int, align) as usize))
        }
    }
}

/// Index of the first block at or after `i` that starts above `ptr`, or the length.
pub open spec fn insert_pos(s: Seq<MemBlock>, ptr: int, i: int) -> int
    decreases s.len() - i,
{
    if i < 0 || i >= s.len() {
        s.len() as int
    } else if s[i].start > ptr {
        i
    } else {
        insert_pos(s, ptr, i + 1)
    }
}

/// The coalescing pass from node `i` on: a node absorbs each successor that it touches,
/// and is checked again after each merge.
pub open spec fn merge_from(s: Seq<MemBlock>, i: int) -> Seq<MemBlock>
    decreases s.len() - i,
{
    if i < 0 || i + 1 >= s.len() {
        s
    } else if block_end(s[i]) == s[i + 1].start {
        merge_from(
            s.update(i, MemBlock { start: s[i].start, size: (s[i].size + s[i + 1].size) as usize }).remove(i + 1),
            i,
        )
    } else {
        merge_from(s, i + 1)
    }
}

/// Freeing `size` bytes at `ptr`: insertion in address order, then coalescing.
pub open spec fn dealloc_spec(s: Seq<MemBlock>, ptr: int, size: int) -> Seq<MemBlock> {
    merge_from(s.insert(insert_pos(s, ptr, 0), MemBlock { start: ptr as usize, size: size as usize }), 0)
}

/// Every block lies inside the arena.
pub open spec fn in_arena(s: Seq<MemBlock>) -> bool {
    forall|i: int| 0 <= i < s.len() ==> #[trigger] block_end(s[i]) <= ARENA_SIZE
}

/// The free list of a fixed arena of `ARENA_SIZE` bytes, kept as offsets into the arena.
pub struct Allocator {
    free_list: Vec<MemBlock>,
}

impl View for Allocator {
    type V = Seq<MemBlock>;

    closed spec fn view(&self) -> Seq<MemBlock> {
        self.free_list@
    }
}

/// Whether `align` is a power of two no larger than `MAX_SUPPORTED_ALIGN`.
pub fn is_supported_align(align: usize) -> (r: bool)
    ensures
        r == supported_align(align as int),
{
    let mut p: usize = 1;
    let mut k: usize = 0;
    proof {
        lemma2_to64();
    }
    while k <= 12
        invariant
            k <= 13,
            p as int == pow2(k as nat),
            forall|j: nat| j < k ==> pow2(j) != align as int,
        decreases 13 - k,
    {
        if p == align {
            return true;
        }
        proof {
            lemma2_to64();
            lemma_pow2_unfold((k + 1) as nat);
        }
        p = p * 2;
        k = k + 1;
    }
    false
}

impl Allocator {
    /// Rounds `addr` up to the nearest multiple of `align`.
    pub fn align_up(addr: usize, align: usize) -> (r: usize)
        requires
            align > 0,
            addr + align <= usize::MAX,
        ensures
            r == align_up_spec(addr as int, align as int),
    {
        let rem = addr % align;
        if rem == 0 {
            addr
        } else {
            addr + (align - rem)
        }
    }

    /// Every free block lies inside the arena.
    pub open spec fn wf(&self) -> bool {
        in_arena(self@)
    }

    /// An allocator whose free list is still empty: `init` must be called first.
    pub fn new() -> (r: Allocator)
        ensures
            r.wf(),
            r@ == Seq::<MemBlock>::empty(),
    {
        Allocator { free_list: Vec::new() }
    }

    /// The free blocks in list order.
    pub fn blocks(&self) -> (r: Vec<MemBlock>)
        ensures
            r@ == self@,
    {
        let mut r: Vec<MemBlock> = Vec::new();
        let mut i: usize = 0;
        while i < self.free_list.len()
            invariant
                i <= self@.len(),
                r@ == self@.subrange(0, i as int),
            decreases self@.len() - i,
        {
            r.push(self.free_list[i]);
            i += 1;
            proof {
                assert(r@ =~= self@.subrange(0, i as int));
            }
        }
        proof {
            assert(self@.subrange(0, i as int) =~= self@);
        }
        r
    }

    /// Makes the free list one block that spans the whole arena.
    pub fn init(&mut self)
        ensures
            final(self).wf(),
            final(self)@ == seq![MemBlock { start: 0, size: ARENA_SIZE }],
    {
        let mut v: Vec<MemBlock> = Vec::new();
        v.push(MemBlock { start: 0, size: ARENA_SIZE });
        self.free_list = v;
        proof {
            assert(self@ =~= seq![MemBlock { start: 0, size: ARENA_SIZE }]);
        }
    }

    /// First-fit allocation of `size` bytes at alignment `align`; the result is an
    /// offset into the arena.
    pub fn allocate(&mut self, size: usize, align: usize) -> (r: Result<usize, Failure>)
        requires
            old(self).wf(),
        ensures
            final(self).wf(),
            (final(self)@, r) == alloc_spec(old(self)@, size as int, align as int),
            r is Ok ==> r->Ok_0 + size <= ARENA_SIZE,
    {
        if !is_supported_align(align) {
            return Err(Failure::UnsupportedAlignment);
        }
        proof {
            lemma2_to64();
        }
        let mut i: usize = 0;
        while i < self.free_list.len()
            invariant
                self.wf(),
                self@ == old(self)@,
                supported_align(align as int),
                align <= MAX_SUPPORTED_ALIGN,
                align > 0,
                i <= self@.len(),
                first_fit(self@, size as int, align as int, i as int)
                    == first_fit(self@, size as int, align as int, 0),
            decreases self@.len() - i,
        {
            let b = self.free_list[i];
            proof {
                assert(block_end(self@[i as int]) <= ARENA_SIZE);
            }
            let aligned = Allocator::align_up(b.start, align);
            let pad = aligned - b.start;
            if b.size >= pad && b.size - pad >= HEADER_SIZE && b.size - pad - HEADER_SIZE >= size {
                let rest = MemBlock { start: aligned + size, size: b.size - pad - size };
                self.free_list.set(i, rest);
                proof {
                    assert forall|j: int| 0 <= j < self@.len() implies #[trigger] block_end(self@[j])
                        <= ARENA_SIZE by {
                        if j != i {
                            assert(block_end(old(self)@[j]) <= ARENA_SIZE);
                        }
                    }
                }
                return Ok(aligned);
            }
            i += 1;
        }
        Err(Failure::OutOfMemory)
    }

    /// The coalescing pass over the whole free list.
    fn merge_blocks(&mut self)
        requires
            old(self).wf(),
        ensures
            final(self).wf(),
            final(self)@ == merge_from(old(self)@, 0),
    {
        let mut i: usize = 0;
        while i + 1 < self.free_list.len()
            invariant
                self.wf(),
                i == 0 || i < self.free_list.len(),
                merge_from(self@, i as int) == merge_from(old(self)@, 0),
            decreases self@.len() - i,
        {
            let a = self.free_list[i];
            let b = self.free_list[i + 1];
            proof {
                assert(block_end(self@[i as int]) <= ARENA_SIZE);
                assert(block_end(self@[i + 1]) <= ARENA_SIZE);
            }
            if a.start + a.size == b.start {
                let ghost before = self@;
                self.free_list.set(i, MemBlock { start: a.start, size: a.size + b.size });
                self.free_list.remove(i + 1);
                proof {
                    let merged = MemBlock { start: a.start, size: (a.size + b.size) as usize };
                    assert(self@ =~= before.update(i as int, merged).remove(i + 1));
                    assert forall|j: int| 0 <= j < self@.len() implies #[trigger] block_end(self@[j])
                        <= ARENA_SIZE by {
                        if j < i {
                            assert(block_end(before[j]) <= ARENA_SIZE);
                        } else if j > i {
                            assert(block_end(before[j + 1]) <= ARENA_SIZE);
                        }
                    }
                }
            } else {
                i += 1;
            }
        }
    }

    /// Returns `size` bytes at offset `ptr` to the free list, in address order, and
    /// coalesces touching blocks.
    pub fn deallocate(&mut self, ptr: usize, size: usize)
        requires
            old(self).wf(),
            ptr + size <= ARENA_SIZE,
        ensures
            final(self).wf(),
            final(self)@ == dealloc_spec(old(self)@, ptr as int, size as int),
    {
        let mut j: usize = 0;
        while j < self.free_list.len() && self.free_list[j].start <= ptr
            invariant
                self@ == old(self)@,
                self.wf(),
                j <= self@.len(),
                insert_pos(self@, ptr as int, j as int) == insert_pos(self@, ptr as int, 0),
            decreases self@.len() - j,
        {
            j += 1;
        }
        let ghost before = self@;
        self.free_list.insert(j, MemBlock { start: ptr, size });
        proof {
            assert forall|k: int| 0 <= k < self@.len() implies #[trigger] block_end(self@[k])
                <= ARENA_SIZE by {
                if k < j {
                    assert(block_end(before[k]) <= ARENA_SIZE);
                } else if k > j {
                    assert(block_end(before[k - 1]) <= ARENA_SIZE);
                }
            }
        }
        self.merge_blocks();
    }
}

} // verus!
