use vstd::prelude::*;
use crate::allocator::{
    Failure, MemBlock, ARENA_SIZE, HEADER_SIZE, alloc_spec, dealloc_spec, merge_from, insert_pos,
    first_fit, fits, padding, block_end, in_arena, align_up_spec, supported_align,
};
use vstd::arithmetic::power2::lemma2_to64;

verus! {

/// The coalescing pass from `i` leaves the blocks before `i` alone, keeps the start of
/// block `i` and never shrinks it, and every later block starts where a block after `i`
/// started.
proof fn lemma_merge_shape(t: Seq<MemBlock>, i: int)
    requires
        in_arena(t),
        0 <= i < t.len(),
    ensures
        merge_from(t, i).len() > i,
        forall|j: int| 0 <= j < i ==> #[trigger] merge_from(t, i)[j] == t[j],
        merge_from(t, i)[i].start == t[i].start,
        merge_from(t, i)[i].size >= t[i].size,
        forall|k: int|
            i < k < merge_from(t, i).len() ==> exists|j: int|
                i < j < t.len() && #[trigger] merge_from(t, i)[k].start == t[j].start,
    decreases t.len() - i,
{
    if i + 1 >= t.len() {
    } else if block_end(t[i]) == t[i + 1].start {
        assert(block_end(t[i + 1]) <= ARENA_SIZE);
        let m = MemBlock { start: t[i].start, size: (t[i].size + t[i + 1].size) as usize };
        let u = t.update(i, m).remove(i + 1);
        assert forall|j: int| 0 <= j < u.len() implies #[trigger] block_end(u[j]) <= ARENA_SIZE by {
            if j < i {
                assert(block_end(t[j]) <= ARENA_SIZE);
            } else if j > i {
                assert(block_end(t[j + 1]) <= ARENA_SIZE);
            }
        }
        lemma_merge_shape(u, i);
        let r = merge_from(u, i);
        assert forall|k: int| i < k < r.len() implies exists|j: int|
            i < j < t.len() && #[trigger] r[k].start == t[j].start by {
            let j = choose|j: int| i < j < u.len() && r[k].start == u[j].start;
            assert(u[j] == t[j + 1]);
        }
    } else {
        lemma_merge_shape(t, i + 1);
        let r = merge_from(t, i + 1);
        assert forall|k: int| i < k < r.len() implies exists|j: int|
            i < j < t.len() && #[trigger] r[k].start == t[j].start by {
            if k == i + 1 {
                assert(r[k].start == t[i + 1].start);
            } else {
                let j = choose|j: int| i + 1 < j < t.len() && r[k].start == t[j].start;
            }
        }
    }
}

proof fn lemma_inserted_in_arena(s: Seq<MemBlock>, j: int, b: MemBlock)
    requires
        in_arena(s),
        0 <= j <= s.len(),
        block_end(b) <= ARENA_SIZE,
    ensures
        in_arena(s.insert(j, b)),
{
    let t = s.insert(j, b);
    assert forall|k: int| 0 <= k < t.len() implies #[trigger] block_end(t[k]) <= ARENA_SIZE by {
        if k < j {
            assert(block_end(s[k]) <= ARENA_SIZE);
        } else if k > j {
            assert(block_end(s[k - 1]) <= ARENA_SIZE);
        }
    }
}

/// Freeing a region that lies below every free block puts it at the front of the list;
/// the front block then starts there and is at least that large, and every other block
/// starts where a block of `s` started.
proof fn lemma_free_below_all(s: Seq<MemBlock>, ptr: int, size: int)
    requires
        in_arena(s),
        0 <= ptr,
        0 <= size,
        ptr + size <= ARENA_SIZE,
        forall|k: int| 0 <= k < s.len() ==> #[trigger] s[k].start > ptr,
    ensures
        in_arena(dealloc_spec(s, ptr, size)),
        dealloc_spec(s, ptr, size).len() > 0,
        dealloc_spec(s, ptr, size)[0].start == ptr,
        dealloc_spec(s, ptr, size)[0].size >= size,
        s.len() > 0 && s[0].start != ptr + size ==> dealloc_spec(s, ptr, size)[0].size == size,
        forall|k: int|
            0 < k < dealloc_spec(s, ptr, size).len() ==> exists|j: int|
                0 <= j < s.len() && #[trigger] dealloc_spec(s, ptr, size)[k].start == s[j].start,
{
    let b = MemBlock { start: ptr as usize, size: size as usize };
    assert(insert_pos(s, ptr, 0) == 0) by {
        if s.len() > 0 {
            assert(s[0].start > ptr);
        }
    }
    let t = s.insert(0, b);
    lemma_inserted_in_arena(s, 0, b);
    crate::accounting::lemma_dealloc_total(s, ptr, size);
    lemma_merge_shape(t, 0);
    let r = merge_from(t, 0);
    assert forall|k: int| 0 < k < r.len() implies exists|j: int|
        0 <= j < s.len() && #[trigger] r[k].start == s[j].start by {
        let j = choose|j: int| 0 < j < t.len() && r[k].start == t[j].start;
        assert(t[j] == s[j - 1]);
    }
    if s.len() > 0 && s[0].start != ptr + size {
        assert(t[1] == s[0]);
        lemma_merge_shape(t, 1);
    }
}

/// Freed neighbours coalesce: when two adjacent, nonempty regions that lie below every
/// free block are given back, in either order, a request at alignment 1 for their
/// combined size less one header is granted at the lower region's offset.
pub proof fn lemma_adjacent_frees_coalesce(
    s: Seq<MemBlock>,
    lo: usize,
    lo_size: usize,
    hi_size: usize,
    low_first: bool,
)
    requires
        in_arena(s),
        lo_size > 0,
        hi_size > 0,
        lo + lo_size + hi_size <= ARENA_SIZE,
        lo_size + hi_size >= HEADER_SIZE,
        forall|k: int| 0 <= k < s.len() ==> #[trigger] s[k].start >= lo + lo_size + hi_size,
    ensures
        ({
            let hi = lo + lo_size;
            let t = if low_first {
                dealloc_spec(dealloc_spec(s, lo as int, lo_size as int), hi, hi_size as int)
            } else {
                dealloc_spec(dealloc_spec(s, hi, hi_size as int), lo as int, lo_size as int)
            };
            alloc_spec(t, lo_size + hi_size - HEADER_SIZE, 1).1 == Ok::<usize, Failure>(lo)
        }),
{
    let hi = lo + lo_size;
    let want = lo_size + hi_size - HEADER_SIZE;
    let t;
    if low_first {
        lemma_free_below_all(s, lo as int, lo_size as int);
        let r1 = dealloc_spec(s, lo as int, lo_size as int);
        if s.len() > 0 {
            assert(s[0].start >= lo + lo_size + hi_size);
        }
        assert(r1[0] == MemBlock { start: lo, size: lo_size });
        assert(insert_pos(r1, hi, 0) == 1) by {
            assert(insert_pos(r1, hi, 0) == insert_pos(r1, hi, 1));
            if r1.len() > 1 {
                let j = choose|j: int| 0 <= j < s.len() && r1[1].start == s[j].start;
                assert(s[j].start >= lo + lo_size + hi_size);
            }
        }
        let b2 = MemBlock { start: hi as usize, size: hi_size };
        let t2 = r1.insert(1, b2);
        lemma_inserted_in_arena(r1, 1, b2);
        assert(block_end(t2[0]) == t2[1].start);
        let m = MemBlock { start: lo, size: (lo_size + hi_size) as usize };
        let u = t2.update(0, m).remove(1);
        assert forall|j: int| 0 <= j < u.len() implies #[trigger] block_end(u[j]) <= ARENA_SIZE by {
            if j > 0 {
                assert(block_end(t2[j + 1]) <= ARENA_SIZE);
            }
        }
        lemma_merge_shape(u, 0);
        t = merge_from(u, 0);
        assert(t == dealloc_spec(r1, hi, hi_size as int));
    } else {
        lemma_free_below_all(s, hi, hi_size as int);
        let r1 = dealloc_spec(s, hi, hi_size as int);
        assert(insert_pos(r1, lo as int, 0) == 0);
        let b1 = MemBlock { start: lo, size: lo_size };
        let t2 = r1.insert(0, b1);
        lemma_inserted_in_arena(r1, 0, b1);
        assert(block_end(t2[0]) == t2[1].start);
        assert(block_end(t2[1]) <= ARENA_SIZE);
        let m = MemBlock { start: lo, size: (lo_size + r1[0].size) as usize };
        let u = t2.update(0, m).remove(1);
        assert forall|j: int| 0 <= j < u.len() implies #[trigger] block_end(u[j]) <= ARENA_SIZE by {
            if j > 0 {
                assert(block_end(t2[j + 1]) <= ARENA_SIZE);
            }
        }
        lemma_merge_shape(u, 0);
        t = merge_from(u, 0);
        assert(t == dealloc_spec(r1, lo as int, lo_size as int));
    }
    assert(supported_align(1)) by {
        lemma2_to64();
        assert(1 == vstd::arithmetic::power2::pow2(0) as int);
    }
    assert(align_up_spec(lo as int, 1) == lo);
    assert(padding(t[0], 1) == 0);
    assert(fits(t[0], want as int, 1));
    assert(first_fit(t, want as int, 1, 0) == 0);
}

/// The blocks are in ascending address order and none reaches into a later one.
pub open spec fn ordered(s: Seq<MemBlock>) -> bool {
    forall|i: int, j: int| 0 <= i < j < s.len() ==> block_end(#[trigger] s[i]) <= #[trigger] s[j].start
}

/// A nonempty region of `size` bytes at `ptr` that shares no byte with a block of `s`.
pub open spec fn outside_free(s: Seq<MemBlock>, ptr: int, size: int) -> bool {
    &&& size > 0
    &&& forall|k: int| 0 <= k < s.len() ==> block_end(#[trigger] s[k]) <= ptr || ptr + size <= s[k].start
}

proof fn lemma_merge_ordered(t: Seq<MemBlock>, i: int)
    requires
        in_arena(t),
        ordered(t),
    ensures
        ordered(merge_from(t, i)),
    decreases t.len() - i,
{
    if i < 0 || i + 1 >= t.len() {
    } else if block_end(t[i]) == t[i + 1].start {
        assert(block_end(t[i + 1]) <= ARENA_SIZE);
        let m = MemBlock { start: t[i].start, size: (t[i].size + t[i + 1].size) as usize };
        let u = t.update(i, m).remove(i + 1);
        assert forall|j: int| 0 <= j < u.len() implies #[trigger] block_end(u[j]) <= ARENA_SIZE by {
            if j < i {
                assert(block_end(t[j]) <= ARENA_SIZE);
            } else if j > i {
                assert(block_end(t[j + 1]) <= ARENA_SIZE);
            }
        }
        assert forall|a: int, b: int| 0 <= a < b < u.len() implies block_end(#[trigger] u[a]) <= #[trigger] u[b].start by {
            if a < i {
                if b == i {
                    assert(block_end(t[a]) <= t[i].start);
                } else {
                    assert(block_end(t[a]) <= t[b + 1].start);
                }
            } else if a == i {
                assert(block_end(t[i + 1]) <= t[b + 1].start);
            } else {
                assert(block_end(t[a + 1]) <= t[b + 1].start);
            }
        }
        lemma_merge_ordered(u, i);
    } else {
        lemma_merge_ordered(t, i + 1);
    }
}

proof fn lemma_insert_pos_split(s: Seq<MemBlock>, ptr: int, i: int)
    requires
        0 <= i <= s.len(),
        forall|k: int| 0 <= k < i ==> #[trigger] s[k].start <= ptr,
    ensures
        i <= insert_pos(s, ptr, i) <= s.len(),
        forall|k: int| 0 <= k < insert_pos(s, ptr, i) ==> #[trigger] s[k].start <= ptr,
        insert_pos(s, ptr, i) < s.len() ==> s[insert_pos(s, ptr, i)].start > ptr,
    decreases s.len() - i,
{
    if i < s.len() && s[i].start <= ptr {
        lemma_insert_pos_split(s, ptr, i + 1);
    }
}

/// Allocation keeps the free list in ascending address order, blocks apart.
pub proof fn lemma_allocate_keeps_order(s: Seq<MemBlock>, size: int, align: int)
    requires
        in_arena(s),
        ordered(s),
        0 <= size,
    ensures
        ordered(alloc_spec(s, size, align).0),
{
    let i = first_fit(s, size, align, 0);
    crate::accounting::lemma_alloc_total(s, size, align);
    crate::accounting::lemma_first_fit_bound(s, size, align, 0);
    if supported_align(align) && i < s.len() {
        let e = choose|e: nat| e <= 12 && align == vstd::arithmetic::power2::pow2(e) as int;
        vstd::arithmetic::power2::lemma_pow2_pos(e);
        let b = s[i];
        let a = align_up_spec(b.start as int, align);
        assert(a >= b.start) by (nonlinear_arith)
            requires
                a == align_up_spec(b.start as int, align),
                align > 0,
                b.start >= 0,
        {
        }
        let t = alloc_spec(s, size, align).0;
        assert(t[i].start >= b.start && block_end(t[i]) == block_end(b));
        assert forall|x: int, y: int| 0 <= x < y < t.len() implies block_end(#[trigger] t[x]) <= #[trigger] t[y].start by {
            assert(block_end(s[x]) <= s[y].start);
            if y == i {
                assert(t[y].start >= s[y].start);
            } else if x == i {
                assert(block_end(t[x]) == block_end(s[x]));
            }
        }
    }
}

/// Giving back a nonempty region that overlaps no free block keeps the free list in
/// ascending address order, blocks apart.
pub proof fn lemma_deallocate_keeps_order(s: Seq<MemBlock>, ptr: int, size: int)
    requires
        in_arena(s),
        ordered(s),
        0 <= ptr,
        ptr + size <= ARENA_SIZE,
        outside_free(s, ptr, size),
    ensures
        ordered(dealloc_spec(s, ptr, size)),
{
    let j = insert_pos(s, ptr, 0);
    lemma_insert_pos_split(s, ptr, 0);
    let b = MemBlock { start: ptr as usize, size: size as usize };
    let t = s.insert(j, b);
    lemma_inserted_in_arena(s, j, b);
    assert forall|x: int, y: int| 0 <= x < y < t.len() implies block_end(#[trigger] t[x]) <= #[trigger] t[y].start by {
        if y < j {
            assert(block_end(s[x]) <= s[y].start);
        } else if y == j {
            assert(s[x].start <= ptr);
            assert(block_end(s[x]) <= ptr || ptr + size <= s[x].start);
        } else if x < j {
            assert(block_end(s[x]) <= s[y - 1].start);
        } else if x == j {
            assert(s[y - 1].start >= s[j].start);
            assert(s[j].start > ptr);
            assert(block_end(s[y - 1]) <= ptr || ptr + size <= s[y - 1].start);
        } else {
            assert(block_end(s[x - 1]) <= s[y - 1].start);
        }
    }
    lemma_merge_ordered(t, 0);
}

} // verus!
