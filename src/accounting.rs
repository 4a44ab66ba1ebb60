use vstd::prelude::*;
use crate::allocator::{
    MemBlock, ARENA_SIZE, alloc_spec, dealloc_spec, merge_from, insert_pos, first_fit,
    fits, padding, remainder, block_end, in_arena, align_up_spec, supported_align,
};
use vstd::arithmetic::power2::{pow2, lemma_pow2_pos};

verus! {

broadcast use vstd::seq_lib::group_to_multiset_ensures;

/// One call made on an allocator.
pub enum Call {
    Allocate { size: usize, align: usize },
    Deallocate { ptr: usize, size: usize },
}

/// Sum of the sizes of the blocks of `s`.
pub open spec fn free_total(s: Seq<MemBlock>) -> int
    decreases s.len(),
{
    if s.len() == 0 {
        0
    } else {
        free_total(s.drop_last()) + s.last().size
    }
}

/// The free list after one call.
pub open spec fn step(s: Seq<MemBlock>, c: Call) -> Seq<MemBlock> {
    match c {
        Call::Allocate { size, align } => alloc_spec(s, size as int, align as int).0,
        Call::Deallocate { ptr, size } => dealloc_spec(s, ptr as int, size as int),
    }
}

/// The free list after the calls in order.
pub open spec fn run(s: Seq<MemBlock>, calls: Seq<Call>) -> Seq<MemBlock>
    decreases calls.len(),
{
    if calls.len() == 0 {
        s
    } else {
        step(run(s, calls.drop_last()), calls.last())
    }
}

/// The region (offset and size) handed out by each allocation that succeeded, in order.
pub open spec fn granted(s: Seq<MemBlock>, calls: Seq<Call>) -> Seq<MemBlock>
    decreases calls.len(),
{
    if calls.len() == 0 {
        Seq::empty()
    } else {
        let before = granted(s, calls.drop_last());
        match calls.last() {
            Call::Allocate { size, align } => match alloc_spec(
                run(s, calls.drop_last()),
                size as int,
                align as int,
            ).1 {
                Ok(p) => before.push(MemBlock { start: p, size }),
                Err(_) => before,
            },
            Call::Deallocate { .. } => before,
        }
    }
}

/// The region (offset and size) given back by each deallocation, in order.
pub open spec fn returned(calls: Seq<Call>) -> Seq<MemBlock>
    decreases calls.len(),
{
    if calls.len() == 0 {
        Seq::empty()
    } else {
        let before = returned(calls.drop_last());
        match calls.last() {
            Call::Allocate { .. } => before,
            Call::Deallocate { ptr, size } => before.push(MemBlock { start: ptr, size }),
        }
    }
}

/// Alignment padding skipped in front of each allocation that succeeded, summed.
pub open spec fn skipped(s: Seq<MemBlock>, calls: Seq<Call>) -> int
    decreases calls.len(),
{
    if calls.len() == 0 {
        0
    } else {
        let st = run(s, calls.drop_last());
        let before = skipped(s, calls.drop_last());
        match calls.last() {
            Call::Allocate { size, align } => match alloc_spec(st, size as int, align as int).1 {
                Ok(_) => before + padding(st[first_fit(st, size as int, align as int, 0)], align as int),
                Err(_) => before,
            },
            Call::Deallocate { .. } => before,
        }
    }
}

/// Each deallocation names a region inside the arena.
pub open spec fn returns_in_arena(calls: Seq<Call>) -> bool {
    forall|i: int|
        0 <= i < calls.len() ==> match #[trigger] calls[i] {
            Call::Deallocate { ptr, size } => ptr + size <= ARENA_SIZE,
            Call::Allocate { .. } => true,
        }
}

proof fn lemma_total_push(s: Seq<MemBlock>, b: MemBlock)
    ensures
        free_total(s.push(b)) == free_total(s) + b.size,
{
    assert(s.push(b).drop_last() =~= s);
}

proof fn lemma_total_update(s: Seq<MemBlock>, i: int, b: MemBlock)
    requires
        0 <= i < s.len(),
    ensures
        free_total(s.update(i, b)) == free_total(s) - s[i].size + b.size,
    decreases s.len(),
{
    if i == s.len() - 1 {
        assert(s.update(i, b).drop_last() =~= s.drop_last());
    } else {
        assert(s.update(i, b).drop_last() =~= s.drop_last().update(i, b));
        lemma_total_update(s.drop_last(), i, b);
    }
}

proof fn lemma_total_insert(s: Seq<MemBlock>, i: int, b: MemBlock)
    requires
        0 <= i <= s.len(),
    ensures
        free_total(s.insert(i, b)) == free_total(s) + b.size,
    decreases s.len(),
{
    if i == s.len() {
        assert(s.insert(i, b).drop_last() =~= s);
    } else {
        assert(s.insert(i, b).drop_last() =~= s.drop_last().insert(i, b));
        lemma_total_insert(s.drop_last(), i, b);
    }
}

proof fn lemma_total_remove(s: Seq<MemBlock>, i: int)
    requires
        0 <= i < s.len(),
    ensures
        free_total(s.remove(i)) == free_total(s) - s[i].size,
    decreases s.len(),
{
    if i == s.len() - 1 {
        assert(s.remove(i) =~= s.drop_last());
    } else {
        assert(s.remove(i).drop_last() =~= s.drop_last().remove(i));
        lemma_total_remove(s.drop_last(), i);
    }
}

/// Coalescing keeps every block in the arena and the sum of the sizes.
proof fn lemma_merge_total(s: Seq<MemBlock>, i: int)
    requires
        in_arena(s),
    ensures
        in_arena(merge_from(s, i)),
        free_total(merge_from(s, i)) == free_total(s),
    decreases s.len() - i,
{
    if i < 0 || i + 1 >= s.len() {
    } else if block_end(s[i]) == s[i + 1].start {
        assert(block_end(s[i + 1]) <= ARENA_SIZE);
        let m = MemBlock { start: s[i].start, size: (s[i].size + s[i + 1].size) as usize };
        let u = s.update(i, m);
        let t = u.remove(i + 1);
        lemma_total_update(s, i, m);
        lemma_total_remove(u, i + 1);
        assert forall|j: int| 0 <= j < t.len() implies #[trigger] block_end(t[j]) <= ARENA_SIZE by {
            if j < i {
                assert(block_end(s[j]) <= ARENA_SIZE);
            } else if j > i {
                assert(block_end(s[j + 1]) <= ARENA_SIZE);
            }
        }
        lemma_merge_total(t, i);
    } else {
        lemma_merge_total(s, i + 1);
    }
}

proof fn lemma_insert_pos_bound(s: Seq<MemBlock>, ptr: int, i: int)
    requires
        0 <= i <= s.len(),
    ensures
        i <= insert_pos(s, ptr, i) <= s.len(),
    decreases s.len() - i,
{
    if i < s.len() && s[i].start <= ptr {
        lemma_insert_pos_bound(s, ptr, i + 1);
    }
}

pub(crate) proof fn lemma_first_fit_bound(s: Seq<MemBlock>, size: int, align: int, i: int)
    requires
        0 <= i <= s.len(),
    ensures
        i <= first_fit(s, size, align, i) <= s.len(),
        first_fit(s, size, align, i) < s.len() ==> fits(s[first_fit(s, size, align, i)], size, align),
    decreases s.len() - i,
{
    if i < s.len() && !fits(s[i], size, align) {
        lemma_first_fit_bound(s, size, align, i + 1);
    }
}

/// Freeing `size` bytes adds `size` to the free total.
pub proof fn lemma_dealloc_total(s: Seq<MemBlock>, ptr: int, size: int)
    requires
        in_arena(s),
        0 <= ptr,
        0 <= size,
        ptr + size <= ARENA_SIZE,
    ensures
        in_arena(dealloc_spec(s, ptr, size)),
        free_total(dealloc_spec(s, ptr, size)) == free_total(s) + size,
{
    let j = insert_pos(s, ptr, 0);
    lemma_insert_pos_bound(s, ptr, 0);
    let b = MemBlock { start: ptr as usize, size: size as usize };
    let t = s.insert(j, b);
    lemma_total_insert(s, j, b);
    assert forall|k: int| 0 <= k < t.len() implies #[trigger] block_end(t[k]) <= ARENA_SIZE by {
        if k < j {
            assert(block_end(s[k]) <= ARENA_SIZE);
        } else if k > j {
            assert(block_end(s[k - 1]) <= ARENA_SIZE);
        }
    }
    lemma_merge_total(t, 0);
}

/// A granted allocation of `size` bytes takes `size` plus its padding from the free total.
pub proof fn lemma_alloc_total(s: Seq<MemBlock>, size: int, align: int)
    requires
        in_arena(s),
        0 <= size,
    ensures
        in_arena(alloc_spec(s, size, align).0),
        alloc_spec(s, size, align).1 is Ok ==> free_total(alloc_spec(s, size, align).0) == free_total(s)
            - size - padding(s[first_fit(s, size, align, 0)], align),
        alloc_spec(s, size, align).1 is Ok ==> alloc_spec(s, size, align).1->Ok_0 + size <= ARENA_SIZE,
        alloc_spec(s, size, align).1 is Err ==> alloc_spec(s, size, align).0 == s,
{
    lemma_first_fit_bound(s, size, align, 0);
    let i = first_fit(s, size, align, 0);
    if supported_align(align) && i < s.len() {
        let e = choose|e: nat| e <= 12 && align == pow2(e) as int;
        lemma_pow2_pos(e);
        let b = s[i];
        assert(block_end(b) <= ARENA_SIZE);
        let a = align_up_spec(b.start as int, align);
        assert(a >= b.start) by (nonlinear_arith)
            requires
                a == align_up_spec(b.start as int, align),
                align > 0,
                b.start >= 0,
        {
        }
        let r = remainder(b, size, align);
        lemma_total_update(s, i, r);
        let t = s.update(i, r);
        assert forall|k: int| 0 <= k < t.len() implies #[trigger] block_end(t[k]) <= ARENA_SIZE by {
            if k != i {
                assert(block_end(s[k]) <= ARENA_SIZE);
            }
        }
    }
}

/// The sums of the sizes of two lists that hold the same regions are equal.
proof fn lemma_total_same_regions(a: Seq<MemBlock>, b: Seq<MemBlock>)
    requires
        a.to_multiset() == b.to_multiset(),
    ensures
        free_total(a) == free_total(b),
    decreases a.len(),
{
    if a.len() == 0 {
        assert(b.to_multiset().len() == 0);
    } else {
        let x = a.last();
        let rest = a.drop_last();
        assert(a =~= rest.push(x));
        assert(a.to_multiset() =~= rest.to_multiset().insert(x));
        assert(b.to_multiset().count(x) > 0);
        assert(b.contains(x));
        let k = choose|k: int| 0 <= k < b.len() && b[k] == x;
        assert(b.remove(k).to_multiset() =~= b.to_multiset().remove(x));
        assert(rest.to_multiset() =~= a.to_multiset().remove(x));
        lemma_total_same_regions(rest, b.remove(k));
        lemma_total_remove(b, k);
    }
}

/// The free total after the calls: what it was, less each granted region and its
/// padding, plus each returned region.
pub proof fn lemma_run_total(s: Seq<MemBlock>, calls: Seq<Call>)
    requires
        in_arena(s),
        returns_in_arena(calls),
    ensures
        in_arena(run(s, calls)),
        free_total(run(s, calls)) == free_total(s) - free_total(granted(s, calls)) - skipped(s, calls)
            + free_total(returned(calls)),
    decreases calls.len(),
{
    if calls.len() > 0 {
        let rest = calls.drop_last();
        assert forall|i: int| 0 <= i < rest.len() implies match #[trigger] rest[i] {
            Call::Deallocate { ptr, size } => ptr + size <= ARENA_SIZE,
            Call::Allocate { .. } => true,
        } by {
            assert(rest[i] == calls[i]);
        }
        lemma_run_total(s, rest);
        let st = run(s, rest);
        assert(match calls[calls.len() - 1] {
            Call::Deallocate { ptr, size } => ptr + size <= ARENA_SIZE,
            Call::Allocate { .. } => true,
        });
        match calls.last() {
            Call::Allocate { size, align } => {
                lemma_alloc_total(st, size as int, align as int);
                if let Ok(p) = alloc_spec(st, size as int, align as int).1 {
                    lemma_total_push(granted(s, rest), MemBlock { start: p, size });
                }
            },
            Call::Deallocate { ptr, size } => {
                lemma_dealloc_total(st, ptr as int, size as int);
                lemma_total_push(returned(rest), MemBlock { start: ptr, size });
            },
        }
    }
}

/// Every free byte comes back: after `init`, any sequence of calls in which the regions
/// given back are exactly the regions handed out (same offsets, same sizes, each once)
/// leaves free blocks whose sizes add up to the whole arena, provided that no
/// allocation along the way had to skip bytes to reach its alignment.
pub proof fn lemma_paired_calls_free_whole_arena(calls: Seq<Call>)
    requires
        returns_in_arena(calls),
        granted(seq![MemBlock { start: 0, size: ARENA_SIZE }], calls).to_multiset()
            == returned(calls).to_multiset(),
        skipped(seq![MemBlock { start: 0, size: ARENA_SIZE }], calls) == 0,
    ensures
        free_total(run(seq![MemBlock { start: 0, size: ARENA_SIZE }], calls)) == ARENA_SIZE,
{
    let s = seq![MemBlock { start: 0, size: ARENA_SIZE }];
    assert(block_end(s[0]) <= ARENA_SIZE);
    assert(s.drop_last() =~= Seq::<MemBlock>::empty());
    assert(free_total(Seq::<MemBlock>::empty()) == 0);
    assert(s.last() == MemBlock { start: 0, size: ARENA_SIZE });
    assert(free_total(s) == free_total(s.drop_last()) + s.last().size);
    assert(free_total(s) == ARENA_SIZE);
    lemma_run_total(s, calls);
    lemma_total_same_regions(granted(s, calls), returned(calls));
}

} // verus!
