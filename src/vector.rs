use vstd::prelude::*;
use vstd::layout::{size_of, align_of};
use crate::allocator::{
    Allocator, Failure, MemBlock, ARENA_SIZE, alloc_spec, dealloc_spec,
};

verus! {

/// Capacity after a growth step of `push`.
pub open spec fn grown_cap(cap: int) -> int {
    if cap == 0 {
        4
    } else {
        cap * 3
    }
}

/// Bytes that `n` slots of `T` take in the arena.
pub open spec fn slot_bytes<T>(n: int) -> int {
    n * size_of::<T>()
}

/// Moving a buffer of `cap` slots at `buf` to a new one of `new_cap` slots: allocation
/// of the new region, then release of the old one (if there was one).
pub open spec fn regrow_spec<T>(s: Seq<MemBlock>, cap: int, buf: int, new_cap: int) -> (
    Seq<MemBlock>,
    Result<usize, Failure>,
) {
    if slot_bytes::<T>(new_cap) > usize::MAX {
        (s, Err(Failure::OutOfMemory))
    } else {
        let (s1, r) = alloc_spec(s, slot_bytes::<T>(new_cap), align_of::<T>() as int);
        match r {
            Err(e) => (s, Err(e)),
            Ok(p) => (
                if cap > 0 {
                    dealloc_spec(s1, buf, slot_bytes::<T>(cap))
                } else {
                    s1
                },
                Ok(p),
            ),
        }
    }
}

/// A growable array whose room is reserved from an `Allocator`: `cap` slots of `T` at
/// offset `buf` of the arena. The live elements are held in `items`; every growth takes
/// a new region and gives the old one back, so the allocator sees each reallocation.
pub struct Vector<T> {
    items: Vec<T>,
    cap: usize,
    buf: usize,
}

impl<T: Copy> View for Vector<T> {
    type V = Seq<T>;

    closed spec fn view(&self) -> Seq<T> {
        self.items@
    }
}

impl<T: Copy> Vector<T> {
    /// Number of slots reserved.
    pub closed spec fn cap(&self) -> nat {
        self.cap as nat
    }

    /// Arena offset of the reserved slots (meaningful when `cap() > 0`).
    pub closed spec fn buf(&self) -> usize {
        self.buf
    }

    pub closed spec fn wf(&self) -> bool {
        &&& self.items@.len() <= self.cap
        &&& self.cap > 0 ==> self.buf + slot_bytes::<T>(self.cap as int) <= ARENA_SIZE
    }

    /// An empty array that has reserved nothing yet.
    pub fn new() -> (r: Vector<T>)
        ensures
            r.wf(),
            r@ == Seq::<T>::empty(),
            r.cap() == 0,
    {
        Vector { items: Vec::new(), cap: 0, buf: 0 }
    }

    pub fn len(&self) -> (r: usize)
        ensures
            r == self@.len(),
    {
        self.items.len()
    }

    pub fn capacity(&self) -> (r: usize)
        ensures
            r == self.cap(),
    {
        self.cap
    }

    /// Moves the storage to a fresh region of `new_cap` slots and releases the old one.
    /// On failure nothing changes.
    pub fn set_cap(&mut self, alloc: &mut Allocator, new_cap: usize) -> (r: Result<(), Failure>)
        requires
            old(self).wf(),
            old(alloc).wf(),
            old(self)@.len() <= new_cap,
        ensures
            final(self).wf(),
            final(alloc).wf(),
            final(self)@ == old(self)@,
            ({
                let (s, o) = regrow_spec::<T>(old(alloc)@, old(self).cap() as int, old(self).buf() as int, new_cap as int);
                &&& final(alloc)@ == s
                &&& r is Ok <==> o is Ok
                &&& r is Err ==> r->Err_0 == o->Err_0 && final(self).cap() == old(self).cap()
                    && final(self).buf() == old(self).buf()
                &&& r is Ok ==> final(self).cap() == new_cap && final(self).buf() == o->Ok_0
            }),
    {
        let sz = core::mem::size_of::<T>();
        let bytes = match new_cap.checked_mul(sz) {
            Some(b) => b,
            None => {
                return Err(Failure::OutOfMemory);
            },
        };
        let p = match alloc.allocate(bytes, core::mem::align_of::<T>()) {
            Ok(p) => p,
            Err(e) => {
                return Err(e);
            },
        };
        if self.cap > 0 {
            proof {
                assert(slot_bytes::<T>(self.cap as int) == self.cap * sz) by (nonlinear_arith)
                    requires sz == size_of::<T>();
            }
            alloc.deallocate(self.buf, self.cap * sz);
        }
        self.cap = new_cap;
        self.buf = p;
        Ok(())
    }

    /// Appends `item`, growing the storage first when it is full: to 4 slots from none,
    /// else to three times as many. A failed growth changes nothing.
    pub fn push(&mut self, alloc: &mut Allocator, item: T) -> (r: Result<(), Failure>)
        requires
            old(self).wf(),
            old(alloc).wf(),
        ensures
            final(self).wf(),
            final(alloc).wf(),
            old(self)@.len() < old(self).cap() ==> {
                &&& r is Ok
                &&& final(self)@ == old(self)@.push(item)
                &&& final(self).cap() == old(self).cap()
                &&& final(alloc)@ == old(alloc)@
            },
            old(self)@.len() >= old(self).cap() && grown_cap(old(self).cap() as int) > usize::MAX ==> {
                &&& r == Err::<(), Failure>(Failure::OutOfMemory)
                &&& final(self)@ == old(self)@
                &&& final(self).cap() == old(self).cap()
                &&& final(alloc)@ == old(alloc)@
            },
            old(self)@.len() >= old(self).cap() && grown_cap(old(self).cap() as int) <= usize::MAX ==> {
                let (s, o) = regrow_spec::<T>(
                    old(alloc)@,
                    old(self).cap() as int,
                    old(self).buf() as int,
                    grown_cap(old(self).cap() as int),
                );
                &&& final(alloc)@ == s
                &&& r is Ok <==> o is Ok
                &&& r is Err ==> r->Err_0 == o->Err_0 && final(self)@ == old(self)@
                    && final(self).cap() == old(self).cap()
                &&& r is Ok ==> final(self)@ == old(self)@.push(item) && final(self).cap()
                    == grown_cap(old(self).cap() as int) && final(self).buf() == o->Ok_0
            },
    {
        if self.items.len() >= self.cap {
            let new_cap = if self.cap == 0 {
                Some(4usize)
            } else {
                self.cap.checked_mul(3)
            };
            match new_cap {
                None => {
                    return Err(Failure::OutOfMemory);
                },
                Some(c) => {
                    let grown = self.set_cap(alloc, c);
                    if grown.is_err() {
                        return grown;
                    }
                },
            }
        }
        self.items.push(item);
        Ok(())
    }

    /// Takes off the last element, if there is one.
    pub fn pop(&mut self) -> (r: Option<T>)
        requires
            old(self).wf(),
        ensures
            final(self).wf(),
            final(self).cap() == old(self).cap(),
            final(self).buf() == old(self).buf(),
            old(self)@.len() == 0 ==> r is None && final(self)@ == old(self)@,
            old(self)@.len() > 0 ==> r == Some(old(self)@.last()) && final(self)@
                == old(self)@.drop_last(),
    {
        self.items.pop()
    }

    /// The element at `pos`, or `IndexOutOfBounds` past the end.
    pub fn get(&self, pos: usize) -> (r: Result<T, Failure>)
        ensures
            pos < self@.len() ==> r == Ok::<T, Failure>(self@[pos as int]),
            pos >= self@.len() ==> r == Err::<T, Failure>(Failure::IndexOutOfBounds),
    {
        if pos >= self.items.len() {
            return Err(Failure::IndexOutOfBounds);
        }
        Ok(self.items[pos])
    }

    /// Writes `item` at `pos`. When `pos` lies beyond the storage, the storage first grows
    /// to exactly `pos + 1` slots and the length becomes `pos + 1`; the slots that this
    /// exposes hold `item` too. A write between the length and the capacity is not seen.
    pub fn set(&mut self, alloc: &mut Allocator, item: T, pos: usize) -> (r: Result<(), Failure>)
        requires
            old(self).wf(),
            old(alloc).wf(),
        ensures
            final(self).wf(),
            final(alloc).wf(),
            pos < old(self).cap() ==> {
                &&& r is Ok
                &&& final(alloc)@ == old(alloc)@
                &&& final(self).cap() == old(self).cap()
                &&& final(self)@ == if pos < old(self)@.len() {
                    old(self)@.update(pos as int, item)
                } else {
                    old(self)@
                }
            },
            pos >= old(self).cap() && pos == usize::MAX ==> {
                &&& r == Err::<(), Failure>(Failure::OutOfMemory)
                &&& final(self)@ == old(self)@
                &&& final(self).cap() == old(self).cap()
                &&& final(alloc)@ == old(alloc)@
            },
            pos >= old(self).cap() && pos < usize::MAX ==> {
                let (s, o) = regrow_spec::<T>(
                    old(alloc)@,
                    old(self).cap() as int,
                    old(self).buf() as int,
                    pos + 1,
                );
                &&& final(alloc)@ == s
                &&& r is Ok <==> o is Ok
                &&& r is Err ==> r->Err_0 == o->Err_0 && final(self)@ == old(self)@
                    && final(self).cap() == old(self).cap()
                &&& r is Ok ==> final(self).cap() == pos + 1 && final(self).buf() == o->Ok_0
                    && final(self)@ == old(self)@ + Seq::new(
                    (pos + 1 - old(self)@.len()) as nat,
                    |j: int| item,
                )
            },
    {
        if pos >= self.cap {
            if pos == usize::MAX {
                return Err(Failure::OutOfMemory);
            }
            let grown = self.set_cap(alloc, pos + 1);
            if grown.is_err() {
                return grown;
            }
            let ghost before = self@;
            let ghost buf = self.buf;
            let ghost list = alloc@;
            while self.items.len() <= pos
                invariant
                    before.len() <= self@.len() <= pos + 1,
                    self.buf == buf,
                    alloc@ == list,
                    alloc.wf(),
                    buf + slot_bytes::<T>(pos + 1) <= ARENA_SIZE,
                    self@ == before + Seq::new((self@.len() - before.len()) as nat, |j: int| item),
                    self.cap == pos + 1,
                decreases pos + 1 - self@.len(),
            {
                self.items.push(item);
                proof {
                    assert(self@ =~= before + Seq::new((self@.len() - before.len()) as nat, |j: int| item));
                }
            }
            return Ok(());
        }
        if pos < self.items.len() {
            self.items.set(pos, item);
        }
        Ok(())
    }

    /// Gives the storage back to the allocator.
    pub fn release(self, alloc: &mut Allocator)
        requires
            self.wf(),
            old(alloc).wf(),
        ensures
            final(alloc).wf(),
            final(alloc)@ == if self.cap() > 0 {
                dealloc_spec(old(alloc)@, self.buf() as int, slot_bytes::<T>(self.cap() as int))
            } else {
                old(alloc)@
            },
    {
        if self.cap > 0 {
            let sz = core::mem::size_of::<T>();
            proof {
                assert(slot_bytes::<T>(self.cap as int) == self.cap * sz) by (nonlinear_arith)
                    requires sz == size_of::<T>();
            }
            alloc.deallocate(self.buf, self.cap * sz);
        }
    }
}

} // verus!
