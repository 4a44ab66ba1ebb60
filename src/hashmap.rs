use vstd::prelude::*;
use vstd::string::StrSliceExecFns;
use core::marker::PhantomData;

verus! {

/// Modulus of the polynomial string hash.
pub const HASH_MOD: u64 = 1000000009;

/// Base of the polynomial string hash.
pub const HASH_BASE: u64 = 31;

/// Weight of one character: its low byte, counted from `a` as 1.
pub open spec fn char_weight(c: char) -> int {
    (c as u8) as int - 96
}

/// A key the hash can take: each character's low byte is `a` or above.
pub open spec fn hashable(s: Seq<char>) -> bool {
    forall|i: int| 0 <= i < s.len() ==> (#[trigger] s[i] as u8) >= 97
}

/// The hash of `s` and the power of the base that its next character would take.
pub open spec fn hash_state(s: Seq<char>) -> (int, int)
    decreases s.len(),
{
    if s.len() == 0 {
        (0, 1)
    } else {
        let (h, p) = hash_state(s.drop_last());
        ((h + char_weight(s.last()) * p) % HASH_MOD as int, (p * HASH_BASE) % HASH_MOD as int)
    }
}

/// Sum of each character's weight times the base to its position, modulo `HASH_MOD`.
pub open spec fn hash_spec(s: Seq<char>) -> int {
    hash_state(s).0
}

/// Polynomial hash of `value`, used as a slot index.
pub fn hash(value: &str) -> (r: usize)
    requires
        hashable(value@),
    ensures
        r == hash_spec(value@),
{
    let n = value.unicode_len();
    let mut h: u64 = 0;
    let mut p: u64 = 1;
    let mut i: usize = 0;
    while i < n
        invariant
            n == value@.len(),
            i <= n,
            hashable(value@),
            (h as int, p as int) == hash_state(value@.subrange(0, i as int)),
            h < HASH_MOD,
            p < HASH_MOD,
        decreases n - i,
    {
        let c = value.get_char(i);
        proof {
            assert(value@.subrange(0, i + 1).drop_last() =~= value@.subrange(0, i as int));
            assert((value@[i as int] as u8) >= 97);
        }
        let w = (c as u8 - 96) as u64;
        assert(w * p <= 256 * 1000000009) by (nonlinear_arith)
            requires w <= 256, p < 1000000009;
        h = (h + w * p) % HASH_MOD;
        assert(p * 31 <= 31 * 1000000009) by (nonlinear_arith)
            requires p < 1000000009;
        p = (p * HASH_BASE) % HASH_MOD;
        i += 1;
    }
    proof {
        assert(value@.subrange(0, n as int) =~= value@);
    }
    h as usize
}

/// A table of values indexed by the hash of a string key. Keys whose hashes agree share
/// a slot: the later insertion wins.
pub struct HashMap<K, V> {
    slots: Vec<Option<V>>,
    marker: PhantomData<K>,
}

impl<K, V: Copy> View for HashMap<K, V> {
    type V = Map<int, V>;

    /// Each filled slot's index and value.
    closed spec fn view(&self) -> Map<int, V> {
        Map::new(
            |i: int| 0 <= i < self.slots@.len() && self.slots@[i] is Some,
            |i: int| self.slots@[i]->Some_0,
        )
    }
}

impl<K, V: Copy> HashMap<K, V> {
    pub fn new() -> (r: HashMap<K, V>)
        ensures
            r@ == Map::<int, V>::empty(),
    {
        let r = HashMap { slots: Vec::new(), marker: PhantomData };
        proof {
            assert(r@ =~= Map::<int, V>::empty());
        }
        r
    }

    /// Stores `value` in the slot of `key`.
    pub fn insert(&mut self, key: &str, value: V)
        requires
            hashable(key@),
        ensures
            final(self)@ == old(self)@.insert(hash_spec(key@), value),
    {
        let pos = hash(key);
        let ghost before = self.slots@;
        while self.slots.len() <= pos
            invariant
                before.len() <= self.slots@.len(),
                self.slots@.len() <= pos + 1 || self.slots@ == before,
                forall|i: int| 0 <= i < before.len() ==> self.slots@[i] == before[i],
                forall|i: int| before.len() <= i < self.slots@.len() ==> self.slots@[i] is None,
            decreases pos + 1 - self.slots@.len(),
        {
            self.slots.push(None);
        }
        self.slots.set(pos, Some(value));
        proof {
            assert(self@ =~= old(self)@.insert(hash_spec(key@), value));
        }
    }

    /// The value in the slot of `key`.
    pub fn get(&self, key: &str) -> (r: V)
        requires
            hashable(key@),
            self@.contains_key(hash_spec(key@)),
        ensures
            r == self@[hash_spec(key@)],
    {
        let pos = hash(key);
        match self.slots[pos] {
            Some(v) => v,
            None => vstd::pervasive::unreached(),
        }
    }
}

} // verus!
