//! A ring buffer whose items are found again by the index they were given.

use vstd::arithmetic::div_mod::lemma_fundamental_div_mod;
use vstd::prelude::*;

verus! {

pub struct RingBuf<T> {
    data: Vec<Option<(usize, T)>>,
    capacity: usize,
    min_idx: usize,
    next_idx: usize,
}

#[derive(Debug, PartialEq)]
pub enum Error<T> {
    Overflow(T),
}

/// The slot of an index in a buffer of the given capacity.
pub open spec fn slot(idx: usize, capacity: usize) -> int {
    idx as int % capacity as int
}

/// Indices less than a capacity apart never share a slot.
pub proof fn law_slots_differ(i: usize, j: usize, capacity: usize)
    requires
        capacity > 0,
        i < j,
        j - i < capacity,
    ensures
        0 <= slot(i, capacity) < capacity,
        slot(i, capacity) != slot(j, capacity),
{
    lemma_mod_range(i as int, capacity as int);
    if slot(i, capacity) == slot(j, capacity) {
        lemma_same_slot(i as int, j as int, capacity as int);
    }
}

impl<T> View for RingBuf<T> {
    type V = Map<usize, T>;

    /// The items that are in the buffer, by their indices.
    closed spec fn view(&self) -> Map<usize, T> {
        Map::new(
            |i: usize| self.holds(i),
            |i: usize| (self.data@[i as int % self.capacity as int]->0).1,
        )
    }
}

impl<T> RingBuf<T> {
    spec fn holds(&self, i: usize) -> bool {
        &&& self.min_idx <= i < self.next_idx
        &&& self.data@[i as int % self.capacity as int] is Some
        &&& (self.data@[i as int % self.capacity as int]->0).0 == i
    }

    /// How far apart the oldest item and a new one may be.
    pub closed spec fn spec_capacity(&self) -> usize {
        self.capacity
    }

    /// The index that the next item gets.
    pub closed spec fn next_index(&self) -> usize {
        self.next_idx
    }

    /// The index of the oldest item, or the next index where there is none.
    pub closed spec fn oldest(&self) -> usize {
        self.min_idx
    }

    pub closed spec fn wf(&self) -> bool {
        &&& self.data@.len() == self.capacity
        &&& self.min_idx <= self.next_idx
        &&& self.next_idx - self.min_idx <= self.capacity
        &&& self.slots_in_window()
        &&& self.min_idx < self.next_idx
            ==> self.data@[self.min_idx as int % self.capacity as int] is Some
    }

    spec fn slots_in_window(&self) -> bool {
        forall|s: int|
            #![trigger self.data@[s]]
            0 <= s < self.data@.len() && self.data@[s] is Some ==> {
                &&& self.min_idx <= (self.data@[s]->0).0 < self.next_idx
                &&& (self.data@[s]->0).0 as int % self.capacity as int == s
            }
    }

    /// Every item lies between the oldest index and the next one, and the oldest
    /// index is an item's unless the buffer is empty.
    pub proof fn law_window(&self)
        requires
            self.wf(),
        ensures
            self.oldest() <= self.next_index() <= self.oldest() + self.spec_capacity(),
            forall|i: usize|
                #[trigger] self@.contains_key(i) ==> self.oldest() <= i < self.next_index(),
            self.oldest() < self.next_index() ==> self@.contains_key(self.oldest()),
    {
        if self.min_idx < self.next_idx {
            let cap = self.capacity as int;
            let s = self.min_idx as int % cap;
            lemma_mod_range(self.min_idx as int, cap);
            let i = (self.data@[s]->0).0;
            lemma_same_slot(self.min_idx as int, i as int, cap);
        }
    }

    pub fn with_capacity(capacity: usize) -> (r: Self)
        ensures
            r.wf(),
            r@ == Map::<usize, T>::empty(),
            r.spec_capacity() == capacity,
            r.next_index() == 0,
            r.oldest() == 0,
    {
        let mut data: Vec<Option<(usize, T)>> = Vec::with_capacity(capacity);
        for k in 0..capacity
            invariant
                data@.len() == k,
                forall|s: int| 0 <= s < k ==> (#[trigger] data@[s]) is None,
        {
            data.push(None);
        }
        let r = Self { data, capacity, min_idx: 0, next_idx: 0 };
        assert(r@ =~= Map::<usize, T>::empty());
        r
    }

    /// Puts `value` in under the next index, unless the oldest item is a whole
    /// capacity behind.
    pub fn add(&mut self, value: T) -> (r: Result<usize, Error<T>>)
        requires
            old(self).wf(),
            old(self).next_index() < usize::MAX,
        ensures
            final(self).wf(),
            final(self).spec_capacity() == old(self).spec_capacity(),
            final(self).oldest() == old(self).oldest(),
            match r {
                Ok(idx) => {
                    &&& old(self).next_index() - old(self).oldest() < old(self).spec_capacity()
                    &&& idx == old(self).next_index()
                    &&& final(self).next_index() == idx + 1
                    &&& final(self)@ == old(self)@.insert(idx, value)
                },
                Err(Error::Overflow(back)) => {
                    &&& old(self).next_index() - old(self).oldest() >= old(self).spec_capacity()
                    &&& back == value
                    &&& *final(self) == *old(self)
                },
            },
    {
        let idx = self.next_idx;
        if idx - self.min_idx >= self.capacity {
            return Err(Error::Overflow(value));
        }
        let i = self.data_idx(idx);
        let ghost cap = self.capacity as int;
        proof {
            if self.data@[i as int] is Some {
                let other = (self.data@[i as int]->0).0;
                lemma_same_slot(other as int, idx as int, cap);
            }
        }
        self.data.set(i, Some((idx, value)));
        self.next_idx = self.next_idx + 1;
        proof {
            assert forall|j: usize| old(self).holds(j) implies #[trigger] self.holds(j) by {
                lemma_mod_range(j as int, cap);
                if j as int % cap == i {
                    lemma_same_slot(j as int, idx as int, cap);
                }
            }
            assert forall|j: usize| #[trigger] self.holds(j) && j != idx implies old(self).holds(
                j,
            ) by {
                lemma_mod_range(j as int, cap);
                if j as int % cap == i {
                    assert((self.data@[i as int]->0).0 == idx);
                }
            }
            assert(self.holds(idx));
            assert(self@.dom() =~= old(self)@.insert(idx, value).dom());
            assert forall|j: usize| #[trigger] self@.contains_key(j) implies self@[j]
                == old(self)@.insert(idx, value)[j] by {
                lemma_mod_range(j as int, cap);
                if j != idx && j as int % cap == i {
                    assert((self.data@[i as int]->0).0 == idx);
                }
            }
            assert(self@ =~= old(self)@.insert(idx, value));
        }
        Ok(idx)
    }

    /// Takes the item with index `idx` out, if it is still there.
    pub fn remove(&mut self, idx: usize) -> (r: Option<T>)
        requires
            old(self).wf(),
            old(self).spec_capacity() > 0,
        ensures
            final(self).wf(),
            final(self).spec_capacity() == old(self).spec_capacity(),
            final(self).next_index() == old(self).next_index(),
            final(self)@ == old(self)@.remove(idx),
            match r {
                Some(value) => old(self)@.contains_key(idx) && value == old(self)@[idx],
                None => !old(self)@.contains_key(idx) && *final(self) == *old(self),
            },
    {
        let ghost cap = self.capacity as int;
        let i = self.data_idx(idx);
        match &self.data[i] {
            None => {
                assert(self@.remove(idx) =~= self@);
                return None;
            },
            Some(entry) => {
                if entry.0 != idx {
                    assert(self@.remove(idx) =~= self@);
                    return None;
                }
            },
        }
        assert(self.holds(idx));
        let taken = self.data[i].take();
        let ghost without = self.data@;
        assert(forall|s: int|
            0 <= s < cap && s != i ==> #[trigger] self.data@[s] == old(self).data@[s]);
        while self.min_idx < self.next_idx && self.data[self.data_idx(self.min_idx)].is_none()
            invariant
                self.capacity == cap,
                cap > 0,
                cap == old(self).capacity,
                self.data@ == without,
                without.len() == cap,
                0 <= i < cap,
                self.next_idx == old(self).next_idx,
                old(self).min_idx <= self.min_idx <= self.next_idx,
                self.next_idx - self.min_idx <= cap,
                self.slots_in_window(),
            decreases self.next_idx - self.min_idx,
        {
            let ghost m = self.min_idx;
            proof {
                lemma_mod_range(m as int, cap);
            }
            self.min_idx = self.min_idx + 1;
            proof {
                assert forall|s: int|
                    #![trigger self.data@[s]]
                    0 <= s < self.data@.len() && self.data@[s] is Some implies {
                    &&& self.min_idx <= (self.data@[s]->0).0 < self.next_idx
                    &&& (self.data@[s]->0).0 as int % self.capacity as int == s
                } by {
                    assert((without[s]->0).0 != m);
                }
            }
        }
        proof {
            lemma_mod_range(self.min_idx as int, cap);
            assert forall|j: usize| #[trigger] self.holds(j) <==> old(self).holds(j) && j != idx by {
                lemma_mod_range(j as int, cap);
                if old(self).holds(j) && j != idx {
                    let s = j as int % cap;
                    assert(s != i || (old(self).data@[s]->0).0 == idx);
                    assert(self.data@[s] is Some);
                }
            }
            assert(self@.dom() =~= old(self)@.remove(idx).dom());
            assert forall|j: usize| #[trigger] self@.contains_key(j) implies self@[j]
                == old(self)@.remove(idx)[j] by {
                lemma_mod_range(j as int, cap);
                assert(self.holds(j));
            }
            assert(self@ =~= old(self)@.remove(idx));
        }
        match taken {
            Some(entry) => Some(entry.1),
            None => None,
        }
    }

    /// Whether there is no index left that a new item could get.
    pub fn is_spent(&self) -> (r: bool)
        ensures
            r == (self.next_index() == usize::MAX),
    {
        self.next_idx == usize::MAX
    }

    /// The slot of an index.
    pub fn data_idx(&self, idx: usize) -> (r: usize)
        requires
            self.spec_capacity() > 0,
        ensures
            r == slot(idx, self.spec_capacity()),
            r < self.spec_capacity(),
    {
        idx % self.capacity
    }
}

proof fn lemma_mod_range(a: int, cap: int)
    requires
        cap > 0,
    ensures
        0 <= a % cap < cap,
{
}

/// Two indices of one slot are equal where they are less than a capacity apart.
proof fn lemma_same_slot(a: int, b: int, cap: int)
    requires
        cap > 0,
        a % cap == b % cap,
        -cap < a - b < cap,
    ensures
        a == b,
{
    lemma_fundamental_div_mod(a, cap);
    lemma_fundamental_div_mod(b, cap);
    let q = a / cap - b / cap;
    assert(a - b == cap * q) by (nonlinear_arith)
        requires
            a == cap * (a / cap) + a % cap,
            b == cap * (b / cap) + b % cap,
            a % cap == b % cap,
            q == a / cap - b / cap,
    ;
    assert(q == 0) by (nonlinear_arith)
        requires
            cap > 0,
            a - b == cap * q,
            -cap < a - b < cap,
    ;
    assert(cap * q == 0) by (nonlinear_arith)
        requires
            q == 0,
    ;
}

} // verus!
