use std::sync::Arc;
use vstd::arithmetic::power2::{lemma_pow2_pos, lemma_pow2_unfold};
use vstd::prelude::*;
use vstd::string::to_string_from_display_ensures;
use crate::listing::{listing, render, texts};
use crate::pool::{ArrayPool, BorrowingSlice, class_size, is_least, shrinkable, lemma_class_size_increases};

verus! {

/// Whether popping from a vector of `len` elements in a buffer of `cap`
/// slots halves the buffer: it is above the smallest class and fewer than
/// half of its slots stay in use.
pub open spec fn halves_on_pop(len: nat, cap: nat) -> bool {
    len > 0 && class_size(0) < cap && 2 * (len - 1) < cap
}

/// A growable vector whose storage is one buffer rented from a pool.
///
/// It grows by expanding its buffer when full and shrinks it once fewer than
/// half of the slots are in use and the buffer is above the smallest class.
#[verifier::reject_recursive_types(T)]
pub struct PooledVec<T: Send + Sync> {
    pool: Arc<ArrayPool<T>>,
    buffer: Option<BorrowingSlice<T>>,
    length: usize,
}

impl<T: Send + Sync> View for PooledVec<T> {
    type V = Seq<T>;

    closed spec fn view(&self) -> Seq<T> {
        Seq::new(self.length as nat, |i: int| self.buffer->0@[i]->0)
    }
}

impl<T: Send + Sync> PooledVec<T> {
    /// The elements sit in order at the front of the buffer, whose other
    /// slots are unwritten; the buffer is of one of the pool's classes.
    pub closed spec fn wf(&self) -> bool {
        match self.buffer {
            None => self.length == 0,
            Some(b) => {
                &&& self.length <= b@.len()
                &&& exists|i: nat| i < self.pool.class_count() && b@.len() == #[trigger] class_size(i)
                &&& forall|j: int| 0 <= j < b@.len() ==> ((#[trigger] b@[j]) is Some <==> j < self.length)
            },
        }
    }

    /// The most elements the vector can hold: the pool's largest class.
    pub closed spec fn limit(&self) -> nat {
        self.pool.max_class()
    }

    /// The capacity of the current buffer, zero when there is none.
    pub closed spec fn cap(&self) -> nat {
        match self.buffer {
            None => 0,
            Some(b) => b@.len(),
        }
    }

    /// An empty vector drawing on `pool`; it rents nothing yet.
    pub fn create(pool: Arc<ArrayPool<T>>) -> (r: Self)
        ensures
            r.wf(),
            r@.len() == 0,
            r.cap() == 0,
            r.limit() == pool.max_class(),
    {
        PooledVec { pool, buffer: None, length: 0 }
    }

    /// Number of elements.
    pub fn len(&self) -> (r: usize)
        ensures
            r == self@.len(),
    {
        self.length
    }

    /// Capacity of the current buffer, zero when there is none.
    pub fn capacity(&self) -> (r: usize)
        ensures
            r == self.cap(),
    {
        match &self.buffer {
            Some(b) => b.len(),
            None => 0,
        }
    }

    /// Puts `value` at the back of the vector held in `buffer`, expanding
    /// the buffer first when it is full.
    fn push_with_buffer(&mut self, buffer: BorrowingSlice<T>, value: T)
        requires
            old(self).buffer is None,
            old(self).length <= buffer@.len(),
            old(self).length < old(self).limit(),
            exists|i: nat| i < old(self).pool.class_count() && buffer@.len() == #[trigger] class_size(i),
            forall|j: int| 0 <= j < buffer@.len() ==> ((#[trigger] buffer@[j]) is Some <==> j < old(self).length),
        ensures
            final(self).wf(),
            final(self).pool == old(self).pool,
            final(self)@ == Seq::new(old(self).length as nat, |i: int| buffer@[i]->0).push(value),
            final(self).cap() == if old(self).length == buffer@.len() {
                2 * buffer@.len()
            } else {
                buffer@.len()
            },
    {
        let mut buffer = buffer;
        let index = self.length;
        let ghost before = buffer@;
        if index >= buffer.len() {
            proof {
                let i = choose|i: nat| i < self.pool.class_count() && buffer@.len() == #[trigger] class_size(i);
                let n = self.pool.class_count();
                assert(i < n - 1);
                lemma_pow2_pos(i + 3);
                lemma_pow2_unfold(i + 4);
                assert(class_size(i + 1) == 2 * buffer@.len());
                if i + 1 < n - 1 {
                    lemma_class_size_increases(i + 1, (n - 1) as nat);
                }
            }
            buffer = self.pool.expand_buffer(buffer).unwrap();
            proof {
                let k = choose|k: nat| #[trigger] is_least(self.pool.class_count(), 2 * before.len(), k) && buffer@.len() == class_size(k);
                assert(buffer@.len() >= 2 * before.len());
                assert(k < self.pool.class_count() && buffer@.len() == class_size(k));
                assert forall|j: int| 0 <= j < index implies buffer@[j] == before[j] by {
                    assert(buffer@[j] == buffer@.subrange(0, before.len() as int)[j]);
                }
                assert forall|j: int| 0 <= j < buffer@.len() implies ((#[trigger] buffer@[j]) is Some <==> j < index) by {
                    if j < index {
                        assert(buffer@[j] == buffer@.subrange(0, before.len() as int)[j]);
                        assert(before[j] is Some);
                    }
                }
            }
        }
        let ghost mid = buffer@;
        let cap = buffer.len();
        assert(index < cap);
        buffer.set(index, value);
        self.buffer = Some(buffer);
        self.length = index + 1;
        proof {
            assert(self@ =~= Seq::new(index as nat, |i: int| before[i]->0).push(value));
            let b = self.buffer->0;
            assert forall|j: int| 0 <= j < b@.len() implies ((#[trigger] b@[j]) is Some <==> j < self.length) by {
                if j != index {
                    assert(b@[j] == mid[j]);
                }
            }
        }
    }

    /// Puts `value` at the back, renting a buffer of the smallest class on
    /// the first push and expanding it when full.
    pub fn push(&mut self, value: T)
        requires
            old(self).wf(),
            old(self)@.len() < old(self).limit(),
        ensures
            final(self).wf(),
            final(self).limit() == old(self).limit(),
            final(self)@ == old(self)@.push(value),
            old(self).cap() == 0 ==> final(self).cap() == class_size(0),
            old(self).cap() > 0 && old(self)@.len() == old(self).cap() ==> final(self).cap() == 2
                * old(self).cap(),
            old(self)@.len() < old(self).cap() ==> final(self).cap() == old(self).cap(),
    {
        let ghost start = self@;
        match self.buffer.take() {
            Some(buffer) => {
                let ghost bv = buffer@;
                proof {
                    assert(Seq::new(start.len(), |i: int| bv[i]->0) =~= start);
                    let i = choose|i: nat| i < self.pool.class_count() && bv.len() == #[trigger] class_size(i);
                    lemma_pow2_pos(i + 3);
                }
                self.push_with_buffer(buffer, value);
            },
            None => {
                let buffer = self.pool.rent_or_create_minimum_uninitialized().unwrap();
                proof {
                    assert(buffer@.len() == class_size(0));
                }
                let ghost bv = buffer@;
                proof {
                    assert(Seq::new(0, |i: int| bv[i]->0) =~= start);
                    lemma_pow2_pos(3);
                }
                self.push_with_buffer(buffer, value);
            },
        }
    }

    /// Stores `buffer` back, first shrinking it when it is above the pool's
    /// smallest class and fewer than half of its slots are in use.
    fn try_shrink(&mut self, buffer: BorrowingSlice<T>)
        requires
            old(self).buffer is None,
            old(self).length <= buffer@.len(),
            exists|i: nat| i < old(self).pool.class_count() && buffer@.len() == #[trigger] class_size(i),
            forall|j: int| 0 <= j < buffer@.len() ==> ((#[trigger] buffer@[j]) is Some <==> j < old(self).length),
        ensures
            final(self).wf(),
            final(self).pool == old(self).pool,
            final(self).length == old(self).length,
            final(self)@ == Seq::new(old(self).length as nat, |i: int| buffer@[i]->0),
            final(self).cap() == if class_size(0) < buffer@.len() && 2 * old(self).length
                < buffer@.len() {
                buffer@.len() / 2
            } else {
                buffer@.len()
            },
    {
        let mut buffer = buffer;
        let len = self.length;
        let cap = buffer.len();
        let ghost before = buffer@;
        if self.pool.min_size() < cap && len < cap - len {
            buffer = self.pool.shrink_buffer(buffer);
            proof {
                let n = self.pool.class_count();
                let half = before.len() / 2;
                if shrinkable(n, before.len()) {
                    let k = choose|k: nat| #[trigger] is_least(n, half, k) && buffer@.len() == class_size(k);
                    assert(k < n && buffer@.len() == class_size(k));
                    assert forall|j: int| 0 <= j < buffer@.len() implies ((#[trigger] buffer@[j]) is Some <==> j < len) by {
                        if j < half {
                            assert(buffer@[j] == buffer@.subrange(0, half as int)[j]);
                            assert(before[j] == before.subrange(0, half as int)[j]);
                        }
                    }
                    assert forall|j: int| 0 <= j < len implies buffer@[j] == before[j] by {
                        assert(buffer@[j] == buffer@.subrange(0, half as int)[j]);
                        assert(before[j] == before.subrange(0, half as int)[j]);
                    }
                }
            }
        }
        self.buffer = Some(buffer);
        proof {
            assert(self@ =~= Seq::new(len as nat, |i: int| before[i]->0));
        }
    }

    /// Removes and returns the last element, or `None` when the vector is
    /// empty; may shrink the buffer afterwards.
    pub fn pop(&mut self) -> (r: Option<T>)
        requires
            old(self).wf(),
        ensures
            final(self).wf(),
            final(self).limit() == old(self).limit(),
            old(self)@.len() == 0 ==> r is None && final(self)@ == old(self)@,
            old(self)@.len() > 0 ==> r == Some(old(self)@.last()) && final(self)@ == old(self)@.drop_last(),
            halves_on_pop(old(self)@.len(), old(self).cap()) ==> final(self).cap() == old(self).cap() / 2,
            !halves_on_pop(old(self)@.len(), old(self).cap()) ==> final(self).cap() == old(self).cap(),
    {
        let ghost start = self@;
        let mut buffer = match self.buffer.take() {
            Some(b) => b,
            None => {
                return None;
            },
        };
        if self.length == 0 {
            self.buffer = Some(buffer);
            proof {
                assert(self@ =~= start);
            }
            return None;
        }
        self.length = self.length - 1;
        let ghost before = buffer@;
        let value = buffer.take(self.length);
        proof {
            assert forall|j: int| 0 <= j < buffer@.len() implies ((#[trigger] buffer@[j]) is Some <==> j < self.length) by {
                if j != self.length {
                    assert(buffer@[j] == before[j]);
                }
            }
        }
        self.try_shrink(buffer);
        proof {
            assert(self@ =~= start.drop_last());
        }
        value
    }

    /// Destructs every element and releases the buffer; returns how many
    /// elements there were.
    pub fn clear(&mut self) -> (r: usize)
        requires
            old(self).wf(),
        ensures
            final(self).wf(),
            final(self).limit() == old(self).limit(),
            r == old(self)@.len(),
            final(self)@.len() == 0,
            final(self).cap() == 0,
    {
        let old_length = self.length;
        match self.buffer.take() {
            Some(buffer) => buffer.release(),
            None => {},
        }
        self.length = 0;
        old_length
    }

    /// The element at `index`, or `None` past the end.
    pub fn at(&self, index: usize) -> (r: Option<&T>)
        requires
            self.wf(),
        ensures
            index < self@.len() ==> r == Some(&self@[index as int]),
            index >= self@.len() ==> r is None,
    {
        if index >= self.length {
            return None;
        }
        match &self.buffer {
            Some(b) => Some(b.get(index)),
            None => None,
        }
    }

    /// The element at `index` for change in place, or `None` past the end.
    pub fn at_mut(&mut self, index: usize) -> (r: Option<&mut T>)
        requires
            old(self).wf(),
        ensures
            index < old(self)@.len() ==> (r matches Some(x) && *x == old(self)@[index as int]
                && final(self).wf() && final(self).limit() == old(self).limit()
                && final(self)@ == old(self)@.update(index as int, *final(x))),
            index >= old(self)@.len() ==> r is None && *final(self) == *old(self),
    {
        if index >= self.length {
            return None;
        }
        match &mut self.buffer {
            Some(b) => b.get_mut(index),
            None => None,
        }
    }
}

impl<T: Send + Sync + std::fmt::Display> PooledVec<T> {
    /// The elements in order as `[ a, b, c ]`, each written as its
    /// `Display` writes it.
    pub fn to_text(&self) -> (r: String)
        requires
            self.wf(),
        ensures
            exists|parts: Seq<String>|
                {
                    &&& parts.len() == self@.len()
                    &&& forall|i: int|
                        0 <= i < parts.len() ==> to_string_from_display_ensures::<T>(
                            &self@[i],
                            #[trigger] parts[i],
                        )
                    &&& r@ == listing(texts(parts))
                },
    {
        let n = self.length;
        let mut parts: Vec<String> = Vec::new();
        let mut i: usize = 0;
        while i < n
            invariant
                i <= n,
                n == self@.len(),
                self.wf(),
                parts@.len() == i,
                forall|j: int|
                    0 <= j < i ==> to_string_from_display_ensures::<T>(
                        &self@[j],
                        #[trigger] parts@[j],
                    ),
            decreases n - i,
        {
            match self.at(i) {
                Some(x) => parts.push(x.to_string()),
                None => {},
            }
            i = i + 1;
        }
        render(&parts)
    }
}

impl<T: Clone + Send + Sync> PooledVec<T> {
    /// A vector on the same pool holding a clone of each element, in a
    /// buffer of the same class.
    pub fn clone(&self) -> (r: Self)
        requires
            self.wf(),
        ensures
            r.wf(),
            r.limit() == self.limit(),
            r.cap() == self.cap(),
            r@.len() == self@.len(),
            forall|i: int| 0 <= i < self@.len() ==> cloned::<T>(self@[i], #[trigger] r@[i]),
    {
        let buffer = match &self.buffer {
            Some(b) => Some(b.clone_front(self.length)),
            None => None,
        };
        let r = PooledVec { pool: self.pool.clone(), buffer, length: self.length };
        proof {
            if self.buffer is Some {
                let b = self.buffer->0;
                let c = r.buffer->0;
                assert forall|j: int| 0 <= j < c@.len() implies ((#[trigger] c@[j]) is Some <==> j < r.length) by {
                    assert(b@[j] is Some <==> j < self.length);
                }
                assert forall|i: int| 0 <= i < self@.len() implies cloned::<T>(self@[i], #[trigger] r@[i]) by {
                    assert(b@[i] is Some);
                }
            }
        }
        r
    }
}

} // verus!
