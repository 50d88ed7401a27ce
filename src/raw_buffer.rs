use vstd::prelude::*;

verus! {

/// True when no slot of `s` holds a value.
pub open spec fn all_vacant<T>(s: Seq<Option<T>>) -> bool {
    forall|i: int| 0 <= i < s.len() ==> (#[trigger] s[i]) is None
}

/// One idle block of storage for `len()` elements.
///
/// An idle block never holds live elements: that is its type invariant, so a
/// block taken from any stash can be handed out as unwritten storage. A block
/// of capacity zero is the empty sentinel and owns no allocation.
pub struct RawBuffer<T> {
    slots: Vec<Option<T>>,
}

impl<T> RawBuffer<T> {
    #[verifier::type_invariant]
    spec fn vacant(&self) -> bool {
        all_vacant(self.slots@)
    }

    /// Number of element slots.
    pub closed spec fn capacity(&self) -> nat {
        self.slots@.len()
    }

    /// The zero-capacity sentinel.
    pub fn empty() -> (r: Self)
        ensures
            r.capacity() == 0,
    {
        RawBuffer { slots: Vec::new() }
    }

    /// A fresh block of `capacity` unwritten slots.
    pub fn new(capacity: usize) -> (r: Self)
        ensures
            r.capacity() == capacity,
    {
        let mut slots: Vec<Option<T>> = Vec::with_capacity(capacity);
        let mut i: usize = 0;
        while i < capacity
            invariant
                i <= capacity,
                slots@.len() == i,
                all_vacant(slots@),
            decreases capacity - i,
        {
            slots.push(None);
            i = i + 1;
        }
        RawBuffer { slots }
    }

    /// The capacity, in elements.
    pub fn len(&self) -> (r: usize)
        ensures
            r == self.capacity(),
    {
        self.slots.len()
    }

    /// Hands the slots over for use; all of them are unwritten.
    pub fn into_slots(self) -> (r: Vec<Option<T>>)
        ensures
            r@.len() == self.capacity(),
            all_vacant(r@),
    {
        proof {
            use_type_invariant(&self);
        }
        self.slots
    }

    /// Takes slots back as idle storage, destructing every live element in
    /// index order first.
    pub fn vacate(slots: Vec<Option<T>>) -> (r: Self)
        ensures
            r.capacity() == slots@.len(),
    {
        let mut slots = slots;
        let n = slots.len();
        let mut i: usize = 0;
        while i < n
            invariant
                i <= n,
                slots@.len() == n,
                forall|j: int| 0 <= j < i ==> (#[trigger] slots@[j]) is None,
            decreases n - i,
        {
            slots.set(i, None);
            i = i + 1;
        }
        RawBuffer { slots }
    }
}

} // verus!
