use std::sync::Arc;
use std::sync::atomic::{AtomicUsize, Ordering};
use thread_local::ThreadLocal;
use vstd::arithmetic::power2::{pow2, lemma_pow2_pos, lemma_pow2_unfold, lemma_pow2_strictly_increases, lemma2_to64};
use vstd::prelude::*;
use vstd::rwlock::{RwLock, RwLockPredicate};
use vstd::string::to_string_from_display_ensures;
use crate::listing::{listing, render, texts};
use crate::raw_buffer::{RawBuffer, all_vacant};

verus! {

/// `thread_local::ThreadLocal`, the per-object table that holds each
/// thread's own stash; opaque here.
#[verifier::external_type_specification]
#[verifier::external_body]
#[verifier::reject_recursive_types(T)]
pub struct ExThreadLocal<T: Send>(ThreadLocal<T>);

/// Relies on `ThreadLocal::new`: builds an empty per-thread table.
pub assume_specification<T: Send>[ ThreadLocal::<T>::new ]() -> ThreadLocal<T>;

/// What a thread's stash lock guarantees: every buffer in it has the class size.
pub(crate) struct StashPred {
    pub class_size: usize,
}

impl<T> RwLockPredicate<Vec<RawBuffer<T>>> for StashPred {
    closed spec fn inv(self, v: Vec<RawBuffer<T>>) -> bool {
        forall|i: int| 0 <= i < v@.len() ==> (#[trigger] v@[i]).capacity() == self.class_size
    }
}

/// One thread's stash of released buffers for one size class.
pub(crate) struct LocalBufferChain<T> {
    class_size: usize,
    stash: RwLock<Vec<RawBuffer<T>>, StashPred>,
    idle_hint: Arc<AtomicUsize>,
}

impl<T> LocalBufferChain<T> {
    #[verifier::type_invariant]
    spec fn wf(&self) -> bool {
        self.stash.pred() == StashPred { class_size: self.class_size }
    }

    /// The size class of every buffer in this stash.
    pub closed spec fn class(&self) -> usize {
        self.class_size
    }

    fn new(class_size: usize, idle_hint: Arc<AtomicUsize>) -> (r: Self)
        ensures
            r.class() == class_size,
    {
        let stash = RwLock::new(Vec::new(), Ghost(StashPred { class_size }));
        LocalBufferChain { class_size, stash, idle_hint }
    }

    /// Pops the most recently stashed buffer, if any, and lowers the
    /// chain-wide idle hint for it.
    pub fn borrow(&self) -> (r: Option<RawBuffer<T>>)
        ensures
            r matches Some(b) ==> b.capacity() == self.class(),
    {
        proof {
            use_type_invariant(self);
        }
        let (mut buffers, handle) = self.stash.acquire_write();
        let r = buffers.pop();
        if r.is_some() {
            self.idle_hint.fetch_sub(1, Ordering::SeqCst);
        }
        handle.release_write(buffers);
        r
    }

    /// Stashes `buffer` for reuse and raises the chain-wide idle hint.
    fn give(&self, buffer: RawBuffer<T>)
        requires
            buffer.capacity() == self.class(),
    {
        proof {
            use_type_invariant(self);
        }
        let (mut buffers, handle) = self.stash.acquire_write();
        buffers.push(buffer);
        handle.release_write(buffers);
        self.idle_hint.fetch_add(1, Ordering::SeqCst);
    }

    /// Number of buffers in the stash now.
    fn idle_len(&self) -> usize {
        let handle = self.stash.acquire_read();
        let n = handle.borrow().len();
        handle.release_read();
        n
    }
}


/// The chain's registry of per-thread stashes, in the order they were made.
pub(crate) struct Registry<T> {
    next_key: u64,
    entries: Vec<(u64, Arc<LocalBufferChain<T>>)>,
}

/// What a chain's registry lock guarantees: keys strictly increase and lie
/// below the next key to hand out, and every stash is of the chain's class.
pub(crate) struct RegistryPred {
    pub class_size: usize,
}

impl<T> RwLockPredicate<Registry<T>> for RegistryPred {
    closed spec fn inv(self, r: Registry<T>) -> bool {
        &&& forall|i: int| 0 <= i < r.entries@.len() ==> {
            &&& (#[trigger] r.entries@[i]).1.class() == self.class_size
            &&& r.entries@[i].0 < r.next_key
        }
        &&& forall|i: int, j: int|
            0 <= i < j < r.entries@.len() ==> (#[trigger] r.entries@[i]).0 < (#[trigger] r.entries@[j]).0
    }
}

/// What a scan of the registry does with one entry.
#[derive(Copy, Clone, Debug, PartialEq, Eq, Structural)]
pub enum ScanStep {
    /// Keep the entry and go on: a buffer was found already.
    Keep,
    /// Drop the entry: nothing but the registry owns its stash any more.
    Purge,
    /// Keep the entry and try to take a buffer from its stash.
    Borrow,
}

/// The decision for one registry entry, given whether a buffer was found
/// already and how many strong owners the entry's stash has.
pub fn scan_step(found: bool, owners: usize) -> (r: ScanStep)
    ensures
        r == (if found {
            ScanStep::Keep
        } else if owners <= 1 {
            ScanStep::Purge
        } else {
            ScanStep::Borrow
        }),
{
    if found {
        ScanStep::Keep
    } else if owners <= 1 {
        ScanStep::Purge
    } else {
        ScanStep::Borrow
    }
}

/// Relies on `ThreadLocal::get_or`: hands back the calling thread's stash,
/// made and registered by `register_local` of this same chain on the
/// thread's first call, so it is of the chain's class.
#[verifier::external_body]
fn local_stash<T: Send + Sync>(chain: &BufferChain<T>) -> (r: &Arc<LocalBufferChain<T>>)
    ensures
        r.class() == chain.class(),
{
    chain.local_chain.get_or(|| chain.register_local())
}

/// Relies on `Arc::strong_count`: the number of strong owners of a stash at
/// the moment of the call.
#[verifier::external_body]
fn owner_count<T>(stash: &Arc<LocalBufferChain<T>>) -> usize {
    Arc::strong_count(stash)
}

/// One size class: buffers of exactly `chunk_size` elements.
#[verifier::reject_recursive_types(T)]
pub(crate) struct BufferChain<T: Send + Sync> {
    chunk_size: usize,
    chunk_count: Arc<AtomicUsize>,
    chains: RwLock<Registry<T>, RegistryPred>,
    local_chain: ThreadLocal<Arc<LocalBufferChain<T>>>,
}

impl<T: Send + Sync> BufferChain<T> {
    #[verifier::type_invariant]
    spec fn wf(&self) -> bool {
        self.chains.pred() == RegistryPred { class_size: self.chunk_size }
    }

    /// Number of elements in each buffer of this class.
    pub closed spec fn class(&self) -> usize {
        self.chunk_size
    }

    /// A chain for buffers of `2^size_power` elements.
    pub fn new(size_power: u8) -> (r: Arc<Self>)
        requires
            pow2(size_power as nat) <= usize::MAX,
        ensures
            r.class() == pow2(size_power as nat),
    {
        let mut size: usize = 1;
        let mut i: u8 = 0;
        proof {
            lemma2_to64();
        }
        while i < size_power
            invariant
                i <= size_power,
                size == pow2(i as nat),
                pow2(size_power as nat) <= usize::MAX,
            decreases size_power - i,
        {
            proof {
                lemma_pow2_unfold((i + 1) as nat);
                if i + 1 < size_power {
                    lemma_pow2_strictly_increases((i + 1) as nat, size_power as nat);
                }
            }
            size = size * 2;
            i = i + 1;
        }
        let registry = Registry { next_key: 0, entries: Vec::new() };
        Arc::new(BufferChain {
            chunk_size: size,
            chunk_count: Arc::new(AtomicUsize::new(0)),
            chains: RwLock::new(registry, Ghost(RegistryPred { class_size: size })),
            local_chain: ThreadLocal::new(),
        })
    }

    fn class_size(&self) -> (r: usize)
        ensures
            r == self.class(),
    {
        self.chunk_size
    }

    /// Makes the calling thread's stash and enters it in the registry under
    /// the next key, so that other threads can find it.
    fn register_local(&self) -> (r: Arc<LocalBufferChain<T>>)
        ensures
            r.class() == self.class(),
    {
        proof {
            use_type_invariant(self);
        }
        let local = Arc::new(LocalBufferChain::new(self.chunk_size, self.chunk_count.clone()));
        let (mut registry, handle) = self.chains.acquire_write();
        if registry.next_key < u64::MAX {
            let key = registry.next_key;
            registry.entries.push((key, local.clone()));
            registry.next_key = key + 1;
        }
        handle.release_write(registry);
        local
    }

    /// Scans the other threads' stashes in key order and takes one buffer
    /// from the first that has one. A stash that nothing but the registry
    /// still owns belongs to no live thread: it is purged on the way, its
    /// idle buffers taken off the hint.
    fn borrow_from_other_chains(&self) -> (r: Option<RawBuffer<T>>)
        ensures
            r matches Some(b) ==> b.capacity() == self.class(),
    {
        proof {
            use_type_invariant(self);
        }
        let (registry, handle) = self.chains.acquire_write();
        let Registry { next_key, entries } = registry;
        let n = entries.len();
        let mut kept: Vec<(u64, Arc<LocalBufferChain<T>>)> = Vec::new();
        let mut found: Option<RawBuffer<T>> = None;
        let mut i: usize = 0;
        while i < n
            invariant
                i <= n,
                n == entries@.len(),
                handle.rwlock().inv(Registry { next_key, entries }),
                handle.rwlock() == self.chains,
                self.chains.pred() == (RegistryPred { class_size: self.chunk_size }),
                found matches Some(b) ==> b.capacity() == self.chunk_size,
                forall|a: int| 0 <= a < kept@.len() ==> {
                    &&& (#[trigger] kept@[a]).1.class() == self.chunk_size
                    &&& kept@[a].0 < next_key
                    &&& forall|b: int| i <= b < n ==> kept@[a].0 < (#[trigger] entries@[b]).0
                },
                forall|a: int, b: int|
                    0 <= a < b < kept@.len() ==> (#[trigger] kept@[a]).0 < (#[trigger] kept@[b]).0,
            decreases n - i,
        {
            let entry = &entries[i];
            proof {
                let reg = Registry { next_key, entries };
                assert(self.chains.pred().inv(reg));
                assert(reg.entries@[i as int] == entries@[i as int]);
                assert(entry.1.class() == self.chunk_size);
                assert(entry.0 < next_key);
                assert forall|b: int| i < b < n implies entry.0 < (#[trigger] entries@[b]).0 by {
                    assert(reg.entries@[b] == entries@[b]);
                }
            }
            let owners = if found.is_some() {
                0
            } else {
                owner_count(&entry.1)
            };
            match scan_step(found.is_some(), owners) {
                ScanStep::Keep => {
                    kept.push((entry.0, entry.1.clone()));
                },
                ScanStep::Purge => {
                    let left = entry.1.idle_len();
                    self.chunk_count.fetch_sub(left, Ordering::SeqCst);
                },
                ScanStep::Borrow => {
                    found = entry.1.borrow();
                    kept.push((entry.0, entry.1.clone()));
                },
            }
            i = i + 1;
        }
        handle.release_write(Registry { next_key, entries: kept });
        found
    }

    /// A buffer of this class with no live elements: from the calling
    /// thread's stash, else stolen from another thread's, else freshly made.
    /// While the idle hint reads zero the stashes are not looked at.
    fn obtain(&self) -> (r: RawBuffer<T>)
        ensures
            r.capacity() == self.class(),
    {
        let local = local_stash(self);
        if self.chunk_count.load(Ordering::Acquire) == 0 {
            return RawBuffer::new(self.chunk_size);
        }
        if let Some(cached) = local.borrow() {
            return cached;
        }
        if let Some(cached) = self.borrow_from_other_chains() {
            return cached;
        }
        RawBuffer::new(self.chunk_size)
    }

    /// A handle over a buffer of this class whose every slot holds a value
    /// made by `fabricator`.
    pub fn rent_with<F: Fn() -> T>(self: &Arc<Self>, fabricator: &F) -> (r: BorrowingSlice<T>)
        requires
            fabricator.requires(()),
        ensures
            r@.len() == self.class(),
            all_filled(r@),
            made_by(fabricator, r@),
    {
        let mut array = self.obtain().into_slots();
        let n = array.len();
        let mut i: usize = 0;
        while i < n
            invariant
                i <= n,
                array@.len() == n,
                fabricator.requires(()),
                forall|j: int| 0 <= j < i ==> (#[trigger] array@[j]) is Some,
                forall|j: int| 0 <= j < i ==> fabricator.ensures((), (#[trigger] array@[j])->0),
            decreases n - i,
        {
            array.set(i, Some(fabricator()));
            i = i + 1;
        }
        BorrowingSlice { array, chain: self.clone() }
    }

    /// A handle over a buffer of this class whose slots are all unwritten.
    pub fn rent_or_create_uninitialized(self: &Arc<Self>) -> (r: BorrowingSlice<T>)
        ensures
            r@.len() == self.class(),
            all_vacant(r@),
    {
        let array = self.obtain().into_slots();
        BorrowingSlice { array, chain: self.clone() }
    }

    /// Takes `buffer` back as idle storage into the calling thread's stash.
    fn give_back(&self, buffer: RawBuffer<T>)
        requires
            buffer.capacity() == self.class(),
    {
        local_stash(self).give(buffer);
    }
}

/// Every slot of `s` that holds a value holds one that `fabricator` may
/// return.
pub open spec fn made_by<T, F: Fn() -> T>(fabricator: &F, s: Seq<Option<T>>) -> bool {
    forall|i: int| 0 <= i < s.len() && s[i] is Some ==> fabricator.ensures((), (#[trigger] s[i])->0)
}

/// Every slot of `s` that holds a value holds one that `T::default` may
/// return.
pub open spec fn all_default<T: Default>(s: Seq<Option<T>>) -> bool {
    forall|i: int| 0 <= i < s.len() && s[i] is Some ==> call_ensures(T::default, (), (#[trigger] s[i])->0)
}

/// True when every slot of `s` holds a value.
pub open spec fn all_filled<T>(s: Seq<Option<T>>) -> bool {
    forall|i: int| 0 <= i < s.len() ==> (#[trigger] s[i]) is Some
}

/// Exclusive use of one pooled buffer until it is released.
///
/// A slot holds either a live element or nothing; releasing the handle
/// destructs the live elements, each once, in index order, and returns the
/// storage to the releasing thread's stash for its chain.
#[verifier::reject_recursive_types(T)]
pub struct BorrowingSlice<T: Send + Sync> {
    array: Vec<Option<T>>,
    chain: Arc<BufferChain<T>>,
}

impl<T: Send + Sync> View for BorrowingSlice<T> {
    type V = Seq<Option<T>>;

    closed spec fn view(&self) -> Seq<Option<T>> {
        self.array@
    }
}

impl<T: Send + Sync> BorrowingSlice<T> {
    #[verifier::type_invariant]
    spec fn wf(&self) -> bool {
        self.array@.len() == 0 || self.array@.len() == self.chain.class()
    }

    /// The capacity, in elements.
    pub fn len(&self) -> (r: usize)
        ensures
            r == self@.len(),
    {
        self.array.len()
    }

    /// True when slot `index` holds a value.
    pub fn is_set(&self, index: usize) -> (r: bool)
        requires
            index < self@.len(),
        ensures
            r == self@[index as int] is Some,
    {
        self.array[index].is_some()
    }

    /// The value in slot `index`, which must have been written.
    pub fn get(&self, index: usize) -> (r: &T)
        requires
            index < self@.len(),
            self@[index as int] is Some,
        ensures
            self@[index as int] == Some(*r),
    {
        self.array[index].as_ref().unwrap()
    }

    /// The value in slot `index` for change in place, or `None` when the
    /// slot is unwritten.
    pub fn get_mut(&mut self, index: usize) -> (r: Option<&mut T>)
        requires
            index < old(self)@.len(),
        ensures
            old(self)@[index as int] is None ==> r is None && final(self)@ == old(self)@,
            old(self)@[index as int] is Some ==> (r matches Some(x) && old(self)@[index as int]
                == Some(*x) && final(self)@ == old(self)@.update(index as int, Some(*final(x)))),
        no_unwind
    {
        proof {
            use_type_invariant(&*self);
        }
        match &mut self.array[index] {
            Some(x) => Some(x),
            None => None,
        }
    }

    /// Writes `value` into slot `index`, destructing what it held.
    pub fn set(&mut self, index: usize, value: T)
        requires
            index < old(self)@.len(),
        ensures
            final(self)@ == old(self)@.update(index as int, Some(value)),
        no_unwind
    {
        proof {
            use_type_invariant(&*self);
        }
        self.array[index] = Some(value);
    }

    /// Moves the value out of slot `index`, leaving it unwritten.
    pub fn take(&mut self, index: usize) -> (r: Option<T>)
        requires
            index < old(self)@.len(),
        ensures
            r == old(self)@[index as int],
            final(self)@ == old(self)@.update(index as int, None),
        no_unwind
    {
        proof {
            use_type_invariant(&*self);
        }
        let mut slot: Option<T> = None;
        std::mem::swap(&mut slot, &mut self.array[index]);
        slot
    }

    fn put(&mut self, index: usize, slot: Option<T>)
        requires
            index < old(self)@.len(),
        ensures
            final(self)@ == old(self)@.update(index as int, slot),
        no_unwind
    {
        proof {
            use_type_invariant(&*self);
        }
        self.array[index] = slot;
    }

    /// Gives the buffer back to its chain: every live element is destructed
    /// once, in index order, and the storage goes to the calling thread's
    /// stash. Releasing the empty sentinel does nothing.
    pub fn release(self) {
        proof {
            use_type_invariant(&self);
        }
        let BorrowingSlice { array, chain } = self;
        if array.len() == 0 {
            return;
        }
        let buffer = RawBuffer::vacate(array);
        chain.give_back(buffer);
    }
}

impl<T: Send + Sync + std::fmt::Display> BorrowingSlice<T> {
    /// The elements in index order as `[ a, b, c ]`, each written as its
    /// `Display` writes it.
    pub fn to_text(&self) -> (r: String)
        requires
            all_filled(self@),
        ensures
            exists|parts: Seq<String>|
                {
                    &&& parts.len() == self@.len()
                    &&& forall|i: int|
                        0 <= i < parts.len() ==> to_string_from_display_ensures::<T>(
                            &self@[i]->0,
                            #[trigger] parts[i],
                        )
                    &&& r@ == listing(texts(parts))
                },
    {
        let n = self.array.len();
        let mut parts: Vec<String> = Vec::new();
        let mut i: usize = 0;
        while i < n
            invariant
                i <= n,
                n == self@.len(),
                all_filled(self@),
                parts@.len() == i,
                forall|j: int|
                    0 <= j < i ==> to_string_from_display_ensures::<T>(
                        &self@[j]->0,
                        #[trigger] parts@[j],
                    ),
            decreases n - i,
        {
            let x = self.get(i);
            parts.push(x.to_string());
            i = i + 1;
        }
        render(&parts)
    }
}

/// `b` holds, slot by slot, clones of what `a` holds.
pub open spec fn cloned_slots<T: Clone>(a: Seq<Option<T>>, b: Seq<Option<T>>) -> bool {
    &&& a.len() == b.len()
    &&& forall|i: int|
        0 <= i < a.len() ==> match (#[trigger] a[i], b[i]) {
            (Some(x), Some(y)) => cloned::<T>(x, y),
            (None, None) => true,
            _ => false,
        }
}

impl<T: Clone + Send + Sync> BorrowingSlice<T> {
    /// A handle of the same class from the same chain whose first `count`
    /// slots hold clones of this handle's first `count` values, which must
    /// all be written; its other slots are unwritten.
    pub fn clone_front(&self, count: usize) -> (r: Self)
        requires
            count <= self@.len(),
            forall|j: int| 0 <= j < count ==> (#[trigger] self@[j]) is Some,
        ensures
            r@.len() == self@.len(),
            forall|j: int|
                0 <= j < count ==> (#[trigger] r@[j]) is Some && cloned::<T>(self@[j]->0, r@[j]->0),
            forall|j: int| count <= j < r@.len() ==> (#[trigger] r@[j]) is None,
    {
        proof {
            use_type_invariant(self);
        }
        let n = self.array.len();
        if n == 0 {
            return BorrowingSlice { array: Vec::new(), chain: self.chain.clone() };
        }
        let mut array = self.chain.obtain().into_slots();
        let mut i: usize = 0;
        while i < count
            invariant
                i <= count <= n,
                n == self.array@.len(),
                array@.len() == n,
                forall|j: int| 0 <= j < count ==> (#[trigger] self.array@[j]) is Some,
                forall|j: int|
                    0 <= j < i ==> (#[trigger] array@[j]) is Some && cloned::<T>(
                        self.array@[j]->0,
                        array@[j]->0,
                    ),
                forall|j: int| i <= j < n ==> (#[trigger] array@[j]) is None,
            decreases count - i,
        {
            let x = self.array[i].as_ref().unwrap();
            array.set(i, Some(x.clone()));
            i = i + 1;
        }
        BorrowingSlice { array, chain: self.chain.clone() }
    }

    /// A handle of the same class from the same chain holding a clone of
    /// each value; every slot must be written.
    pub fn clone(&self) -> (r: Self)
        requires
            all_filled(self@),
        ensures
            cloned_slots(self@, r@),
    {
        self.clone_front(self.len())
    }
}

/// Why a pool could not be built or could not serve a request.
#[derive(Copy, Clone, Debug, PartialEq, Eq, Structural)]
pub enum ArrayPoolError {
    /// The largest exponent asked of a pool is below four.
    MaxPowerTooSmall,
    /// The requested capacity exceeds every size class of the pool.
    MaxChunkSizeNotSufficient,
}

/// The element count of the pool's class number `i`: `8, 16, 32, ...`.
pub open spec fn class_size(i: nat) -> nat {
    pow2(i + 3)
}

/// Class number `i` is the smallest of the first `n` classes that holds `k`
/// elements.
pub open spec fn is_least(n: nat, k: nat, i: nat) -> bool {
    &&& i < n
    &&& k <= class_size(i)
    &&& i == 0 || class_size((i - 1) as nat) < k
}

/// Among the first `n` classes, `c` is the smallest one that holds `k`
/// elements.
pub open spec fn routes(n: nat, k: nat, c: nat) -> bool {
    exists|i: nat| #[trigger] is_least(n, k, i) && c == class_size(i)
}

/// Among the first `n` classes, one lies in `[len / 2, len)`.
pub open spec fn shrinkable(n: nat, len: nat) -> bool {
    exists|i: nat| i < n && len / 2 <= #[trigger] class_size(i) < len
}

/// Routing is a function of the request: the class that serves a
/// capacity request is unique, so renting the same capacity again, after a
/// release or not, yields a buffer of the same capacity; and it holds at
/// least the capacity requested.
pub proof fn lemma_routing_is_unique(n: nat, k: nat, c1: nat, c2: nat)
    requires
        routes(n, k, c1),
        routes(n, k, c2),
    ensures
        c1 == c2,
        k <= c1,
{
    let i = choose|i: nat| #[trigger] is_least(n, k, i) && c1 == class_size(i);
    let j = choose|j: nat| #[trigger] is_least(n, k, j) && c2 == class_size(j);
    if i < j {
        if i < j - 1 {
            lemma_class_size_increases(i, (j - 1) as nat);
        }
    } else if j < i {
        if j < i - 1 {
            lemma_class_size_increases(j, (i - 1) as nat);
        }
    }
}

/// The class a request is routed to is one of the pool's classes, holds
/// the request, and is no larger than any class that holds it: a request
/// equal to a class size goes to that class.
pub proof fn lemma_route_is_least_class(n: nat, k: nat, c: nat)
    requires
        routes(n, k, c),
    ensures
        k <= c,
        exists|i: nat| i < n && c == #[trigger] class_size(i),
        forall|j: nat| j < n && k <= #[trigger] class_size(j) ==> c <= class_size(j),
{
    let i = choose|i: nat| #[trigger] is_least(n, k, i) && c == class_size(i);
    assert(i < n && c == class_size(i));
    assert forall|j: nat| j < n && k <= #[trigger] class_size(j) implies c <= class_size(j) by {
        if j < i {
            if j < i - 1 {
                lemma_class_size_increases(j, (i - 1) as nat);
            }
        } else if j > i {
            lemma_class_size_increases(i, j);
        }
    }
}

/// The class above class `i` is twice as large and is the one that serves
/// a request for twice class `i`.
pub proof fn lemma_double_class(n: nat, i: nat)
    requires
        i + 1 < n,
    ensures
        class_size(i + 1) == 2 * class_size(i),
        class_size(i + 1) <= class_size((n - 1) as nat),
        routes(n, 2 * class_size(i), class_size(i + 1)),
{
    lemma_pow2_unfold(i + 4);
    lemma_pow2_pos(i + 3);
    if i + 1 < n - 1 {
        lemma_class_size_increases(i + 1, (n - 1) as nat);
    }
    assert(is_least(n, 2 * class_size(i), i + 1));
}

/// The class below class `i` is half as large and is the one that serves
/// a request for half of class `i`.
pub proof fn lemma_half_class(n: nat, i: nat)
    requires
        0 < i < n,
    ensures
        class_size((i - 1) as nat) == class_size(i) / 2,
        shrinkable(n, class_size(i)),
        routes(n, class_size(i) / 2, class_size((i - 1) as nat)),
{
    lemma_pow2_unfold(i + 3);
    lemma_pow2_pos(i + 2);
    let h = (i - 1) as nat;
    if h > 0 {
        lemma_class_size_increases((h - 1) as nat, h);
    }
    assert(is_least(n, class_size(i) / 2, h));
    assert(class_size(i) / 2 <= class_size(h) < class_size(i));
}

/// Classes grow with their number.
pub proof fn lemma_class_size_increases(i: nat, j: nat)
    requires
        i < j,
    ensures
        class_size(i) < class_size(j),
{
    lemma_pow2_strictly_increases(i + 3, j + 3);
}

/// Routes capacity requests to the smallest size class that holds them.
///
/// Its classes are `8, 16, ..., 2^(m - 1)` for a configured exponent `m`,
/// plus a chain for the empty sentinel.
#[verifier::reject_recursive_types(T)]
pub struct ArrayPool<T: Send + Sync> {
    empty_chain: Arc<BufferChain<T>>,
    chunk_map: Vec<Arc<BufferChain<T>>>,
}

impl<T: Send + Sync> ArrayPool<T> {
    #[verifier::type_invariant]
    spec fn wf(&self) -> bool {
        &&& self.chunk_map@.len() >= 1
        &&& forall|i: int|
            0 <= i < self.chunk_map@.len() ==> (#[trigger] self.chunk_map@[i]).class()
                == class_size(i as nat)
    }

    /// Number of size classes, the empty one not counted.
    pub closed spec fn class_count(&self) -> nat {
        self.chunk_map@.len()
    }

    /// The largest class.
    pub open spec fn max_class(&self) -> nat {
        class_size((self.class_count() - 1) as nat)
    }

    /// A pool with classes `8` through `2^(max_power - 1)`; a `max_power`
    /// below four is refused.
    pub fn with_max_power(max_power: u8) -> (r: Result<Self, ArrayPoolError>)
        requires
            max_power >= 4 ==> pow2((max_power - 1) as nat) <= usize::MAX,
        ensures
            match r {
                Ok(pool) => max_power >= 4 && pool.class_count() == max_power - 3,
                Err(e) => max_power < 4 && e == ArrayPoolError::MaxPowerTooSmall,
            },
    {
        if max_power < 4 {
            return Err(ArrayPoolError::MaxPowerTooSmall);
        }
        let mut map: Vec<Arc<BufferChain<T>>> = Vec::new();
        let mut x: u8 = 3;
        while x < max_power
            invariant
                3 <= x <= max_power,
                pow2((max_power - 1) as nat) <= usize::MAX,
                map@.len() == x - 3,
                forall|i: int| 0 <= i < map@.len() ==> (#[trigger] map@[i]).class() == class_size(i as nat),
            decreases max_power - x,
        {
            proof {
                if x < max_power - 1 {
                    lemma_pow2_strictly_increases(x as nat, (max_power - 1) as nat);
                }
            }
            map.push(BufferChain::new(x));
            x = x + 1;
        }
        proof {
            lemma2_to64();
        }
        Ok(ArrayPool { empty_chain: BufferChain::new(0), chunk_map: map })
    }

    /// A pool with classes `8` through `64`.
    pub fn new() -> (r: Self)
        ensures
            r.class_count() == 4,
    {
        proof {
            lemma2_to64();
        }
        Self::with_max_power(7).unwrap()
    }

    /// The number of the smallest class that holds `minimum_capacity`
    /// elements, if any does.
    fn get_chain(&self, minimum_capacity: usize) -> (r: Option<usize>)
        ensures
            match r {
                Some(i) => is_least(self.class_count(), minimum_capacity as nat, i as nat) && routes(
                    self.class_count(),
                    minimum_capacity as nat,
                    class_size(i as nat),
                ),
                None => minimum_capacity > self.max_class(),
            },
    {
        proof {
            use_type_invariant(self);
        }
        let n = self.chunk_map.len();
        let mut i: usize = 0;
        while i < n
            invariant
                i <= n,
                n == self.chunk_map@.len(),
                n >= 1,
                forall|j: int|
                    0 <= j < n ==> (#[trigger] self.chunk_map@[j]).class() == class_size(j as nat),
                forall|j: nat| j < i ==> minimum_capacity > #[trigger] class_size(j),
            decreases n - i,
        {
            if minimum_capacity <= self.chunk_map[i].class_size() {
                proof {
                    let c = class_size(i as nat);
                    if i > 0 {
                        assert(minimum_capacity > class_size((i - 1) as nat));
                    }
                    assert(is_least(n as nat, minimum_capacity as nat, i as nat));
                    assert(routes(n as nat, minimum_capacity as nat, c));
                }
                return Some(i);
            }
            i = i + 1;
        }
        proof {
            assert(minimum_capacity > class_size((n - 1) as nat));
        }
        None
    }

    /// A handle over the smallest class that holds `minimum_capacity`
    /// elements, every slot filled by `fabricator`; an error when no class is
    /// large enough.
    pub fn rent_with<F: Fn() -> T>(&self, minimum_capacity: usize, fabricator: &F) -> (r: Result<
        BorrowingSlice<T>,
        ArrayPoolError,
    >)
        requires
            fabricator.requires(()),
        ensures
            match r {
                Ok(h) => routes(self.class_count(), minimum_capacity as nat, h@.len()) && all_filled(
                    h@,
                ) && made_by(fabricator, h@),
                Err(e) => minimum_capacity > self.max_class() && e
                    == ArrayPoolError::MaxChunkSizeNotSufficient,
            },
    {
        proof {
            use_type_invariant(self);
        }
        if let Some(i) = self.get_chain(minimum_capacity) {
            return Ok(self.chunk_map[i].rent_with(fabricator));
        }
        Err(ArrayPoolError::MaxChunkSizeNotSufficient)
    }

    /// A handle over the smallest class that holds `minimum_capacity`
    /// elements, every slot unwritten; an error when no class is large enough.
    pub fn rent_or_create_uninitialized(&self, minimum_capacity: usize) -> (r: Result<
        BorrowingSlice<T>,
        ArrayPoolError,
    >)
        ensures
            match r {
                Ok(h) => routes(self.class_count(), minimum_capacity as nat, h@.len()) && all_vacant(
                    h@,
                ),
                Err(e) => minimum_capacity > self.max_class() && e
                    == ArrayPoolError::MaxChunkSizeNotSufficient,
            },
    {
        proof {
            use_type_invariant(self);
        }
        if let Some(i) = self.get_chain(minimum_capacity) {
            return Ok(self.chunk_map[i].rent_or_create_uninitialized());
        }
        Err(ArrayPoolError::MaxChunkSizeNotSufficient)
    }

    /// A handle over the smallest class, every slot filled by `fabricator`.
    pub fn rent_minimum_with<F: Fn() -> T>(&self, fabricator: &F) -> (r: Result<
        BorrowingSlice<T>,
        ArrayPoolError,
    >)
        requires
            fabricator.requires(()),
        ensures
            r matches Ok(h) && h@.len() == class_size(0) && all_filled(h@) && made_by(fabricator, h@),
    {
        proof {
            use_type_invariant(self);
        }
        Ok(self.chunk_map[0].rent_with(fabricator))
    }

    /// A handle over the smallest class, every slot unwritten.
    pub fn rent_or_create_minimum_uninitialized(&self) -> (r: Result<BorrowingSlice<T>, ArrayPoolError>)
        ensures
            r matches Ok(h) && h@.len() == class_size(0) && all_vacant(h@),
            self.class_count() >= 1,
    {
        proof {
            use_type_invariant(self);
        }
        Ok(self.chunk_map[0].rent_or_create_uninitialized())
    }

    /// A handle over the empty sentinel; releasing it does nothing.
    pub fn rent_empty(&self) -> (r: BorrowingSlice<T>)
        ensures
            r@.len() == 0,
    {
        BorrowingSlice { array: Vec::new(), chain: self.empty_chain.clone() }
    }

    /// The smallest class.
    pub fn min_size(&self) -> (r: usize)
        ensures
            r == class_size(0),
    {
        proof {
            use_type_invariant(self);
        }
        self.chunk_map[0].class_size()
    }

    /// The largest class.
    pub fn max_size(&self) -> (r: usize)
        ensures
            r == self.max_class(),
    {
        proof {
            use_type_invariant(self);
        }
        self.chunk_map[self.chunk_map.len() - 1].class_size()
    }

    /// Moves the first `count` slots of `from` into the unwritten front of
    /// `to`, leaving them unwritten in `from`.
    fn move_front(from: &mut BorrowingSlice<T>, to: &mut BorrowingSlice<T>, count: usize)
        requires
            count <= old(from)@.len(),
            count <= old(to)@.len(),
            forall|j: int| 0 <= j < count ==> (#[trigger] old(to)@[j]) is None,
        ensures
            final(from)@.len() == old(from)@.len(),
            final(to)@.len() == old(to)@.len(),
            final(to)@.subrange(0, count as int) == old(from)@.subrange(0, count as int),
            final(to)@.subrange(count as int, final(to)@.len() as int) == old(to)@.subrange(
                count as int,
                old(to)@.len() as int,
            ),
            forall|j: int| 0 <= j < count ==> (#[trigger] final(from)@[j]) is None,
            final(from)@.subrange(count as int, final(from)@.len() as int) == old(from)@.subrange(
                count as int,
                old(from)@.len() as int,
            ),
    {
        let mut i: usize = 0;
        while i < count
            invariant
                i <= count,
                count <= from@.len(),
                count <= to@.len(),
                from@.len() == old(from)@.len(),
                to@.len() == old(to)@.len(),
                forall|j: int| 0 <= j < i ==> to@[j] == old(from)@[j],
                forall|j: int| i <= j < to@.len() ==> to@[j] == old(to)@[j],
                forall|j: int| 0 <= j < i ==> (#[trigger] from@[j]) is None,
                forall|j: int| i <= j < from@.len() ==> from@[j] == old(from)@[j],
            decreases count - i,
        {
            let slot = from.take(i);
            to.put(i, slot);
            i = i + 1;
        }
        assert(to@.subrange(0, count as int) =~= old(from)@.subrange(0, count as int));
        assert(to@.subrange(count as int, to@.len() as int) =~= old(to)@.subrange(
            count as int,
            old(to)@.len() as int,
        ));
        assert(from@.subrange(count as int, from@.len() as int) =~= old(from)@.subrange(
            count as int,
            old(from)@.len() as int,
        ));
    }

    /// Moves the contents of `old_buffer` to the front of a handle twice its
    /// capacity (the smallest class holding that much), whose other slots are
    /// unwritten, and releases the emptied old buffer. When no class is large
    /// enough the old buffer is released and an error returned.
    pub fn expand_buffer(&self, old_buffer: BorrowingSlice<T>) -> (r: Result<
        BorrowingSlice<T>,
        ArrayPoolError,
    >)
        ensures
            match r {
                Ok(h) => {
                    &&& routes(self.class_count(), 2 * old_buffer@.len(), h@.len())
                    &&& h@.subrange(0, old_buffer@.len() as int) == old_buffer@
                    &&& forall|j: int| old_buffer@.len() <= j < h@.len() ==> (#[trigger] h@[j]) is None
                },
                Err(e) => 2 * old_buffer@.len() > self.max_class() && e
                    == ArrayPoolError::MaxChunkSizeNotSufficient,
            },
            (exists|i: nat| i + 1 < self.class_count() && old_buffer@.len() == #[trigger] class_size(i))
                ==> (r matches Ok(h) && h@.len() == 2 * old_buffer@.len()),
    {
        proof {
            use_type_invariant(self);
        }
        let mut old_buffer = old_buffer;
        let old_size = old_buffer.len();
        let ghost n = self.class_count();
        let ghost doubles = exists|i: nat| i + 1 < n && old_size == #[trigger] class_size(i);
        proof {
            if doubles {
                let i = choose|i: nat| i + 1 < n && old_size == #[trigger] class_size(i);
                lemma_double_class(n, i);
            }
        }
        if old_size > usize::MAX / 2 {
            proof {
                let last = (self.chunk_map@.len() - 1) as int;
                assert(self.chunk_map@[last].class() == class_size(last as nat));
            }
            old_buffer.release();
            return Err(ArrayPoolError::MaxChunkSizeNotSufficient);
        }
        match self.rent_or_create_uninitialized(old_size * 2) {
            Ok(new_buffer) => {
                let mut new_buffer = new_buffer;
                let ghost old_view = old_buffer@;
                Self::move_front(&mut old_buffer, &mut new_buffer, old_size);
                proof {
                    assert forall|j: int| old_size <= j < new_buffer@.len() implies (#[trigger] new_buffer@[j]) is None by {
                        assert(new_buffer@[j] == new_buffer@.subrange(old_size as int, new_buffer@.len() as int)[j - old_size]);
                    }
                    assert(old_view.subrange(0, old_size as int) =~= old_view);
                    if doubles {
                        let i = choose|i: nat| i + 1 < n && old_size == #[trigger] class_size(i);
                        lemma_double_class(n, i);
                        lemma_routing_is_unique(n, 2 * old_size as nat, new_buffer@.len(), class_size(i + 1));
                    }
                }
                old_buffer.release();
                Ok(new_buffer)
            },
            Err(e) => {
                old_buffer.release();
                Err(e)
            },
        }
    }

    /// Moves the first half of `old_buffer` to the front of a handle of the
    /// smallest class holding half its capacity, whose other slots are
    /// unwritten, and releases the old buffer with what it still holds. When
    /// no class is both that large and smaller than the old buffer, hands the
    /// old buffer back unchanged.
    pub fn shrink_buffer(&self, old_buffer: BorrowingSlice<T>) -> (r: BorrowingSlice<T>)
        ensures
            shrinkable(self.class_count(), old_buffer@.len()) ==> {
                let half = old_buffer@.len() / 2;
                &&& routes(self.class_count(), half, r@.len())
                &&& r@.subrange(0, half as int) == old_buffer@.subrange(0, half as int)
                &&& forall|j: int| half <= j < r@.len() ==> (#[trigger] r@[j]) is None
            },
            !shrinkable(self.class_count(), old_buffer@.len()) ==> r@ == old_buffer@,
            (exists|i: nat| 0 < i < self.class_count() && old_buffer@.len() == #[trigger] class_size(i))
                ==> r@.len() == old_buffer@.len() / 2,
    {
        proof {
            use_type_invariant(self);
        }
        let mut old_buffer = old_buffer;
        let old_size = old_buffer.len();
        let new_size = old_size / 2;
        let ghost n = self.class_count();
        let ghost halves = exists|k: nat| 0 < k < n && old_size == #[trigger] class_size(k);
        proof {
            if halves {
                let k = choose|k: nat| 0 < k < n && old_size == #[trigger] class_size(k);
                lemma_half_class(n, k);
            }
        }
        match self.get_chain(new_size) {
            Some(i) => {
                if self.chunk_map[i].class_size() < old_size {
                    let mut new_buffer = self.chunk_map[i].rent_or_create_uninitialized();
                    proof {
                        assert(shrinkable(n, old_size as nat)) by {
                            assert(i < n && new_size <= class_size(i as nat) < old_size);
                        }
                    }
                    Self::move_front(&mut old_buffer, &mut new_buffer, new_size);
                    proof {
                        assert forall|j: int| new_size <= j < new_buffer@.len() implies (#[trigger] new_buffer@[j]) is None by {
                            assert(new_buffer@[j] == new_buffer@.subrange(new_size as int, new_buffer@.len() as int)[j - new_size]);
                        }
                    }
                    proof {
                        if halves {
                            let k = choose|k: nat| 0 < k < n && old_size == #[trigger] class_size(k);
                            lemma_half_class(n, k);
                            lemma_routing_is_unique(n, new_size as nat, new_buffer@.len(), class_size((k - 1) as nat));
                        }
                    }
                    old_buffer.release();
                    new_buffer
                } else {
                    proof {
                        if shrinkable(n, old_size as nat) {
                            let j = choose|j: nat| j < n && new_size <= #[trigger] class_size(j) < old_size;
                            if j < i {
                                if j < i - 1 {
                                    lemma_class_size_increases(j, (i - 1) as nat);
                                }
                            } else if j > i {
                                lemma_class_size_increases(i as nat, j);
                            }
                        }
                    }
                    old_buffer
                }
            },
            None => {
                proof {
                    if shrinkable(n, old_size as nat) {
                        let j = choose|j: nat| j < n && new_size <= #[trigger] class_size(j) < old_size;
                        if j < n - 1 {
                            lemma_class_size_increases(j, (n - 1) as nat);
                        }
                    }
                }
                old_buffer
            },
        }
    }

    /// The idle-buffer hint of the class that would serve `minimum_capacity`
    /// (zero when none would). It is approximate while other threads rent and
    /// release.
    pub fn idle_hint(&self, minimum_capacity: usize) -> usize {
        match self.get_chain(minimum_capacity) {
            Some(i) => self.chunk_map[i].chunk_count.load(Ordering::SeqCst),
            None => 0,
        }
    }
}

impl<T: Default + Send + Sync> ArrayPool<T> {
    /// A handle over the smallest class that holds `minimum_capacity`
    /// elements, every slot holding `T::default()`; an error when no class is
    /// large enough.
    pub fn rent(&self, minimum_capacity: usize) -> (r: Result<BorrowingSlice<T>, ArrayPoolError>)
        ensures
            match r {
                Ok(h) => routes(self.class_count(), minimum_capacity as nat, h@.len()) && all_filled(
                    h@,
                ) && all_default(h@),
                Err(e) => minimum_capacity > self.max_class() && e
                    == ArrayPoolError::MaxChunkSizeNotSufficient,
            },
    {
        self.rent_with(minimum_capacity, &T::default)
    }

    /// A handle over the smallest class, every slot holding `T::default()`.
    pub fn rent_minimum(&self) -> (r: Result<BorrowingSlice<T>, ArrayPoolError>)
        ensures
            r matches Ok(h) && h@.len() == class_size(0) && all_filled(h@) && all_default(h@),
    {
        self.rent_minimum_with(&T::default)
    }
}

} // verus!
