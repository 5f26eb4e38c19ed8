use vstd::prelude::*;
use crate::count::{
    occupied, count_all, lemma_count_all_nonempty, nonempty_chunks, count_some, lemma_count_all_bound, lemma_count_all_push, lemma_count_all_update,
    lemma_count_some_bound, lemma_count_some_push, lemma_count_some_update,
};

verus! {

/// The number of slots in each chunk.
pub const CHUNK_SIZE: usize = 1024;

/// One slot: a stored value, or a link to the next free slot.
#[derive(Clone)]
enum Entry<T> {
    Occupied(T),
    Vacant(usize),
}

spec fn slot_of<T>(e: Entry<T>) -> Option<T> {
    match e {
        Entry::Occupied(v) => Some(v),
        Entry::Vacant(_) => None,
    }
}

/// A block of `CHUNK_SIZE` slots.
///
/// Its storage is reserved at full size when the chunk is made and the chunk
/// never holds more than `CHUNK_SIZE` entries, so the storage is never
/// reallocated and a stored value keeps its address.
struct Chunk<T> {
    entries: Vec<Entry<T>>,
    len: usize,
}

impl<T> Chunk<T> {
    spec fn view(&self) -> Seq<Option<T>> {
        self.entries@.map_values(|e: Entry<T>| slot_of(e))
    }

    spec fn wf(&self) -> bool {
        &&& self.entries@.len() <= CHUNK_SIZE
        &&& self.len == count_some(self.view())
    }

    fn new() -> (c: Self)
        ensures
            c.entries@.len() == 0,
            c.len == 0,
            c.wf(),
    {
        let c = Chunk { entries: Vec::with_capacity(CHUNK_SIZE), len: 0 };
        assert(c.view() =~= Seq::<Option<T>>::empty());
        c
    }
}

impl<T: Clone> Clone for Chunk<T> {
    /// A copy whose storage is reserved at full size as well, so that the
    /// values later stored in the copy do not move either.
    fn clone(&self) -> (c: Self) {
        let mut entries: Vec<Entry<T>> = Vec::with_capacity(CHUNK_SIZE);
        let mut i: usize = 0;
        while i < self.entries.len()
            decreases self.entries@.len() - i,
        {
            entries.push(self.entries[i].clone());
            i += 1;
        }
        Chunk { entries, len: self.len }
    }
}

spec fn views_of<T>(cs: Seq<Chunk<T>>) -> Seq<Seq<Option<T>>> {
    Seq::new(cs.len(), |i: int| cs[i].view())
}

/// A pool of values addressed by integer keys.
///
/// Key `k` names slot `k % CHUNK_SIZE` of chunk `k / CHUNK_SIZE`. Chunks are
/// added at the end as insertions need them; a stored value is never moved
/// until it is removed.
#[derive(Clone)]
pub struct Slab<T> {
    chunks: Vec<Chunk<T>>,
    len: usize,
    next: usize,
    free: Ghost<Seq<usize>>,
}

/// The chunk that a key addresses.
pub open spec fn chunk_index(key: int) -> int {
    key / (CHUNK_SIZE as int)
}

/// The slot within its chunk that a key addresses.
pub open spec fn slot_index(key: int) -> int {
    key % (CHUNK_SIZE as int)
}

impl<T> Slab<T> {
    /// The slots of each chunk in order: `Some(v)` for a stored value, `None`
    /// for a free slot. Slots past the last one ever used are not listed.
    pub closed spec fn chunks_view(&self) -> Seq<Seq<Option<T>>> {
        views_of(self.chunks@)
    }

    /// The free slots, in the order in which insertions will take them.
    pub closed spec fn free_keys(&self) -> Seq<usize> {
        self.free@
    }

    /// The value stored under `key`, if any.
    pub open spec fn value_at(&self, key: int) -> Option<T> {
        let cv = self.chunks_view();
        if 0 <= key && chunk_index(key) < cv.len() && slot_index(key) < cv[chunk_index(key)].len() {
            cv[chunk_index(key)][slot_index(key)]
        } else {
            None
        }
    }

    pub open spec fn contains_key(&self, key: int) -> bool {
        self.value_at(key) is Some
    }

    /// One past the last slot ever used in the last chunk: where the pool
    /// grows once no free slot is left.
    pub open spec fn boundary(&self) -> nat {
        let cv = self.chunks_view();
        if cv.len() == 0 {
            0
        } else {
            ((cv.len() - 1) * CHUNK_SIZE + cv.last().len()) as nat
        }
    }

    /// The key that the next insertion will use.
    pub open spec fn next_key(&self) -> nat {
        if self.free_keys().len() > 0 {
            self.free_keys()[0] as nat
        } else {
            self.boundary()
        }
    }

    pub open spec fn spec_len(&self) -> nat {
        count_all(self.chunks_view())
    }

    pub open spec fn spec_capacity(&self) -> nat {
        (self.chunks_view().len() * CHUNK_SIZE) as nat
    }

    /// What storing `v` does to a pool: it goes under `key`, the key that
    /// the pool hands out next, and nothing else changes but the free list
    /// and the size. A free slot is taken from the front of the free list;
    /// where none is left the pool grows by one slot, and by a chunk where
    /// its last chunk is full.
    pub open spec fn inserts(self, after: Self, key: usize, v: T) -> bool {
        &&& key == self.next_key()
        &&& self.value_at(key as int) is None
        &&& after.value_at(key as int) == Some(v)
        &&& forall|k: int| k != key ==> #[trigger] after.value_at(k) == self.value_at(k)
        &&& after.spec_len() == self.spec_len() + 1
        &&& self.free_keys().len() > 0 ==> {
            &&& after.free_keys() == self.free_keys().drop_first()
            &&& after.boundary() == self.boundary()
            &&& after.spec_capacity() == self.spec_capacity()
        }
        &&& self.free_keys().len() == 0 ==> {
            &&& after.free_keys().len() == 0
            &&& after.boundary() == self.boundary() + 1
            &&& after.spec_capacity() == if self.boundary() == self.spec_capacity() {
                self.spec_capacity() + CHUNK_SIZE
            } else {
                self.spec_capacity() as int
            }
        }
    }

    /// What removing the value `v` under `key` does to a pool: the slot is
    /// freed and goes to the front of the free list; nothing else changes
    /// but the size.
    pub open spec fn removes(self, after: Self, key: usize, v: T) -> bool {
        &&& self.value_at(key as int) == Some(v)
        &&& after.value_at(key as int) is None
        &&& forall|k: int| k != key ==> #[trigger] after.value_at(k) == self.value_at(k)
        &&& after.free_keys() == seq![key].add(self.free_keys())
        &&& after.chunks_view() == self.chunks_view().update(
            chunk_index(key as int),
            self.chunks_view()[chunk_index(key as int)].update(slot_index(key as int), None),
        )
        &&& after.boundary() == self.boundary()
        &&& after.spec_capacity() == self.spec_capacity()
        &&& after.spec_len() + 1 == self.spec_len()
    }

    spec fn entry_at(&self, key: int) -> Entry<T> {
        self.chunks@[chunk_index(key)].entries@[slot_index(key)]
    }

    spec fn link_after(&self, i: int) -> usize {
        if i + 1 < self.free@.len() {
            self.free@[i + 1]
        } else {
            self.boundary() as usize
        }
    }

    /// Full chunks but the last, which holds at least one slot, and
    /// counters that match the slots.
    spec fn shape_ok(&self) -> bool {
        let n = self.chunks@.len();
        &&& n * CHUNK_SIZE <= usize::MAX
        &&& forall|i: int| 0 <= i < n ==> (#[trigger] self.chunks@[i]).wf()
        &&& forall|i: int| 0 <= i < n - 1 ==> (#[trigger] self.chunks@[i]).entries@.len() == CHUNK_SIZE
        &&& n > 0 ==> self.chunks@[n - 1].entries@.len() > 0
        &&& self.len == count_all(self.chunks_view())
    }

    /// The free list, as far as it covers the keys from `p` on: each listed
    /// slot once, each free slot from `p` on listed, each linking to the
    /// next one, the last to the growth boundary, and `next` at its head.
    spec fn free_from(&self, p: int) -> bool {
        &&& self.free@.no_duplicates()
        &&& forall|i: int| 0 <= i < self.free@.len()
            ==> p <= #[trigger] self.free@[i] < self.boundary()
        &&& forall|i: int| 0 <= i < self.free@.len()
            ==> self.entry_at(#[trigger] self.free@[i] as int) == Entry::<T>::Vacant(self.link_after(i))
        &&& forall|k: int| p <= k < self.boundary() && #[trigger] self.value_at(k) is None
            ==> self.free@.contains(k as usize)
        &&& self.next == self.next_key()
    }

    /// The pool's internal consistency: full chunks but the last, counters
    /// that match the slots, and a free list that runs through every free
    /// slot once and ends at the growth boundary.
    pub closed spec fn wf(&self) -> bool {
        &&& self.shape_ok()
        &&& self.free_from(0)
        &&& self.len + self.free@.len() == self.boundary()
    }

    /// The number of keys below `m` that hold a value.
    spec fn occ_below(&self, m: nat) -> nat
        decreases m,
    {
        if m == 0 {
            0
        } else {
            self.occ_below((m - 1) as nat) + occupied(self.value_at(m - 1))
        }
    }

    /// Counting key by key up to slot `s` of chunk `c` agrees with counting
    /// chunk by chunk.
    proof fn lemma_occ_below_parts(&self, c: int, s: int)
        requires
            self.shape_ok(),
            0 <= c < self.chunks@.len(),
            0 <= s <= self.chunks_view()[c].len(),
        ensures
            self.occ_below((c * CHUNK_SIZE + s) as nat)
                == count_all(self.chunks_view().subrange(0, c)) + count_some(self.chunks_view()[c].subrange(0, s)),
        decreases c, s,
    {
        let cv = self.chunks_view();
        assert(cv[c] == self.chunks@[c].view());
        assert(self.chunks@[c].wf());
        if s > 0 {
            self.lemma_occ_below_parts(c, s - 1);
            Self::lemma_key_parts(c, s - 1);
            assert(cv[c].subrange(0, s).drop_last() =~= cv[c].subrange(0, s - 1));
            assert(cv[c].subrange(0, s).last() == cv[c][s - 1]);
        } else if c > 0 {
            assert(cv[c - 1] == self.chunks@[c - 1].view());
            assert(self.chunks@[c - 1].entries@.len() == CHUNK_SIZE);
            self.lemma_occ_below_parts(c - 1, CHUNK_SIZE as int);
            assert(cv[c - 1].subrange(0, CHUNK_SIZE as int) =~= cv[c - 1]);
            assert(cv.subrange(0, c).drop_last() =~= cv.subrange(0, c - 1));
            assert((c - 1) * CHUNK_SIZE + CHUNK_SIZE == c * CHUNK_SIZE) by (nonlinear_arith);
            assert(cv[c].subrange(0, 0) =~= Seq::<Option<T>>::empty());
        } else {
            assert(cv.subrange(0, 0) =~= Seq::<Seq<Option<T>>>::empty());
            assert(cv[c].subrange(0, 0) =~= Seq::<Option<T>>::empty());
        }
    }

    /// Counting the keys below the growth boundary gives the number of
    /// stored values.
    proof fn lemma_occ_below_boundary(&self)
        requires
            self.shape_ok(),
        ensures
            self.occ_below(self.boundary()) == count_all(self.chunks_view()),
    {
        let cv = self.chunks_view();
        let n = cv.len();
        if n > 0 {
            assert(cv.last() == self.chunks@[n - 1].view());
            self.lemma_occ_below_parts(n - 1, cv[n - 1].len() as int);
            assert(cv[n - 1].subrange(0, cv[n - 1].len() as int) =~= cv[n - 1]);
            assert(cv.subrange(0, n - 1) =~= cv.drop_last());
        }
    }

    proof fn lemma_key_in_bounds(&self, key: int)
        requires
            self.shape_ok(),
            0 <= key < self.boundary(),
        ensures
            chunk_index(key) < self.chunks@.len(),
            0 <= slot_index(key) < self.chunks@[chunk_index(key)].entries@.len(),
            self.value_at(key) == slot_of(self.entry_at(key)),
    {
        let n = self.chunks@.len();
        assert(self.chunks_view()[n - 1] == self.chunks@[n - 1].view());
        if chunk_index(key) < n - 1 {
            assert(self.chunks@[chunk_index(key)].entries@.len() == CHUNK_SIZE);
        }
        assert(self.chunks_view()[chunk_index(key)] == self.chunks@[chunk_index(key)].view());
    }

    /// Two different keys address different slots.
    proof fn lemma_keys_apart(k1: int, k2: int)
        requires
            0 <= k1,
            0 <= k2,
            k1 != k2,
        ensures
            chunk_index(k1) != chunk_index(k2) || slot_index(k1) != slot_index(k2),
    {
    }

    /// Writing one slot below the boundary changes that slot alone.
    #[verifier::spinoff_prover]
    #[verifier::rlimit(60)]
    proof fn lemma_write_slot(o: Self, n: Self, key: int, e: Entry<T>)
        requires
            o.shape_ok(),
            0 <= key < o.boundary(),
            n.chunks@.len() == o.chunks@.len(),
            forall|i: int| 0 <= i < n.chunks@.len() && i != chunk_index(key)
                ==> #[trigger] n.chunks@[i] == o.chunks@[i],
            n.chunks@[chunk_index(key)].entries@
                == o.chunks@[chunk_index(key)].entries@.update(slot_index(key), e),
        ensures
            n.boundary() == o.boundary(),
            n.spec_capacity() == o.spec_capacity(),
            n.entry_at(key) == e,
            n.value_at(key) == slot_of(e),
            forall|k: int| k != key ==> #[trigger] n.value_at(k) == o.value_at(k),
            forall|k: int| 0 <= k < o.boundary() && k != key ==> #[trigger] n.entry_at(k) == o.entry_at(k),
            forall|i: int| 0 <= i < n.chunks@.len() ==> (#[trigger] n.chunks@[i]).entries@.len() == o.chunks@[i].entries@.len(),
    {
        o.lemma_key_in_bounds(key);
        let c = chunk_index(key);
        let nn = n.chunks@.len();
        assert(n.chunks_view().len() == o.chunks_view().len());
        assert forall|i: int| 0 <= i < nn implies (#[trigger] n.chunks@[i]).entries@.len() == o.chunks@[i].entries@.len() by {
        }
        assert(n.chunks_view().last() =~= n.chunks@[nn - 1].view());
        assert(o.chunks_view().last() =~= o.chunks@[nn - 1].view());
        assert(n.chunks_view()[c] == n.chunks@[c].view());
        assert forall|k: int| k != key implies #[trigger] n.value_at(k) == o.value_at(k) by {
            if 0 <= k && chunk_index(k) < nn {
                assert(n.chunks_view()[chunk_index(k)] == n.chunks@[chunk_index(k)].view());
                assert(o.chunks_view()[chunk_index(k)] == o.chunks@[chunk_index(k)].view());
                Self::lemma_keys_apart(k, key);
            }
        }
        assert forall|k: int| 0 <= k < o.boundary() && k != key implies #[trigger] n.entry_at(k) == o.entry_at(k) by {
            o.lemma_key_in_bounds(k);
            Self::lemma_keys_apart(k, key);
        }
    }

    /// After an insertion into the slot at the head of the free list, the
    /// pool is consistent again and the head has left the free list.
    #[verifier::rlimit(60)]
    proof fn lemma_insert_reuse(o: Self, n: Self, key: int, val: T)
        requires
            o.wf(),
            o.free@.len() > 0,
            key == o.free@[0],
            n.chunks@.len() == o.chunks@.len(),
            forall|i: int| 0 <= i < n.chunks@.len() && i != chunk_index(key)
                ==> #[trigger] n.chunks@[i] == o.chunks@[i],
            n.chunks@[chunk_index(key)].entries@
                == o.chunks@[chunk_index(key)].entries@.update(slot_index(key), Entry::Occupied(val)),
            n.chunks@[chunk_index(key)].wf(),
            n.len == count_all(n.chunks_view()),
            n.len == o.len + 1,
            n.free@ == o.free@.drop_first(),
            n.next == o.link_after(0),
        ensures
            n.wf(),
            n.boundary() == o.boundary(),
            n.spec_capacity() == o.spec_capacity(),
            o.value_at(key) is None,
            n.value_at(key) == Some(val),
            forall|k: int| k != key ==> #[trigger] n.value_at(k) == o.value_at(k),
    {
        Self::lemma_write_slot(o, n, key, Entry::Occupied(val));
        o.lemma_key_in_bounds(key);
        let of = o.free@;
        let nf = n.free@;
        assert forall|i: int| 0 <= i < nf.len() implies #[trigger] nf[i] != key by {
            assert(nf[i] == of[i + 1]);
        }
        assert forall|i: int| 0 <= i < nf.len()
            implies n.entry_at(#[trigger] nf[i] as int) == Entry::<T>::Vacant(n.link_after(i)) by {
            assert(nf[i] == of[i + 1]);
            assert(o.entry_at(of[i + 1] as int) == Entry::<T>::Vacant(o.link_after(i + 1)));
        }
        assert forall|k: int| 0 <= k < n.boundary() && #[trigger] n.value_at(k) is None
            implies nf.contains(k as usize) by {
            assert(o.value_at(k) is None);
            let j = choose|j: int| 0 <= j < of.len() && of[j] == k as usize;
            assert(j != 0);
            assert(nf[j - 1] == k as usize);
        }
        assert(nf.no_duplicates()) by {
            assert forall|i: int, j: int| 0 <= i < j < nf.len() implies nf[i] != nf[j] by {
                assert(nf[i] == of[i + 1]);
                assert(nf[j] == of[j + 1]);
            }
        }
        assert forall|i: int| 0 <= i < n.chunks@.len() implies (#[trigger] n.chunks@[i]).wf() by {
            if i != chunk_index(key) {
                assert(n.chunks@[i] == o.chunks@[i]);
            }
        }
    }

    /// After an insertion at the growth boundary, the pool is consistent
    /// again and has grown by one slot.
    #[verifier::rlimit(60)]
    proof fn lemma_insert_grow(o: Self, n: Self, val: T)
        requires
            o.wf(),
            o.free@.len() == 0,
            o.boundary() < o.spec_capacity() || o.spec_capacity() + CHUNK_SIZE <= usize::MAX,
            ({
                let b = o.boundary() as int;
                let c = chunk_index(b);
                &&& c == o.chunks@.len() ==> n.chunks@.len() == c + 1 && n.chunks@[c].entries@ == seq![Entry::Occupied(val)]
                &&& c < o.chunks@.len() ==> n.chunks@.len() == o.chunks@.len()
                    && n.chunks@[c].entries@ == o.chunks@[c].entries@.push(Entry::Occupied(val))
                &&& forall|i: int| 0 <= i < o.chunks@.len() && i != c ==> #[trigger] n.chunks@[i] == o.chunks@[i]
                &&& n.chunks@[c].wf()
            }),
            n.len == count_all(n.chunks_view()),
            n.len == o.len + 1,
            n.free@ == o.free@,
            n.next == o.boundary() + 1,
        ensures
            n.wf(),
            n.boundary() == o.boundary() + 1,
            n.spec_capacity() == if o.boundary() == o.spec_capacity() {
                o.spec_capacity() + CHUNK_SIZE
            } else {
                o.spec_capacity() as int
            },
            o.value_at(o.boundary() as int) is None,
            n.value_at(o.boundary() as int) == Some(val),
            forall|k: int| k != o.boundary() ==> #[trigger] n.value_at(k) == o.value_at(k),
    {
        let b = o.boundary() as int;
        let c = chunk_index(b);
        let on = o.chunks@.len();
        let nn = n.chunks@.len();
        if on > 0 {
            assert(o.chunks_view().last() =~= o.chunks@[on - 1].view());
        }
        assert(n.chunks_view().last() =~= n.chunks@[nn - 1].view());
        assert(c == nn - 1);
        assert(n.chunks_view()[c] == n.chunks@[c].view());
        assert forall|i: int| 0 <= i < nn implies (#[trigger] n.chunks@[i]).wf() by {
            if i != c {
                assert(n.chunks@[i] == o.chunks@[i]);
            }
        }
        assert forall|k: int| k != b implies #[trigger] n.value_at(k) == o.value_at(k) by {
            if 0 <= k && chunk_index(k) < nn {
                assert(n.chunks_view()[chunk_index(k)] == n.chunks@[chunk_index(k)].view());
                if chunk_index(k) < on {
                    assert(o.chunks_view()[chunk_index(k)] == o.chunks@[chunk_index(k)].view());
                }
            }
        }
        assert forall|k: int| 0 <= k < n.boundary() && #[trigger] n.value_at(k) is None
            implies n.free@.contains(k as usize) by {
            assert(o.value_at(k) is None);
        }
    }

    /// Stores `val` under the key `next_key()` and returns that key with a
    /// reference to the stored value. The key is the most recently freed one
    /// where a slot is free; otherwise the pool grows by one slot, and by a
    /// new chunk of `CHUNK_SIZE` slots where the last chunk is full. A new
    /// chunk must leave the capacity within `usize`.
    pub fn insert(&mut self, val: T) -> (r: (usize, &T))
        requires
            old(self).wf(),
            old(self).free_keys().len() > 0 || old(self).boundary() < old(self).spec_capacity()
                || old(self).spec_capacity() + CHUNK_SIZE <= usize::MAX,
        ensures
            final(self).wf(),
            *r.1 == val,
            old(self).inserts(*final(self), r.0, val),
    {
        let key = self.next;
        (key, self.insert_at(key, val))
    }

    #[verifier::spinoff_prover]
    #[verifier::rlimit(60)]
    fn insert_at(&mut self, key: usize, val: T) -> (r: &T)
        requires
            old(self).wf(),
            key == old(self).next_key(),
            old(self).free_keys().len() > 0 || old(self).boundary() < old(self).spec_capacity()
                || old(self).spec_capacity() + CHUNK_SIZE <= usize::MAX,
        ensures
            final(self).wf(),
            *r == val,
            old(self).inserts(*final(self), key, val),
    {
        let c = key / CHUNK_SIZE;
        let s = key % CHUNK_SIZE;
        let ghost gval = val;
        let ghost cv0 = self.chunks_view();
        let ghost reuse = self.free@.len() > 0;
        let ghost n0 = self.chunks@.len();
        proof {
            if reuse {
                self.lemma_key_in_bounds(key as int);
                assert(self.free@[0] == key);
            } else {
                if n0 > 0 {
                    assert(cv0.last() == self.chunks@[n0 - 1].view());
                }
            }
        }
        if c == self.chunks.len() {
            self.chunks.push(Chunk::new());
            proof {
                assert(self.chunks@[n0 as int].view() =~= Seq::<Option<T>>::empty());
                assert(self.chunks_view() =~= cv0.push(Seq::<Option<T>>::empty()));
                lemma_count_all_push(cv0, Seq::<Option<T>>::empty());
            }
        }
        let ghost cv = self.chunks_view();
        let ghost ov = self.chunks@[c as int].view();
        let ghost mid = *self;
        proof {
            assert(cv[c as int] == ov);
            if !reuse {
                let b = old(self).boundary() as int;
                assert(key == b);
                if c < n0 {
                    assert(cv0.last() == self.chunks@[n0 - 1].view());
                    assert(c == n0 - 1);
                }
                assert(s == mid.chunks@[c as int].entries@.len());
            }
        }
        let mut link: usize = 0;
        let chunk = &mut self.chunks[c];
        if s == chunk.entries.len() {
            chunk.entries.push(Entry::Occupied(val));
            proof {
                assert(chunk.view() =~= ov.push(Some(gval)));
                lemma_count_some_push(ov, Some(gval));
            }
            link = key + 1;
        } else {
            let mut e = Entry::Occupied(val);
            std::mem::swap(&mut chunk.entries[s], &mut e);
            proof {
                assert(chunk.view() =~= ov.update(s as int, Some(gval)));
                lemma_count_some_update(ov, s as int, Some(gval));
            }
            // The slot was the head of the free list: its link is the new head.
            match e {
                Entry::Vacant(n) => {
                    link = n;
                },
                Entry::Occupied(_) => {},
            }
        }
        let ghost nv = chunk.view();
        proof {
            lemma_count_some_bound(nv);
        }
        chunk.len = chunk.len + 1;
        proof {
            assert(self.chunks_view() =~= cv.update(c as int, nv));
            lemma_count_all_update(cv, c as int, nv);
            lemma_count_all_bound(self.chunks_view(), CHUNK_SIZE as nat);
        }
        self.len = self.len + 1;
        self.next = link;
        self.free = Ghost(if reuse { self.free@.drop_first() } else { self.free@ });
        proof {
            assert(forall|i: int| 0 <= i < mid.chunks@.len() && i != c ==> #[trigger] self.chunks@[i] == mid.chunks@[i]);
            if !reuse {
                assert(self.chunks@[c as int].entries@ == mid.chunks@[c as int].entries@.push(Entry::Occupied(gval)));
                if c == n0 {
                    assert(self.chunks@[c as int].entries@ =~= seq![Entry::Occupied(gval)]);
                }
            }
            if reuse {
                Self::lemma_insert_reuse(*old(self), *self, key as int, gval);
            } else {
                Self::lemma_insert_grow(*old(self), *self, gval);
            }
        }
        match &self.chunks[c].entries[s] {
            Entry::Occupied(v) => v,
            Entry::Vacant(_) => vstd::pervasive::unreached(),
        }
    }

    /// Removes the value stored under `key` and returns it. The slot goes to
    /// the front of the free list, so the next insertion reuses `key`.
    #[verifier::rlimit(60)]
    pub fn remove(&mut self, key: usize) -> (r: T)
        requires
            old(self).wf(),
            old(self).contains_key(key as int),
        ensures
            final(self).wf(),
            old(self).removes(*final(self), key, r),
    {
        let c = key / CHUNK_SIZE;
        let s = key % CHUNK_SIZE;
        proof {
            self.lemma_key_in_bounds(key as int);
        }
        let ghost cv = self.chunks_view();
        let ghost ov = self.chunks@[c as int].view();
        let ghost nv = ov.update(s as int, None);
        proof {
            assert(cv[c as int] == ov);
            lemma_count_some_update(ov, s as int, None);
            lemma_count_all_update(cv, c as int, nv);
        }
        let mut e = Entry::Vacant(self.next);
        let chunk = &mut self.chunks[c];
        std::mem::swap(&mut chunk.entries[s], &mut e);
        chunk.len = chunk.len - 1;
        self.len = self.len - 1;
        self.next = key;
        self.free = Ghost(seq![key].add(self.free@));
        proof {
            assert(self.chunks@[c as int].view() =~= nv);
            assert(self.chunks_view() =~= cv.update(c as int, nv));
            let of = old(self).free@;
            assert forall|i: int| 0 <= i < of.len() implies of[i] != key by {
                old(self).lemma_key_in_bounds(of[i] as int);
            }
            assert forall|k: int| k != key implies #[trigger] self.value_at(k) == old(self).value_at(k) by {
                if 0 <= k {
                    Self::lemma_keys_apart(k, key as int);
                }
            }
            assert forall|i: int| 0 <= i < self.free@.len()
                implies self.entry_at(#[trigger] self.free@[i] as int) == Entry::<T>::Vacant(self.link_after(i)) by {
                if i > 0 {
                    assert(self.free@[i] == of[i - 1]);
                    Self::lemma_keys_apart(of[i - 1] as int, key as int);
                    old(self).lemma_key_in_bounds(of[i - 1] as int);
                }
            }
            assert forall|k: int| 0 <= k < self.boundary() && #[trigger] self.value_at(k) is None
                implies self.free@.contains(k as usize) by {
                if k != key {
                    assert(old(self).value_at(k) is None);
                    let j = choose|j: int| 0 <= j < of.len() && of[j] == k as usize;
                    assert(self.free@[j + 1] == k as usize);
                } else {
                    assert(self.free@[0] == k as usize);
                }
            }
            assert(self.free@.no_duplicates()) by {
                assert forall|i: int, j: int| 0 <= i < j < self.free@.len()
                    implies self.free@[i] != self.free@[j] by {
                    if i > 0 {
                        assert(self.free@[i] == of[i - 1]);
                    }
                    assert(self.free@[j] == of[j - 1]);
                }
            }
        }
        match e {
            Entry::Occupied(v) => v,
            Entry::Vacant(_) => vstd::pervasive::unreached(),
        }
    }

    /// Removes and returns the value under `key` where one is stored; where
    /// none is, returns `None` and leaves the pool exactly as it was.
    pub fn try_remove(&mut self, key: usize) -> (r: Option<T>)
        requires
            old(self).wf(),
        ensures
            final(self).wf(),
            r == old(self).value_at(key as int),
            r is None ==> *final(self) == *old(self),
            r matches Some(v) ==> old(self).removes(*final(self), key, v),
    {
        if self.contains(key) {
            Some(self.remove(key))
        } else {
            None
        }
    }

    /// Key `c * CHUNK_SIZE + s` addresses slot `s` of chunk `c`.
    pub proof fn lemma_key_parts(c: int, s: int)
        requires
            0 <= c,
            0 <= s < CHUNK_SIZE,
        ensures
            chunk_index(c * CHUNK_SIZE + s) == c,
            slot_index(c * CHUNK_SIZE + s) == s,
    {
        vstd::arithmetic::div_mod::lemma_fundamental_div_mod_converse(
            c * CHUNK_SIZE + s,
            CHUNK_SIZE as int,
            c,
            s,
        );
    }

    /// Storing a new value in an occupied slot changes that slot alone and
    /// keeps the pool consistent.
    #[verifier::spinoff_prover]
    #[verifier::rlimit(60)]
    proof fn lemma_overwrite(o: Self, n: Self, key: int, x: T)
        requires
            o.wf(),
            o.contains_key(key),
            n.chunks@.len() == o.chunks@.len(),
            forall|i: int| 0 <= i < n.chunks@.len() && i != chunk_index(key)
                ==> #[trigger] n.chunks@[i] == o.chunks@[i],
            n.chunks@[chunk_index(key)].entries@
                == o.chunks@[chunk_index(key)].entries@.update(slot_index(key), Entry::Occupied(x)),
            n.chunks@[chunk_index(key)].len == o.chunks@[chunk_index(key)].len,
            n.len == o.len,
            n.next == o.next,
            n.free == o.free,
        ensures
            n.wf(),
            n.value_at(key) == Some(x),
            forall|k: int| k != key ==> #[trigger] n.value_at(k) == o.value_at(k),
            n.free_keys() == o.free_keys(),
            n.boundary() == o.boundary(),
            n.spec_capacity() == o.spec_capacity(),
            n.spec_len() == o.spec_len(),
    {
        assert(0 <= key < o.boundary());
        o.lemma_key_in_bounds(key);
        Self::lemma_write_slot(o, n, key, Entry::Occupied(x));
        let c = chunk_index(key);
        let ov = o.chunks@[c].view();
        assert(n.chunks@[c].view() =~= ov.update(slot_index(key), Some(x)));
        crate::count::lemma_count_some_update(ov, slot_index(key), Some(x));
        assert(o.chunks_view()[c] == ov);
        assert(n.chunks_view() =~= o.chunks_view().update(c, n.chunks@[c].view()));
        lemma_count_all_update(o.chunks_view(), c, n.chunks@[c].view());
        assert forall|i: int| 0 <= i < n.chunks@.len() implies (#[trigger] n.chunks@[i]).wf() by {
            if i != c {
                assert(n.chunks@[i] == o.chunks@[i]);
            }
        }
        assert forall|i: int| 0 <= i < n.free@.len()
            implies n.entry_at(#[trigger] n.free@[i] as int) == Entry::<T>::Vacant(n.link_after(i)) by {
            o.lemma_key_in_bounds(o.free@[i] as int);
        }
        assert forall|k: int| 0 <= k < n.boundary() && #[trigger] n.value_at(k) is None
            implies n.free@.contains(k as usize) by {
            assert(o.value_at(k) is None);
        }
    }

    /// A mutable reference to the value stored under `key`, or `None` where
    /// the slot is free or does not exist.
    ///
    /// The caller must not move the value out of its slot (by `swap` or
    /// `replace`) while anything else points to it: that would break the
    /// promise that stored values stay where they are.
    #[verifier::spinoff_prover]
    #[verifier::rlimit(60)]
    pub fn get_mut(&mut self, key: usize) -> (r: Option<&mut T>)
        requires
            old(self).wf(),
        ensures
            match r {
                Some(v) => {
                    &&& old(self).value_at(key as int) == Some(*v)
                    &&& final(self).wf()
                    &&& final(self).value_at(key as int) == Some(*final(v))
                    &&& forall|k: int| k != key ==> #[trigger] final(self).value_at(k) == old(self).value_at(k)
                    &&& final(self).free_keys() == old(self).free_keys()
                    &&& final(self).boundary() == old(self).boundary()
                    &&& final(self).spec_capacity() == old(self).spec_capacity()
                    &&& final(self).spec_len() == old(self).spec_len()
                },
                None => {
                    &&& old(self).value_at(key as int) is None
                    &&& *final(self) == *old(self)
                },
            },
    {
        if !self.contains(key) {
            return None;
        }
        let c = key / CHUNK_SIZE;
        let s = key % CHUNK_SIZE;
        proof {
            assert(0 <= key < self.boundary());
            self.lemma_key_in_bounds(key as int);
        }
        let ghost o = *self;
        proof {
            assert forall|n: Self|
                n.chunks@.len() == o.chunks@.len()
                && (forall|i: int| 0 <= i < n.chunks@.len() && i != chunk_index(key as int)
                    ==> #[trigger] n.chunks@[i] == o.chunks@[i])
                && n.chunks@[c as int].entries@ == o.chunks@[c as int].entries@.update(
                    s as int, n.chunks@[c as int].entries@[s as int])
                && n.chunks@[c as int].entries@[s as int] is Occupied
                && n.chunks@[c as int].len == o.chunks@[c as int].len
                && n.len == o.len && n.next == o.next && n.free == o.free
                implies #[trigger] n.wf()
                && n.value_at(key as int) == Some(n.chunks@[c as int].entries@[s as int]->Occupied_0)
                && (forall|k: int| k != key ==> #[trigger] n.value_at(k) == o.value_at(k))
                && n.free_keys() == o.free_keys() && n.boundary() == o.boundary()
                && n.spec_capacity() == o.spec_capacity() && n.spec_len() == o.spec_len() by {
                Self::lemma_overwrite(o, n, key as int, n.chunks@[c as int].entries@[s as int]->Occupied_0);
            }
        }
        let chunk = &mut self.chunks[c];
        match &mut chunk.entries[s] {
            Entry::Occupied(v) => Some(v),
            Entry::Vacant(_) => vstd::pervasive::unreached(),
        }
    }

    /// The keys below `upto` that hold a value in `before` and none in
    /// `after`, highest first.
    pub open spec fn dropped_keys(before: Self, after: Self, upto: nat) -> Seq<usize>
        decreases upto,
    {
        if upto == 0 {
            Seq::empty()
        } else {
            let k = (upto - 1) as nat;
            let rest = Self::dropped_keys(before, after, k);
            if before.value_at(k as int) is Some && after.value_at(k as int) is None {
                seq![k as usize].add(rest)
            } else {
                rest
            }
        }
    }

    /// Only the keys below `upto` decide `dropped_keys`.
    proof fn lemma_dropped_keys_agree(before: Self, a1: Self, a2: Self, upto: nat)
        requires
            forall|k: int| 0 <= k < upto ==> #[trigger] a1.value_at(k) == a2.value_at(k),
        ensures
            Self::dropped_keys(before, a1, upto) == Self::dropped_keys(before, a2, upto),
        decreases upto,
    {
        if upto > 0 {
            Self::lemma_dropped_keys_agree(before, a1, a2, (upto - 1) as nat);
            assert(a1.value_at(upto - 1) == a2.value_at(upto - 1));
        }
    }

    /// Keys at which `before` held nothing add nothing to `dropped_keys`.
    proof fn lemma_dropped_keys_skip(before: Self, after: Self, lo: nat, hi: nat)
        requires
            lo <= hi,
            forall|k: int| lo <= k < hi ==> #[trigger] before.value_at(k) is None,
        ensures
            Self::dropped_keys(before, after, hi) == Self::dropped_keys(before, after, lo),
        decreases hi - lo,
    {
        if lo < hi {
            Self::lemma_dropped_keys_skip(before, after, lo, (hi - 1) as nat);
            assert(before.value_at(hi - 1) is None);
        }
    }

    /// One more value dropped by `retain`: its key joins the free list.
    proof fn lemma_free_after_drop(start: Self, before: Self, after: Self, key: usize)
        requires
            before.free_keys() == Self::dropped_keys(start, before, key as nat).add(start.free_keys()),
            before.removes(after, key, before.value_at(key as int)->Some_0),
            start.value_at(key as int) is Some,
        ensures
            after.free_keys() == Self::dropped_keys(start, after, (key + 1) as nat).add(start.free_keys()),
    {
        Self::lemma_dropped_keys_agree(start, before, after, key as nat);
        assert(Self::dropped_keys(start, after, (key + 1) as nat)
            == seq![key].add(Self::dropped_keys(start, after, key as nat)));
        assert(seq![key].add(Self::dropped_keys(start, before, key as nat)).add(start.free_keys())
            =~= seq![key].add(Self::dropped_keys(start, before, key as nat).add(start.free_keys())));
    }

    /// A key that `retain` keeps, or that was free, leaves the free list
    /// as it was.
    proof fn lemma_free_after_keep(start: Self, cur: Self, key: usize)
        requires
            cur.free_keys() == Self::dropped_keys(start, cur, key as nat).add(start.free_keys()),
            !(start.value_at(key as int) is Some && cur.value_at(key as int) is None),
        ensures
            cur.free_keys() == Self::dropped_keys(start, cur, (key + 1) as nat).add(start.free_keys()),
    {
        assert(Self::dropped_keys(start, cur, (key + 1) as nat) == Self::dropped_keys(start, cur, key as nat));
    }

    /// Keeps only the values for which `f(key, &value)` returns `true`,
    /// visiting keys in ascending order. Kept values keep their keys; each
    /// value dropped is removed as by `remove`, so the dropped keys head the
    /// free list afterwards, highest first.
    ///
    /// The predicate reads the values; to change them in the same pass, use
    /// `iter_mut`.
    #[verifier::rlimit(100)]
    pub fn retain<F: Fn(usize, &T) -> bool>(&mut self, f: F)
        requires
            old(self).wf(),
            forall|k: usize, v: &T| #[trigger] f.requires((k, v)),
        ensures
            final(self).wf(),
            final(self).boundary() == old(self).boundary(),
            final(self).spec_capacity() == old(self).spec_capacity(),
            forall|k: int| #[trigger] final(self).value_at(k) is Some
                ==> final(self).value_at(k) == old(self).value_at(k),
            forall|k: int| old(self).value_at(k) is Some && #[trigger] final(self).value_at(k) is Some
                ==> f.ensures((k as usize, &old(self).value_at(k)->Some_0), true),
            forall|k: int| old(self).value_at(k) is Some && #[trigger] final(self).value_at(k) is None
                ==> f.ensures((k as usize, &old(self).value_at(k)->Some_0), false),
            final(self).spec_len() + Self::dropped_keys(*old(self), *final(self), old(self).boundary()).len()
                == old(self).spec_len(),
            final(self).free_keys() == Self::dropped_keys(*old(self), *final(self), old(self).boundary())
                .add(old(self).free_keys()),
    {
        let n = self.chunks.len();
        let mut i: usize = 0;
        proof {
            assert(Self::dropped_keys(*old(self), *self, 0).add(old(self).free_keys()) =~= old(self).free_keys());
        }
        while i < n
            invariant
                self.wf(),
                i <= n,
                n == self.chunks@.len(),
                n == old(self).chunks@.len(),
                self.boundary() == old(self).boundary(),
                self.spec_len() + self.free_keys().len() == old(self).spec_len() + old(self).free_keys().len(),
                old(self).wf(),
                self.free_keys() == Self::dropped_keys(*old(self), *self, (i * CHUNK_SIZE) as nat)
                    .add(old(self).free_keys()),
                forall|k: usize, v: &T| #[trigger] f.requires((k, v)),
                forall|k: int| #[trigger] self.value_at(k) is Some
                    ==> self.value_at(k) == old(self).value_at(k),
                forall|k: int| 0 <= k && chunk_index(k) >= i
                    ==> #[trigger] self.value_at(k) == old(self).value_at(k),
                forall|k: int| old(self).value_at(k) is Some && #[trigger] self.value_at(k) is Some && chunk_index(k) < i
                    ==> f.ensures((k as usize, &old(self).value_at(k)->Some_0), true),
                forall|k: int| old(self).value_at(k) is Some && #[trigger] self.value_at(k) is None && chunk_index(k) < i
                    ==> f.ensures((k as usize, &old(self).value_at(k)->Some_0), false),
            decreases n - i,
        {
            let ghost l0 = self.chunks@[i as int].entries@.len();
            proof {
                assert(self.chunks@[i as int].wf());
                if l0 < CHUNK_SIZE {
                    assert(i == n - 1);
                    assert(self.chunks_view().last() == self.chunks@[i as int].view());
                }
                assert forall|k: int| i * CHUNK_SIZE + l0 <= k < i * CHUNK_SIZE + CHUNK_SIZE
                    implies #[trigger] old(self).value_at(k) is None by {
                    old(self).law_unissued_key_empty(k);
                }
            }
            let mut j: usize = 0;
            while j < self.chunks[i].entries.len()
                invariant
                    self.wf(),
                    self.chunks@[i as int].entries@.len() == l0,
                    forall|k: int| i * CHUNK_SIZE + l0 <= k < i * CHUNK_SIZE + CHUNK_SIZE
                        ==> #[trigger] old(self).value_at(k) is None,
                    i < n,
                    n == self.chunks@.len(),
                    n == old(self).chunks@.len(),
                    self.boundary() == old(self).boundary(),
                    j <= self.chunks@[i as int].entries@.len(),
                    self.spec_len() + self.free_keys().len() == old(self).spec_len() + old(self).free_keys().len(),
                    self.free_keys() == Self::dropped_keys(*old(self), *self, (i * CHUNK_SIZE + j) as nat)
                        .add(old(self).free_keys()),
                    forall|k: usize, v: &T| #[trigger] f.requires((k, v)),
                    forall|k: int| #[trigger] self.value_at(k) is Some
                        ==> self.value_at(k) == old(self).value_at(k),
                    forall|k: int| 0 <= k && (chunk_index(k) > i || (chunk_index(k) == i && slot_index(k) >= j))
                        ==> #[trigger] self.value_at(k) == old(self).value_at(k),
                    forall|k: int| old(self).value_at(k) is Some && #[trigger] self.value_at(k) is Some
                        && (chunk_index(k) < i || (chunk_index(k) == i && slot_index(k) < j))
                        ==> f.ensures((k as usize, &old(self).value_at(k)->Some_0), true),
                    forall|k: int| old(self).value_at(k) is Some && #[trigger] self.value_at(k) is None
                        && (chunk_index(k) < i || (chunk_index(k) == i && slot_index(k) < j))
                        ==> f.ensures((k as usize, &old(self).value_at(k)->Some_0), false),
                decreases self.chunks@[i as int].entries@.len() - j,
            {
                let key = i * CHUNK_SIZE + j;
                proof {
                    Self::lemma_key_parts(i as int, j as int);
                    self.lemma_slot_below_boundary(i as int, j as int);
                    self.lemma_key_in_bounds(key as int);
                }
                let keep = match &self.chunks[i].entries[j] {
                    Entry::Occupied(v) => f(key, v),
                    Entry::Vacant(_) => true,
                };
                if !keep {
                    let ghost before = *self;
                    self.remove(key);
                    proof {
                        Self::lemma_free_after_drop(*old(self), before, *self, key);
                    }
                } else {
                    proof {
                        Self::lemma_free_after_keep(*old(self), *self, key);
                    }
                }
                j += 1;
            }
            proof {
                assert((i + 1) * CHUNK_SIZE == i * CHUNK_SIZE + CHUNK_SIZE) by (nonlinear_arith);
                Self::lemma_dropped_keys_skip(
                    *old(self),
                    *self,
                    (i * CHUNK_SIZE + j) as nat,
                    ((i + 1) * CHUNK_SIZE) as nat,
                );
            }
            i += 1;
        }
        proof {
            old(self).law_consistent_pool();
            assert forall|k: int| old(self).boundary() <= k < old(self).spec_capacity()
                implies #[trigger] old(self).value_at(k) is None by {
                old(self).law_unissued_key_empty(k);
            }
            Self::lemma_dropped_keys_skip(*old(self), *self, old(self).boundary(), old(self).spec_capacity());
        }
    }

    /// A slot that a chunk holds lies below the growth boundary.
    proof fn lemma_slot_below_boundary(&self, c: int, s: int)
        requires
            self.shape_ok(),
            0 <= c < self.chunks@.len(),
            0 <= s < self.chunks@[c].entries@.len(),
        ensures
            c * CHUNK_SIZE + s < self.boundary(),
            c * CHUNK_SIZE + s <= usize::MAX,
    {
        let n = self.chunks@.len();
        assert(self.chunks_view().last() == self.chunks@[n - 1].view());
        assert(self.chunks@[c].wf());
        if c < n - 1 {
            assert(c * CHUNK_SIZE + CHUNK_SIZE <= (n - 1) * CHUNK_SIZE) by (nonlinear_arith)
                requires
                    c < n - 1,
            ;
        }
        assert(c * CHUNK_SIZE + CHUNK_SIZE <= n * CHUNK_SIZE) by (nonlinear_arith)
            requires
                c < n,
        ;
    }

    /// Whether some chunk holds no value.
    fn has_empty_chunk(&self) -> (r: bool)
        requires
            self.shape_ok(),
        ensures
            r == exists|c: int| 0 <= c < self.chunks_view().len()
                && count_some(#[trigger] self.chunks_view()[c]) == 0,
    {
        let mut i: usize = 0;
        while i < self.chunks.len()
            invariant
                self.shape_ok(),
                i <= self.chunks@.len(),
                forall|c: int| 0 <= c < i ==> count_some(#[trigger] self.chunks_view()[c]) > 0,
            decreases self.chunks@.len() - i,
        {
            proof {
                assert(self.chunks_view()[i as int] == self.chunks@[i as int].view());
                assert(self.chunks@[i as int].wf());
            }
            if self.chunks[i].len == 0 {
                return true;
            }
            i += 1;
        }
        false
    }

    /// Where every chunk holds a value, dropping the empty ones drops none.
    proof fn lemma_nothing_to_drop(&self)
        requires
            forall|c: int| 0 <= c < self.chunks_view().len()
                ==> count_some(#[trigger] self.chunks_view()[c]) > 0,
        ensures
            nonempty_chunks(self.chunks_view()) == self.chunks_view(),
    {
        let cv = self.chunks_view();
        Self::lemma_filter_all(cv);
    }

    proof fn lemma_filter_all(cv: Seq<Seq<Option<T>>>)
        requires
            forall|c: int| 0 <= c < cv.len() ==> count_some(#[trigger] cv[c]) > 0,
        ensures
            nonempty_chunks(cv) == cv,
        decreases cv.len(),
    {
        if cv.len() > 0 {
            let init = cv.drop_last();
            assert forall|c: int| 0 <= c < init.len() implies count_some(#[trigger] init[c]) > 0 by {
                assert(init[c] == cv[c]);
            }
            Self::lemma_filter_all(init);
            assert(init.push(cv.last()) =~= cv);
            crate::count::lemma_nonempty_push(init, cv.last());
        }
    }

    /// Drops every chunk that holds no value and joins the rest up in order.
    ///
    /// This renumbers the keys of every value that stood after a dropped
    /// chunk: the values of the `j`-th remaining chunk are found under
    /// `j * CHUNK_SIZE + s` afterwards. Where a chunk is dropped, the free
    /// list is rebuilt over the remaining chunks, lowest key first; where
    /// none is, the pool is left exactly as it was.
    #[verifier::spinoff_prover]
    #[verifier::rlimit(60)]
    pub fn free_unused(&mut self)
        requires
            old(self).wf(),
        ensures
            final(self).wf(),
            final(self).chunks_view() == nonempty_chunks(old(self).chunks_view()),
            final(self).spec_len() == old(self).spec_len(),
            final(self).boundary() <= final(self).spec_capacity(),
            final(self).spec_capacity() <= old(self).spec_capacity(),
            (forall|c: int| 0 <= c < old(self).chunks_view().len()
                ==> count_some(#[trigger] old(self).chunks_view()[c]) > 0)
                ==> *final(self) == *old(self),
            (exists|c: int| 0 <= c < old(self).chunks_view().len()
                && count_some(#[trigger] old(self).chunks_view()[c]) == 0)
                ==> forall|i: int, j: int| 0 <= i < j < final(self).free_keys().len()
                ==> final(self).free_keys()[i] < final(self).free_keys()[j],
    {
        if !self.has_empty_chunk() {
            proof {
                self.lemma_nothing_to_drop();
                self.law_consistent_pool();
            }
            return;
        }
        let mut rest: Vec<Chunk<T>> = Vec::new();
        std::mem::swap(&mut self.chunks, &mut rest);
        let ghost ocs = rest@;
        let ghost ov = views_of(ocs);
        let n = rest.len();
        let mut kept: Vec<Chunk<T>> = Vec::new();
        let mut idx: usize = 0;
        proof {
            assert(views_of(kept@) =~= nonempty_chunks(ov.subrange(0, 0)));
            assert(rest@ =~= ocs.subrange(0, n as int));
        }
        while idx < n
            invariant
                n == ocs.len(),
                ov == views_of(ocs),
                idx <= n,
                rest@ == ocs.subrange(idx as int, n as int),
                views_of(kept@) == nonempty_chunks(ov.subrange(0, idx as int)),
                kept@.len() <= idx,
                forall|i: int| 0 <= i < n ==> (#[trigger] ocs[i]).wf(),
                forall|i: int| 0 <= i < n - 1 ==> (#[trigger] ocs[i]).entries@.len() == CHUNK_SIZE,
                forall|i: int| 0 <= i < kept@.len() ==> (#[trigger] kept@[i]).wf() && kept@[i].entries@.len() > 0,
                forall|i: int| 0 <= i < kept@.len() && (idx < n || i < kept@.len() - 1)
                    ==> (#[trigger] kept@[i]).entries@.len() == CHUNK_SIZE,
            decreases n - idx,
        {
            let c = rest.remove(0);
            proof {
                assert(c == ocs[idx as int]);
                assert(ov.subrange(0, idx + 1) =~= ov.subrange(0, idx as int).push(c.view()));
                crate::count::lemma_nonempty_push(ov.subrange(0, idx as int), c.view());
                assert(rest@ =~= ocs.subrange(idx + 1, n as int));
                crate::count::lemma_count_some_zero(c.view());
            }
            let ghost before = kept@;
            if c.len > 0 {
                kept.push(c);
                proof {
                    assert(views_of(kept@) =~= views_of(before).push(c.view()));
                }
            }
            idx += 1;
        }
        proof {
            assert(ov.subrange(0, n as int) =~= ov);
            lemma_count_all_nonempty(ov);
            assert(old(self).chunks_view() == ov);
            assert(kept@.len() * CHUNK_SIZE <= n * CHUNK_SIZE) by (nonlinear_arith)
                requires
                    kept@.len() <= n,
            ;
        }
        self.chunks = kept;
        self.rebuild_free_list();
        proof {
            self.law_consistent_pool();
        }
    }

    /// Links every free slot into a new free list, lowest key first.
    #[verifier::spinoff_prover]
    #[verifier::rlimit(60)]
    fn rebuild_free_list(&mut self)
        requires
            old(self).shape_ok(),
        ensures
            final(self).wf(),
            final(self).chunks_view() == old(self).chunks_view(),
            forall|i: int, j: int| 0 <= i < j < final(self).free_keys().len()
                ==> final(self).free_keys()[i] < final(self).free_keys()[j],
    {
        let b = self.boundary_exec();
        self.next = b;
        self.free = Ghost(Seq::empty());
        let ghost o = *old(self);
        let mut k: usize = b;
        while k > 0
            invariant
                self.shape_ok(),
                self.chunks_view() == old(self).chunks_view(),
                o == *old(self),
                self.boundary() == b,
                k <= b,
                self.free_from(k as int),
                self.len == old(self).len,
                self.free@.len() + o.occ_below(b as nat) == b - k + o.occ_below(k as nat),
                forall|i: int, j: int| 0 <= i < j < self.free@.len() ==> self.free@[i] < self.free@[j],
            decreases k,
        {
            k -= 1;
            let c = k / CHUNK_SIZE;
            let s = k % CHUNK_SIZE;
            proof {
                self.lemma_key_in_bounds(k as int);
            }
            let vacant = match &self.chunks[c].entries[s] {
                Entry::Vacant(_) => true,
                Entry::Occupied(_) => false,
            };
            proof {
                assert(o.value_at(k as int) == self.value_at(k as int));
                assert(o.occ_below((k + 1) as nat) == o.occ_below(k as nat) + occupied(o.value_at(k as int)));
            }
            if vacant {
                let ghost before = *self;
                let link = self.next;
                let chunk = &mut self.chunks[c];
                chunk.entries.set(s, Entry::Vacant(link));
                self.next = k;
                self.free = Ghost(seq![k].add(self.free@));
                proof {
                    Self::lemma_relink(before, *self, k as int, link);
                }
            }
        }
        proof {
            o.lemma_occ_below_boundary();
        }
    }

    /// Putting a free slot below `p` at the head of the free list keeps
    /// the shape and extends the list to cover that slot.
    #[verifier::spinoff_prover]
    #[verifier::rlimit(60)]
    proof fn lemma_relink(o: Self, n: Self, key: int, link: usize)
        requires
            o.shape_ok(),
            o.free_from(key + 1),
            forall|i: int, j: int| 0 <= i < j < o.free@.len() ==> o.free@[i] < o.free@[j],
            0 <= key < o.boundary(),
            o.entry_at(key) is Vacant,
            link == o.next,
            n.chunks@.len() == o.chunks@.len(),
            forall|i: int| 0 <= i < n.chunks@.len() && i != chunk_index(key)
                ==> #[trigger] n.chunks@[i] == o.chunks@[i],
            n.chunks@[chunk_index(key)].entries@
                == o.chunks@[chunk_index(key)].entries@.update(slot_index(key), Entry::Vacant(link)),
            n.chunks@[chunk_index(key)].len == o.chunks@[chunk_index(key)].len,
            n.len == o.len,
            n.next == key,
            n.free@ == seq![key as usize].add(o.free@),
        ensures
            n.shape_ok(),
            n.chunks_view() == o.chunks_view(),
            n.free_from(key),
            forall|i: int, j: int| 0 <= i < j < n.free@.len() ==> n.free@[i] < n.free@[j],
    {
        o.lemma_key_in_bounds(key);
        Self::lemma_write_slot(o, n, key, Entry::Vacant(link));
        let c = chunk_index(key);
        assert(n.chunks@[c].view() =~= o.chunks@[c].view());
        assert(n.chunks_view() =~= o.chunks_view());
        assert forall|i: int| 0 <= i < n.chunks@.len() implies (#[trigger] n.chunks@[i]).wf() by {
            if i != c {
                assert(n.chunks@[i] == o.chunks@[i]);
            }
        }
        let of = o.free@;
        let nf = n.free@;
        assert forall|i: int| 0 <= i < nf.len()
            implies n.entry_at(#[trigger] nf[i] as int) == Entry::<T>::Vacant(n.link_after(i)) by {
            if i > 0 {
                assert(nf[i] == of[i - 1]);
            }
        }
        assert forall|k: int| key <= k < n.boundary() && #[trigger] n.value_at(k) is None
            implies nf.contains(k as usize) by {
            if k != key {
                assert(o.value_at(k) is None);
                let j = choose|j: int| 0 <= j < of.len() && of[j] == k as usize;
                assert(nf[j + 1] == k as usize);
            } else {
                assert(nf[0] == k as usize);
            }
        }
        assert forall|i: int, j: int| 0 <= i < j < nf.len() implies nf[i] < nf[j] by {
            assert(nf[j] == of[j - 1]);
            if i > 0 {
                assert(nf[i] == of[i - 1]);
            }
        }
        assert(nf.no_duplicates());
    }

    /// The growth boundary, computed.
    fn boundary_exec(&self) -> (r: usize)
        requires
            self.shape_ok(),
        ensures
            r == self.boundary(),
    {
        let n = self.chunks.len();
        if n == 0 {
            0
        } else {
            proof {
                assert(self.chunks_view().last() == self.chunks@[n - 1].view());
                assert((n - 1) * CHUNK_SIZE + CHUNK_SIZE <= n * CHUNK_SIZE) by (nonlinear_arith)
                    requires
                        n >= 1,
                ;
                assert(self.chunks@[n - 1].wf());
            }
            (n - 1) * CHUNK_SIZE + self.chunks[n - 1].entries.len()
        }
    }

    /// The stored value and whether the slot exists, for a key below the
    /// growth boundary or past it.
    fn slot_exec(&self, key: usize) -> (r: (bool, Option<&T>))
        requires
            self.shape_ok(),
        ensures
            r.0 == (key < self.boundary()),
            match r.1 {
                Some(v) => self.value_at(key as int) == Some(*v),
                None => self.value_at(key as int) is None,
            },
    {
        let c = key / CHUNK_SIZE;
        let s = key % CHUNK_SIZE;
        if c < self.chunks.len() && s < self.chunks[c].entries.len() {
            proof {
                self.lemma_slot_below_boundary(c as int, s as int);
                self.lemma_key_in_bounds(key as int);
            }
            match &self.chunks[c].entries[s] {
                Entry::Occupied(v) => (true, Some(v)),
                Entry::Vacant(_) => (true, None),
            }
        } else {
            proof {
                if key < self.boundary() {
                    self.lemma_key_in_bounds(key as int);
                }
            }
            (false, None)
        }
    }

    /// The first key at or after `from` that holds a value, if any.
    #[verifier::rlimit(50)]
    fn next_occupied(&self, from: usize) -> (r: Option<usize>)
        requires
            self.wf(),
            from <= self.boundary(),
        ensures
            match r {
                Some(k) => {
                    &&& from <= k < self.boundary()
                    &&& self.value_at(k as int) is Some
                    &&& forall|j: int| from <= j < k ==> #[trigger] self.value_at(j) is None
                },
                None => forall|j: int| from <= j < self.boundary() ==> #[trigger] self.value_at(j) is None,
            },
    {
        let mut key = from;
        loop
            invariant
                self.shape_ok(),
                from <= key <= self.boundary(),
                forall|j: int| from <= j < key ==> #[trigger] self.value_at(j) is None,
            decreases self.boundary() - key,
        {
            let (exists, found) = self.slot_exec(key);
            if !exists {
                return None;
            }
            if found.is_some() {
                return Some(key);
            }
            key = key + 1;
        }
    }

    /// An iterator over the stored values and their keys, in ascending key
    /// order. It walks every slot up to the growth boundary, free or not.
    pub fn iter(&self) -> (it: Iter<'_, T>)
        requires
            self.wf(),
        ensures
            it.wf(),
            it.slab() == *self,
            it.position() == 0,
    {
        Iter { slab: self, curr: 0 }
    }

    /// An iterator that hands out each stored value mutably with its key,
    /// in ascending key order. Each reference borrows the iterator, so one
    /// is given up before the next is taken. Once the iterator is dropped,
    /// the pool is what the iterator's `slab` ends as.
    ///
    /// As with `get_mut`, the caller must not move a value out of its slot
    /// while anything else points to it.
    pub fn iter_mut(&mut self) -> (it: IterMut<'_, T>)
        requires
            old(self).wf(),
        ensures
            it.wf(),
            it.slab() == *old(self),
            it.position() == 0,
            *final(self) == *final(it.slab),
    {
        IterMut { slab: self, curr: 0 }
    }

    /// A key that the pool never handed out holds nothing: every key at or
    /// past the growth boundary is unused, so removing it is refused.
    pub proof fn law_unissued_key_empty(&self, key: int)
        requires
            self.wf(),
            key >= self.boundary(),
        ensures
            !self.contains_key(key),
    {
        let n = self.chunks@.len();
        if n > 0 && chunk_index(key) < n {
            assert(self.chunks_view().last() == self.chunks@[n - 1].view());
            assert(self.chunks_view()[chunk_index(key)] == self.chunks@[chunk_index(key)].view());
            if chunk_index(key) < n - 1 {
                assert(self.chunks@[chunk_index(key)].entries@.len() == CHUNK_SIZE);
                assert((chunk_index(key) + 1) * CHUNK_SIZE <= (n - 1) * CHUNK_SIZE) by (nonlinear_arith)
                    requires
                        chunk_index(key) + 1 <= n - 1,
                ;
            }
        }
    }

    /// What holds of every consistent pool: no chunk has more than
    /// `CHUNK_SIZE` slots, the number of values and the growth boundary are
    /// at most the capacity, the pool is empty exactly when no key holds a
    /// value, and every slot below the growth boundary holds a value or is
    /// on the free list.
    pub proof fn law_consistent_pool(&self)
        requires
            self.wf(),
        ensures
            self.spec_len() + self.free_keys().len() == self.boundary(),
            forall|c: int| 0 <= c < self.chunks_view().len()
                ==> (#[trigger] self.chunks_view()[c]).len() <= CHUNK_SIZE,
            self.spec_len() <= self.spec_capacity(),
            self.boundary() <= self.spec_capacity(),
            self.spec_len() == 0 <==> forall|k: int| !(#[trigger] self.contains_key(k)),
    {
        let cv = self.chunks_view();
        let n = cv.len();
        assert forall|c: int| 0 <= c < n implies (#[trigger] cv[c]).len() <= CHUNK_SIZE by {
            assert(self.chunks@[c].wf());
        }
        crate::count::lemma_count_all_bound(cv, CHUNK_SIZE as nat);
        if n > 0 {
            assert(cv.last() == cv[n - 1]);
            assert((n - 1) * CHUNK_SIZE + CHUNK_SIZE == n * CHUNK_SIZE) by (nonlinear_arith);
        }
        crate::count::lemma_count_all_zero(cv);
        if self.spec_len() == 0 {
            assert forall|k: int| !(#[trigger] self.contains_key(k)) by {
                if self.contains_key(k) {
                    crate::count::lemma_count_some_zero(cv[chunk_index(k)]);
                }
            }
        }
        if forall|k: int| !(#[trigger] self.contains_key(k)) {
            assert forall|c: int| 0 <= c < n implies count_some(#[trigger] cv[c]) == 0 by {
                assert forall|j: int| 0 <= j < cv[c].len() implies cv[c][j] is None by {
                    Self::lemma_key_parts(c, j);
                    assert(!self.contains_key(c * CHUNK_SIZE + j));
                }
                crate::count::lemma_count_some_zero(cv[c]);
            }
        }
    }

    /// Makes an empty pool; nothing is allocated until the first insertion.
    pub fn new() -> (s: Self)
        ensures
            s.wf(),
            s.chunks_view().len() == 0,
            s.free_keys().len() == 0,
            forall|k: int| #[trigger] s.value_at(k) is None,
    {
        let s = Slab { chunks: Vec::new(), len: 0, next: 0, free: Ghost(Seq::empty()) };
        assert(s.chunks_view() =~= Seq::<Seq<Option<T>>>::empty());
        s
    }

    /// The number of stored values.
    pub fn len(&self) -> (r: usize)
        requires
            self.wf(),
        ensures
            r == self.spec_len(),
    {
        self.len
    }

    pub fn is_empty(&self) -> (r: bool)
        requires
            self.wf(),
        ensures
            r == (self.spec_len() == 0),
    {
        self.len == 0
    }

    /// The number of slots in the pool's chunks; always a multiple of
    /// `CHUNK_SIZE`.
    pub fn capacity(&self) -> (r: usize)
        requires
            self.wf(),
        ensures
            r == self.spec_capacity(),
    {
        self.chunks.len() * CHUNK_SIZE
    }

    /// The value stored under `key`, or `None` where the slot is free or does
    /// not exist.
    pub fn get(&self, key: usize) -> (r: Option<&T>)
        requires
            self.wf(),
        ensures
            match r {
                Some(v) => self.value_at(key as int) == Some(*v),
                None => self.value_at(key as int) is None,
            },
    {
        let c = key / CHUNK_SIZE;
        let s = key % CHUNK_SIZE;
        if c < self.chunks.len() {
            let chunk = &self.chunks[c];
            assert(self.chunks_view()[c as int] == chunk.view());
            if s < chunk.entries.len() {
                match &chunk.entries[s] {
                    Entry::Occupied(v) => Some(v),
                    Entry::Vacant(_) => None,
                }
            } else {
                None
            }
        } else {
            None
        }
    }

    /// Whether a value is stored under `key`.
    pub fn contains(&self, key: usize) -> (r: bool)
        requires
            self.wf(),
        ensures
            r == self.contains_key(key as int),
    {
        self.get(key).is_some()
    }

    /// The value stored under `key`, which must be in use; `get` is the
    /// form that accepts any key.
    pub fn index(&self, key: usize) -> (r: &T)
        requires
            self.wf(),
            self.contains_key(key as int),
        ensures
            Some(*r) == self.value_at(key as int),
    {
        match self.get(key) {
            Some(v) => v,
            None => vstd::pervasive::unreached(),
        }
    }
}

impl<T> Default for Slab<T> {
    /// An empty pool, as `new` makes it.
    fn default() -> (s: Self)
        ensures
            s.wf(),
            s.chunks_view().len() == 0,
            s.free_keys().len() == 0,
            forall|k: int| #[trigger] s.value_at(k) is None,
    {
        Slab::new()
    }
}

/// An iterator over a pool's values and their keys, in ascending key order.
pub struct Iter<'a, T> {
    slab: &'a Slab<T>,
    curr: usize,
}

impl<'a, T> Iter<'a, T> {
    /// The pool walked.
    pub closed spec fn slab(&self) -> Slab<T> {
        *self.slab
    }

    /// The first key not yet looked at.
    pub closed spec fn position(&self) -> nat {
        self.curr as nat
    }

    pub closed spec fn wf(&self) -> bool {
        self.slab.wf() && self.curr <= self.slab.boundary()
    }

    /// The next stored value at or after `position()` with its key, or
    /// `None` once every slot up to the growth boundary has been seen.
    pub fn next(&mut self) -> (r: Option<(usize, &'a T)>)
        requires
            old(self).wf(),
        ensures
            final(self).wf(),
            final(self).slab() == old(self).slab(),
            match r {
                Some((k, v)) => {
                    &&& old(self).position() <= k < old(self).slab().boundary()
                    &&& old(self).slab().value_at(k as int) == Some(*v)
                    &&& forall|j: int| old(self).position() <= j < k
                        ==> #[trigger] old(self).slab().value_at(j) is None
                    &&& final(self).position() == k + 1
                },
                None => {
                    &&& forall|j: int| old(self).position() <= j < old(self).slab().boundary()
                        ==> #[trigger] old(self).slab().value_at(j) is None
                    &&& final(self).position() == old(self).slab().boundary()
                },
            },
    {
        let slab: &'a Slab<T> = self.slab;
        match slab.next_occupied(self.curr) {
            None => {
                self.curr = slab.boundary_exec();
                None
            },
            Some(key) => {
                self.curr = key + 1;
                match slab.get(key) {
                    Some(v) => Some((key, v)),
                    None => vstd::pervasive::unreached(),
                }
            },
        }
    }

    /// Bounds on the number of values left: at most one per slot not yet
    /// looked at.
    pub fn size_hint(&self) -> (r: (usize, Option<usize>))
        requires
            self.wf(),
        ensures
            r.0 == 0,
            r.1 == Some((self.slab().boundary() - self.position()) as usize),
    {
        (0, Some(self.slab.boundary_exec() - self.curr))
    }
}

/// An iterator over a pool's values and their keys, in ascending key order,
/// that hands out each value mutably.
pub struct IterMut<'a, T> {
    /// The pool walked.
    pub slab: &'a mut Slab<T>,
    /// The first key not yet looked at.
    pub curr: usize,
}

impl<'a, T> IterMut<'a, T> {
    /// The pool walked, as it stands now.
    pub open spec fn slab(&self) -> Slab<T> {
        *self.slab
    }

    /// The first key not yet looked at.
    pub open spec fn position(&self) -> nat {
        self.curr as nat
    }

    pub open spec fn wf(&self) -> bool {
        self.slab.wf() && self.curr <= self.slab.boundary()
    }

    /// The next stored value at or after `position()` with its key, or
    /// `None` once every slot up to the growth boundary has been seen.
    pub fn next(&mut self) -> (r: Option<(usize, &mut T)>)
        requires
            old(self).wf(),
        ensures
            *final(final(self).slab) == *final(old(self).slab),
            match r {
                Some((k, v)) => {
                    &&& old(self).position() <= k < old(self).slab().boundary()
                    &&& old(self).slab().value_at(k as int) == Some(*v)
                    &&& forall|j: int| old(self).position() <= j < k
                        ==> #[trigger] old(self).slab().value_at(j) is None
                    &&& final(self).position() == k + 1
                    &&& final(self).wf()
                    &&& final(self).slab().value_at(k as int) == Some(*final(v))
                    &&& forall|j: int| j != k ==> #[trigger] final(self).slab().value_at(j)
                        == old(self).slab().value_at(j)
                    &&& final(self).slab().free_keys() == old(self).slab().free_keys()
                    &&& final(self).slab().boundary() == old(self).slab().boundary()
                    &&& final(self).slab().spec_capacity() == old(self).slab().spec_capacity()
                    &&& final(self).slab().spec_len() == old(self).slab().spec_len()
                },
                None => {
                    &&& forall|j: int| old(self).position() <= j < old(self).slab().boundary()
                        ==> #[trigger] old(self).slab().value_at(j) is None
                    &&& final(self).position() == old(self).slab().boundary()
                    &&& final(self).wf()
                    &&& final(self).slab() == old(self).slab()
                },
            },
    {
        match self.slab.next_occupied(self.curr) {
            None => {
                self.curr = self.slab.boundary_exec();
                None
            },
            Some(key) => {
                self.curr = key + 1;
                match self.slab.get_mut(key) {
                    Some(v) => Some((key, v)),
                    None => vstd::pervasive::unreached(),
                }
            },
        }
    }

    /// Bounds on the number of values left: at most one per slot not yet
    /// looked at.
    pub fn size_hint(&self) -> (r: (usize, Option<usize>))
        requires
            self.slab.wf(),
        ensures
            r.0 == 0,
            r.1 == Some(if self.position() <= self.slab().boundary() {
                (self.slab().boundary() - self.position()) as usize
            } else {
                0
            }),
    {
        let b = self.slab.boundary_exec();
        if self.curr <= b {
            (0, Some(b - self.curr))
        } else {
            (0, Some(0))
        }
    }
}

} // verus!
