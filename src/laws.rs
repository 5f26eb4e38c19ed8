//! Properties that relate several operations of the pool, proved over the
//! predicates that the operations' contracts use.
use vstd::prelude::*;
use crate::count::{empty_chunks, lemma_chunks_split, lemma_nonempty_index, nonempty_chunks};
use crate::slab::{chunk_index, slot_index, Slab, CHUNK_SIZE};

verus! {

/// Reading a key right after storing under it finds the value stored.
pub proof fn law_insert_then_get<T>(s0: Slab<T>, s1: Slab<T>, key: usize, v: T)
    requires
        s0.inserts(s1, key, v),
    ensures
        s1.value_at(key as int) == Some(v),
        s1.contains_key(key as int),
{
}

/// Removing a key right after storing under it hands back the value stored,
/// leaves the key unused, and leaves every other key as it was before the
/// insertion.
pub proof fn law_insert_then_remove<T>(
    s0: Slab<T>,
    s1: Slab<T>,
    s2: Slab<T>,
    key: usize,
    v: T,
    r: T,
)
    requires
        s0.inserts(s1, key, v),
        s1.removes(s2, key, r),
    ensures
        r == v,
        !s2.contains_key(key as int),
        s2.value_at(key as int) is None,
        forall|k: int| #[trigger] s2.value_at(k) == s0.value_at(k),
{
    assert forall|k: int| #[trigger] s2.value_at(k) == s0.value_at(k) by {
        if k != key {
            assert(s1.value_at(k) == s0.value_at(k));
        }
    }
}

/// Once a key has been removed it holds nothing, so removing it again is
/// refused: `remove` requires a used key, and `try_remove` returns `None`
/// and leaves the pool as it was.
pub proof fn law_second_remove_fails<T>(s0: Slab<T>, s1: Slab<T>, key: usize, v: T)
    requires
        s0.removes(s1, key, v),
    ensures
        !s1.contains_key(key as int),
{
}

/// Capacity comes in whole chunks, and an insertion adds a chunk exactly
/// when every slot is in use: no slot is free and the last chunk is full.
pub proof fn law_capacity_growth<T>(s0: Slab<T>, s1: Slab<T>, key: usize, v: T)
    requires
        s0.wf(),
        s0.inserts(s1, key, v),
    ensures
        s1.spec_capacity() == s0.spec_capacity() + if s0.spec_len() == s0.spec_capacity() {
            CHUNK_SIZE as int
        } else {
            0
        },
        s1.spec_capacity() % (CHUNK_SIZE as nat) == 0,
        s1.spec_capacity() == s0.spec_capacity() || {
            &&& s1.spec_capacity() == s0.spec_capacity() + CHUNK_SIZE
            &&& s0.free_keys().len() == 0
            &&& s0.boundary() == s0.spec_capacity()
        },
{
    s0.law_consistent_pool();
    vstd::arithmetic::div_mod::lemma_mod_multiples_basic(
        s1.chunks_view().len() as int,
        CHUNK_SIZE as int,
    );
}

/// The most recently freed key is the next one handed out.
pub proof fn law_key_reuse<T>(
    s0: Slab<T>,
    s1: Slab<T>,
    s2: Slab<T>,
    k: usize,
    v: T,
    k2: usize,
    w: T,
)
    requires
        s0.removes(s1, k, v),
        s1.inserts(s2, k2, w),
    ensures
        k2 == k,
{
    assert(s1.free_keys()[0] == k);
}

/// Dropping the chunks that hold no value lowers the capacity by one chunk
/// for each of them, and every stored value is still found: its key drops
/// by one chunk for each empty chunk that stood before its own.
pub proof fn law_free_unused<T>(s0: Slab<T>, s1: Slab<T>)
    requires
        s1.chunks_view() == nonempty_chunks(s0.chunks_view()),
    ensures
        s1.spec_capacity() + CHUNK_SIZE * empty_chunks(s0.chunks_view()).len() == s0.spec_capacity(),
        forall|k: int| #[trigger] s0.value_at(k) is Some
            ==> exists|k2: int| s1.value_at(k2) == s0.value_at(k),
        forall|k: int| #[trigger] s0.value_at(k) is Some
            ==> s1.value_at(k - CHUNK_SIZE * empty_chunks(s0.chunks_view().subrange(0, chunk_index(k))).len())
                == s0.value_at(k),
{
    let cv = s0.chunks_view();
    lemma_chunks_split(cv);
    assert(s1.spec_capacity() + CHUNK_SIZE * empty_chunks(cv).len() == s0.spec_capacity()) by (nonlinear_arith)
        requires
            s1.spec_capacity() == s1.chunks_view().len() * CHUNK_SIZE,
            s0.spec_capacity() == cv.len() * CHUNK_SIZE,
            s1.chunks_view().len() + empty_chunks(cv).len() == cv.len(),
    ;
    assert forall|k: int| #[trigger] s0.value_at(k) is Some
        implies exists|k2: int| s1.value_at(k2) == s0.value_at(k) by {
        let c = chunk_index(k);
        let s = slot_index(k);
        let chunk = cv[c];
        crate::count::lemma_count_some_zero(chunk);
        cv.lemma_filter_contains(|c: Seq<Option<T>>| crate::count::count_some(c) > 0, c);
        let j = choose|j: int| 0 <= j < s1.chunks_view().len() && s1.chunks_view()[j] == chunk;
        Slab::<T>::lemma_key_parts(j, s);
        assert(s1.value_at(j * CHUNK_SIZE + s) == s0.value_at(k));
    }
    assert forall|k: int| #[trigger] s0.value_at(k) is Some
        implies s1.value_at(k - CHUNK_SIZE * empty_chunks(cv.subrange(0, chunk_index(k))).len())
            == s0.value_at(k) by {
        let c = chunk_index(k);
        let s = slot_index(k);
        crate::count::lemma_count_some_zero(cv[c]);
        lemma_nonempty_index(cv, c);
        lemma_chunks_split(cv.subrange(0, c));
        let j = nonempty_chunks(cv.subrange(0, c)).len() as int;
        let e = empty_chunks(cv.subrange(0, c)).len() as int;
        assert(j + e == c);
        assert(k == c * CHUNK_SIZE + s);
        assert(k - CHUNK_SIZE * e == j * CHUNK_SIZE + s) by (nonlinear_arith)
            requires
                j + e == c,
                k == c * CHUNK_SIZE + s,
        ;
        Slab::<T>::lemma_key_parts(j, s);
    }
}

} // verus!
