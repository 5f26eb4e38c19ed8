use vstd::prelude::*;

verus! {

/// The number of occupied slots in a sequence of slots.
pub open spec fn count_some<T>(s: Seq<Option<T>>) -> nat
    decreases s.len(),
{
    if s.len() == 0 {
        0
    } else {
        count_some(s.drop_last()) + if s.last() is Some { 1nat } else { 0nat }
    }
}

/// The number of occupied slots over a sequence of chunks.
pub open spec fn count_all<T>(cs: Seq<Seq<Option<T>>>) -> nat
    decreases cs.len(),
{
    if cs.len() == 0 {
        0
    } else {
        count_all(cs.drop_last()) + count_some(cs.last())
    }
}

/// One for a slot that holds a value, zero for a free one.
pub open spec fn occupied<T>(o: Option<T>) -> nat {
    if o is Some { 1 } else { 0 }
}

pub proof fn lemma_count_some_push<T>(s: Seq<Option<T>>, x: Option<T>)
    ensures
        count_some(s.push(x)) == count_some(s) + occupied(x),
{
    assert(s.push(x).drop_last() =~= s);
}

pub proof fn lemma_count_some_update<T>(s: Seq<Option<T>>, i: int, x: Option<T>)
    requires
        0 <= i < s.len(),
    ensures
        count_some(s.update(i, x)) + occupied(s[i]) == count_some(s) + occupied(x),
    decreases s.len(),
{
    let u = s.update(i, x);
    if i == s.len() - 1 {
        assert(u.drop_last() =~= s.drop_last());
    } else {
        assert(u.drop_last() =~= s.drop_last().update(i, x));
        lemma_count_some_update(s.drop_last(), i, x);
    }
}

pub proof fn lemma_count_some_bound<T>(s: Seq<Option<T>>)
    ensures
        count_some(s) <= s.len(),
    decreases s.len(),
{
    if s.len() > 0 {
        lemma_count_some_bound(s.drop_last());
    }
}

/// A sequence of slots with no occupied slot counts zero, and conversely.
pub proof fn lemma_count_some_zero<T>(s: Seq<Option<T>>)
    ensures
        count_some(s) == 0 <==> forall|i: int| 0 <= i < s.len() ==> s[i] is None,
    decreases s.len(),
{
    if s.len() > 0 {
        lemma_count_some_zero(s.drop_last());
        if count_some(s) == 0 {
            assert forall|i: int| 0 <= i < s.len() implies s[i] is None by {
                if i < s.len() - 1 {
                    assert(s.drop_last()[i] == s[i]);
                }
            }
        }
        if forall|i: int| 0 <= i < s.len() ==> s[i] is None {
            assert forall|i: int| 0 <= i < s.drop_last().len() implies s.drop_last()[i] is None by {
                assert(s.drop_last()[i] == s[i]);
            }
        }
    }
}

/// A sequence of chunks counts zero exactly when each chunk does.
pub proof fn lemma_count_all_zero<T>(cs: Seq<Seq<Option<T>>>)
    ensures
        count_all(cs) == 0 <==> forall|i: int| 0 <= i < cs.len() ==> count_some(#[trigger] cs[i]) == 0,
    decreases cs.len(),
{
    if cs.len() > 0 {
        lemma_count_all_zero(cs.drop_last());
        if count_all(cs) == 0 {
            assert forall|i: int| 0 <= i < cs.len() implies count_some(#[trigger] cs[i]) == 0 by {
                if i < cs.len() - 1 {
                    assert(cs.drop_last()[i] == cs[i]);
                }
            }
        }
        if forall|i: int| 0 <= i < cs.len() ==> count_some(#[trigger] cs[i]) == 0 {
            assert forall|i: int| 0 <= i < cs.drop_last().len() implies count_some(#[trigger] cs.drop_last()[i]) == 0 by {
                assert(cs.drop_last()[i] == cs[i]);
            }
            assert(count_some(cs[cs.len() - 1]) == 0);
        }
    }
}

pub proof fn lemma_count_all_push<T>(cs: Seq<Seq<Option<T>>>, c: Seq<Option<T>>)
    ensures
        count_all(cs.push(c)) == count_all(cs) + count_some(c),
{
    assert(cs.push(c).drop_last() =~= cs);
}

pub proof fn lemma_count_all_update<T>(cs: Seq<Seq<Option<T>>>, i: int, c: Seq<Option<T>>)
    requires
        0 <= i < cs.len(),
    ensures
        count_all(cs.update(i, c)) + count_some(cs[i]) == count_all(cs) + count_some(c),
    decreases cs.len(),
{
    let u = cs.update(i, c);
    if i == cs.len() - 1 {
        assert(u.drop_last() =~= cs.drop_last());
    } else {
        assert(u.drop_last() =~= cs.drop_last().update(i, c));
        lemma_count_all_update(cs.drop_last(), i, c);
    }
}

/// Each chunk of at most `m` slots holds at most `m` values.
pub proof fn lemma_count_all_bound<T>(cs: Seq<Seq<Option<T>>>, m: nat)
    requires
        forall|i: int| 0 <= i < cs.len() ==> (#[trigger] cs[i]).len() <= m,
    ensures
        count_all(cs) <= cs.len() * m,
    decreases cs.len(),
{
    if cs.len() > 0 {
        lemma_count_all_bound(cs.drop_last(), m);
        lemma_count_some_bound(cs.last());
        assert(cs.drop_last().len() * m + m == cs.len() * m) by (nonlinear_arith)
            requires
                cs.drop_last().len() + 1 == cs.len(),
        ;
    }
}

/// The chunks that hold at least one value, in order.
pub open spec fn nonempty_chunks<T>(cs: Seq<Seq<Option<T>>>) -> Seq<Seq<Option<T>>> {
    cs.filter(|c: Seq<Option<T>>| count_some(c) > 0)
}

pub proof fn lemma_nonempty_push<T>(cs: Seq<Seq<Option<T>>>, c: Seq<Option<T>>)
    ensures
        nonempty_chunks(cs.push(c)) == if count_some(c) > 0 {
            nonempty_chunks(cs).push(c)
        } else {
            nonempty_chunks(cs)
        },
{
    cs.lemma_filter_push(c, |c: Seq<Option<T>>| count_some(c) > 0);
}

/// Dropping the chunks that hold no value drops no value.
pub proof fn lemma_count_all_nonempty<T>(cs: Seq<Seq<Option<T>>>)
    ensures
        count_all(nonempty_chunks(cs)) == count_all(cs),
    decreases cs.len(),
{
    if cs.len() > 0 {
        let init = cs.drop_last();
        lemma_count_all_nonempty(init);
        assert(init.push(cs.last()) =~= cs);
        lemma_nonempty_push(init, cs.last());
        if count_some(cs.last()) > 0 {
            lemma_count_all_push(nonempty_chunks(init), cs.last());
        }
    }
}

/// The chunks that hold no value.
pub open spec fn empty_chunks<T>(cs: Seq<Seq<Option<T>>>) -> Seq<Seq<Option<T>>> {
    cs.filter(|c: Seq<Option<T>>| count_some(c) == 0)
}

/// Every chunk is either kept or dropped by `nonempty_chunks`.
pub proof fn lemma_chunks_split<T>(cs: Seq<Seq<Option<T>>>)
    ensures
        nonempty_chunks(cs).len() + empty_chunks(cs).len() == cs.len(),
    decreases cs.len(),
{
    if cs.len() > 0 {
        let init = cs.drop_last();
        lemma_chunks_split(init);
        assert(init.push(cs.last()) =~= cs);
        lemma_nonempty_push(init, cs.last());
        init.lemma_filter_push(cs.last(), |c: Seq<Option<T>>| count_some(c) == 0);
    }
}

/// The chunks kept from a prefix are a prefix of the chunks kept.
pub proof fn lemma_nonempty_prefix<T>(cs: Seq<Seq<Option<T>>>, m: int)
    requires
        0 <= m <= cs.len(),
    ensures
        nonempty_chunks(cs.subrange(0, m)).len() <= nonempty_chunks(cs).len(),
        nonempty_chunks(cs).subrange(0, nonempty_chunks(cs.subrange(0, m)).len() as int)
            == nonempty_chunks(cs.subrange(0, m)),
    decreases cs.len(),
{
    if m == cs.len() {
        assert(cs.subrange(0, m) =~= cs);
        assert(nonempty_chunks(cs).subrange(0, nonempty_chunks(cs).len() as int) =~= nonempty_chunks(cs));
    } else {
        let init = cs.drop_last();
        lemma_nonempty_prefix(init, m);
        assert(init.subrange(0, m) =~= cs.subrange(0, m));
        assert(init.push(cs.last()) =~= cs);
        lemma_nonempty_push(init, cs.last());
        let p = nonempty_chunks(cs.subrange(0, m));
        if count_some(cs.last()) > 0 {
            assert(nonempty_chunks(cs).subrange(0, p.len() as int)
                =~= nonempty_chunks(init).subrange(0, p.len() as int));
        }
    }
}

/// A chunk that holds a value stands in the kept chunks after the ones kept
/// before it.
pub proof fn lemma_nonempty_index<T>(cs: Seq<Seq<Option<T>>>, c: int)
    requires
        0 <= c < cs.len(),
        count_some(cs[c]) > 0,
    ensures
        nonempty_chunks(cs.subrange(0, c)).len() < nonempty_chunks(cs).len(),
        nonempty_chunks(cs)[nonempty_chunks(cs.subrange(0, c)).len() as int] == cs[c],
{
    lemma_nonempty_prefix(cs, c + 1);
    assert(cs.subrange(0, c + 1) =~= cs.subrange(0, c).push(cs[c]));
    lemma_nonempty_push(cs.subrange(0, c), cs[c]);
    let j = nonempty_chunks(cs.subrange(0, c)).len() as int;
    assert(nonempty_chunks(cs.subrange(0, c + 1))[j] == cs[c]);
    assert(nonempty_chunks(cs).subrange(0, j + 1)[j] == nonempty_chunks(cs)[j]);
}

} // verus!
