//! The ghost record behind the trie's live figures: every allocation ever
//! counted along a path, and whether the trie still counts it.
use vstd::prelude::*;
use crate::types::FrameId;

verus! {

/// One counted allocation: its address, its size, its path from the root,
/// and whether the trie still counts it as live.
pub type Contribution = (usize, u64, Seq<FrameId>, bool);

/// What `c` adds to the live figure of the node at `q`: its bytes (or one
/// allocation) when it is still counted and passes through `q`.
pub open spec fn weight(c: Contribution, q: Seq<FrameId>, bytes: bool) -> nat {
    if c.3 && q.is_prefix_of(c.2) {
        if bytes {
            c.1 as nat
        } else {
            1
        }
    } else {
        0
    }
}

/// The live bytes (or live allocations) that the contributions in `l` add to the node at `q`.
pub open spec fn sum_through(l: Seq<Contribution>, q: Seq<FrameId>, bytes: bool) -> nat
    decreases l.len(),
{
    if l.len() == 0 {
        0
    } else {
        sum_through(l.drop_last(), q, bytes) + weight(l.last(), q, bytes)
    }
}

/// The index of the last contribution made for address `a`, or -1.
pub open spec fn last_index(l: Seq<Contribution>, a: usize) -> int
    decreases l.len(),
{
    if l.len() == 0 {
        -1
    } else if l.last().0 == a {
        l.len() - 1
    } else {
        last_index(l.drop_last(), a)
    }
}

/// `c` with its allocation no longer counted.
pub open spec fn uncounted(c: Contribution) -> Contribution {
    (c.0, c.1, c.2, false)
}

pub proof fn lemma_sum_push(l: Seq<Contribution>, c: Contribution, q: Seq<FrameId>, bytes: bool)
    ensures
        sum_through(l.push(c), q, bytes) == sum_through(l, q, bytes) + weight(c, q, bytes),
{
    assert(l.push(c).drop_last() =~= l);
}

pub proof fn lemma_sum_zero(l: Seq<Contribution>, q: Seq<FrameId>, bytes: bool)
    requires
        forall|i: int| 0 <= i < l.len() ==> !(#[trigger] l[i].3 && q.is_prefix_of(l[i].2)),
    ensures
        sum_through(l, q, bytes) == 0,
    decreases l.len(),
{
    if l.len() > 0 {
        let t = l.drop_last();
        assert forall|i: int| 0 <= i < t.len() implies !(#[trigger] t[i].3 && q.is_prefix_of(t[i].2)) by {
            assert(t[i] == l[i]);
        }
        lemma_sum_zero(t, q, bytes);
        assert(!(l[l.len() - 1].3 && q.is_prefix_of(l[l.len() - 1].2)));
    }
}

pub proof fn lemma_sum_ge(l: Seq<Contribution>, i: int, q: Seq<FrameId>, bytes: bool)
    requires
        0 <= i < l.len(),
    ensures
        sum_through(l, q, bytes) >= weight(l[i], q, bytes),
    decreases l.len(),
{
    if i < l.len() - 1 {
        let t = l.drop_last();
        assert(t[i] == l[i]);
        lemma_sum_ge(t, i, q, bytes);
    }
}

pub proof fn lemma_sum_update(l: Seq<Contribution>, i: int, q: Seq<FrameId>, bytes: bool)
    requires
        0 <= i < l.len(),
    ensures
        sum_through(l.update(i, uncounted(l[i])), q, bytes) + weight(l[i], q, bytes) == sum_through(
            l,
            q,
            bytes,
        ),
    decreases l.len(),
{
    let u = l.update(i, uncounted(l[i]));
    if i == l.len() - 1 {
        assert(u.drop_last() =~= l.drop_last());
    } else {
        let t = l.drop_last();
        assert(u.drop_last() =~= t.update(i, uncounted(t[i])));
        lemma_sum_update(t, i, q, bytes);
    }
}

pub proof fn lemma_last_index(l: Seq<Contribution>, a: usize)
    ensures
        -1 <= last_index(l, a) < l.len(),
        last_index(l, a) >= 0 ==> l[last_index(l, a)].0 == a,
    decreases l.len(),
{
    if l.len() > 0 && l.last().0 != a {
        lemma_last_index(l.drop_last(), a);
    }
}

pub proof fn lemma_last_index_push(l: Seq<Contribution>, c: Contribution, a: usize)
    ensures
        last_index(l.push(c), a) == (if c.0 == a {
            l.len() as int
        } else {
            last_index(l, a)
        }),
{
    assert(l.push(c).drop_last() =~= l);
}

pub proof fn lemma_last_index_update(l: Seq<Contribution>, i: int, c: Contribution, a: usize)
    requires
        0 <= i < l.len(),
        c.0 == l[i].0,
    ensures
        last_index(l.update(i, c), a) == last_index(l, a),
    decreases l.len(),
{
    let u = l.update(i, c);
    if i < l.len() - 1 {
        let t = l.drop_last();
        assert(u.drop_last() =~= t.update(i, c));
        lemma_last_index_update(t, i, c, a);
    } else {
        assert(u.drop_last() =~= l.drop_last());
    }
}

} // verus!
