use vstd::prelude::*;

verus! {

/// Number of occurrences of the symbol `v` in `w`.
pub open spec fn count_of(w: Seq<u8>, v: u8) -> nat
    decreases w.len(),
{
    if w.len() == 0 {
        0
    } else {
        count_of(w.drop_last(), v) + (if w.last() == v {
            1nat
        } else {
            0nat
        })
    }
}

/// Smallest symbol of a non-empty word.
pub open spec fn min_sym(w: Seq<u8>) -> u8
    decreases w.len(),
{
    if w.len() == 0 {
        0
    } else if w.len() == 1 {
        w[0]
    } else {
        let m = min_sym(w.drop_last());
        if w.last() < m {
            w.last()
        } else {
            m
        }
    }
}

/// Largest symbol of a non-empty word.
pub open spec fn max_sym(w: Seq<u8>) -> u8
    decreases w.len(),
{
    if w.len() == 0 {
        0
    } else if w.len() == 1 {
        w[0]
    } else {
        let m = max_sym(w.drop_last());
        if w.last() > m {
            w.last()
        } else {
            m
        }
    }
}

/// The ballot property: in every prefix, each symbol above the minimum occurs
/// no more often than its predecessor.  The empty word is trivially a lattice
/// word.
pub open spec fn is_lattice_word(w: Seq<u8>) -> bool {
    forall|i: int, v: u8|
        0 <= i <= w.len() && min_sym(w) < v ==> #[trigger] count_of(w.take(i), v) <= count_of(
            w.take(i),
            (v - 1) as u8,
        )
}

pub proof fn lemma_count_push(w: Seq<u8>, v: u8, x: u8)
    ensures
        count_of(w.push(x), v) == count_of(w, v) + (if x == v {
            1nat
        } else {
            0nat
        }),
{
    assert(w.push(x).drop_last() =~= w);
}

/// Extending a prefix by one element changes at most the count of that element.
pub proof fn lemma_count_take_succ(w: Seq<u8>, v: u8, i: int)
    requires
        0 <= i < w.len(),
    ensures
        count_of(w.take(i + 1), v) == count_of(w.take(i), v) + (if w[i] == v {
            1nat
        } else {
            0nat
        }),
{
    assert(w.take(i + 1) =~= w.take(i).push(w[i]));
    lemma_count_push(w.take(i), v, w[i]);
}

pub proof fn lemma_count_le_len(w: Seq<u8>, v: u8)
    ensures
        count_of(w, v) <= w.len(),
    decreases w.len(),
{
    if w.len() > 0 {
        lemma_count_le_len(w.drop_last(), v);
    }
}

/// A symbol that never occurs has count zero.
pub proof fn lemma_count_absent(w: Seq<u8>, v: u8)
    requires
        forall|j: int| 0 <= j < w.len() ==> w[j] != v,
    ensures
        count_of(w, v) == 0,
    decreases w.len(),
{
    if w.len() > 0 {
        lemma_count_absent(w.drop_last(), v);
    }
}

/// The empty word is a lattice word.
pub proof fn lemma_empty_is_lattice()
    ensures
        is_lattice_word(Seq::<u8>::empty()),
{
    let w = Seq::<u8>::empty();
    assert forall|i: int, v: u8|
        0 <= i <= w.len() && min_sym(w) < v implies #[trigger] count_of(w.take(i), v) <= count_of(
        w.take(i),
        (v - 1) as u8,
    ) by {
        assert(w.take(i) =~= w);
    }
}

/// Every element of a non-empty word lies between its minimum and maximum.
pub proof fn lemma_min_max_bounds(w: Seq<u8>, j: int)
    requires
        0 <= j < w.len(),
    ensures
        min_sym(w) <= w[j] <= max_sym(w),
    decreases w.len(),
{
    if j < w.len() - 1 {
        lemma_min_max_bounds(w.drop_last(), j);
    }
}

/// The first element of a non-empty lattice word is its minimum symbol.
pub proof fn lemma_first_is_min(w: Seq<u8>)
    requires
        w.len() > 0,
        is_lattice_word(w),
    ensures
        w[0] == min_sym(w),
{
    lemma_min_max_bounds(w, 0);
    if w[0] > min_sym(w) {
        let v = w[0];
        assert(count_of(w.take(1), v) <= count_of(w.take(1), (v - 1) as u8));
        assert(w.take(1) =~= Seq::empty().push(w[0]));
        lemma_count_push(Seq::empty(), v, w[0]);
        lemma_count_push(Seq::empty(), (v - 1) as u8, w[0]);
    }
}

} // verus!
