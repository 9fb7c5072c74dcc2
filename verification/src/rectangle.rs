use vstd::prelude::*;

use crate::counts::{
    count_of, is_lattice_word, lemma_count_absent, lemma_count_take_succ, lemma_first_is_min,
    lemma_min_max_bounds, max_sym, min_sym,
};

verus! {

/// A word has rectangular content when its first symbol and its largest
/// symbol occur equally often; for a lattice word this holds exactly when
/// every symbol between the minimum and the maximum occurs equally often.
pub open spec fn is_rectangular(w: Seq<u8>) -> bool {
    count_of(w, w[0]) == count_of(w, max_sym(w))
}

/// One scan comparing how often the first symbol and the running maximum
/// occur.
pub(crate) fn is_rectangle(word: &Vec<u8>) -> (r: bool)
    requires
        word@.len() > 0,
    ensures
        r == is_rectangular(word@),
{
    let ghost w = word@;
    let n = word.len();
    let first = word[0];
    let mut max = first;
    let mut min_count: usize = 0;
    let mut max_count: usize = 0;
    let mut i: usize = 0;
    while i < n
        invariant
            0 <= i <= n,
            n == w.len(),
            word@ == w,
            first == w[0],
            min_count <= i,
            max_count <= i,
            i == 0 ==> max == first && min_count == 0 && max_count == 0,
            i >= 1 ==> max == max_sym(w.take(i as int)) && min_count == count_of(
                w.take(i as int),
                first,
            ) && max_count == count_of(w.take(i as int), max),
        decreases n - i,
    {
        let c = word[i];
        proof {
            if i >= 1 {
                assert(w.take(i + 1).drop_last() =~= w.take(i as int));
                assert(w.take(i + 1).last() == w[i as int]);
            } else {
                assert(w.take(1) =~= seq![w[0]]);
            }
            lemma_count_take_succ(w, first, i as int);
            lemma_count_take_succ(w, c, i as int);
            lemma_count_take_succ(w, max, i as int);
        }
        if c > max {
            proof {
                if i >= 1 {
                    assert forall|j: int| 0 <= j < i implies w.take(i as int)[j] != c by {
                        lemma_min_max_bounds(w.take(i as int), j);
                    }
                    lemma_count_absent(w.take(i as int), c);
                } else {
                    assert(w.take(0int) =~= Seq::<u8>::empty());
                    lemma_count_absent(w.take(0int), c);
                }
                lemma_count_take_succ(w, c, i as int);
            }
            max = c;
            max_count = 0;
        }
        if c == first {
            min_count = min_count + 1;
        }
        if c == max {
            max_count = max_count + 1;
        }
        i = i + 1;
    }
    proof {
        assert(w.take(n as int) =~= w);
    }
    min_count == max_count
}

/// In a lattice word, a larger symbol never occurs more often than a
/// smaller one.
pub proof fn lemma_counts_chain(w: Seq<u8>, a: u8, b: u8)
    requires
        is_lattice_word(w),
        min_sym(w) <= a <= b,
    ensures
        count_of(w, b) <= count_of(w, a),
    decreases b - a,
{
    if a < b {
        lemma_counts_chain(w, a, (b - 1) as u8);
        assert(w.take(w.len() as int) =~= w);
        assert(count_of(w.take(w.len() as int), b) <= count_of(
            w.take(w.len() as int),
            (b - 1) as u8,
        ));
    }
}

/// In a rectangular lattice word, every symbol between the minimum and the
/// maximum occurs exactly as often as the minimum.
pub proof fn lemma_rect_counts_equal(w: Seq<u8>, v: u8)
    requires
        is_lattice_word(w),
        w.len() > 0,
        is_rectangular(w),
        min_sym(w) <= v <= max_sym(w),
    ensures
        count_of(w, v) == count_of(w, min_sym(w)),
{
    lemma_first_is_min(w);
    lemma_counts_chain(w, min_sym(w), v);
    lemma_counts_chain(w, v, max_sym(w));
}

/// Law: for a lattice word, the first symbol and the maximum occur equally
/// often exactly when every symbol between the minimum and the maximum
/// occurs equally often.
pub proof fn lemma_rectangular_iff_counts_equal(w: Seq<u8>)
    requires
        is_lattice_word(w),
        w.len() > 0,
    ensures
        is_rectangular(w) <==> (forall|v: u8|
            min_sym(w) <= v <= max_sym(w) ==> #[trigger] count_of(w, v) == count_of(
                w,
                min_sym(w),
            )),
{
    lemma_first_is_min(w);
    lemma_min_max_bounds(w, 0);
    if is_rectangular(w) {
        assert forall|v: u8|
            min_sym(w) <= v <= max_sym(w) implies #[trigger] count_of(w, v) == count_of(
            w,
            min_sym(w),
        ) by {
            lemma_rect_counts_equal(w, v);
        }
    }
}

/// A symbol that occurs at some position has a positive count.
pub proof fn lemma_count_occurs(w: Seq<u8>, j: int)
    requires
        0 <= j < w.len(),
    ensures
        count_of(w, w[j]) >= 1,
    decreases w.len(),
{
    if j == w.len() - 1 {
    } else {
        lemma_count_occurs(w.drop_last(), j);
    }
}

/// The maximum symbol occurs somewhere.
proof fn lemma_max_occurs(w: Seq<u8>)
    requires
        w.len() > 0,
    ensures
        exists|j: int| 0 <= j < w.len() && w[j] == max_sym(w),
    decreases w.len(),
{
    if w.len() == 1 {
        assert(w[0] == max_sym(w));
    } else if w.last() > max_sym(w.drop_last()) {
        assert(w[w.len() - 1] == max_sym(w));
    } else {
        lemma_max_occurs(w.drop_last());
        let j = choose|j: int|
            0 <= j < w.drop_last().len() && w.drop_last()[j] == max_sym(w.drop_last());
        assert(w[j] == max_sym(w));
    }
}

/// The minimum symbol occurs somewhere.
pub(crate) proof fn lemma_min_occurs(w: Seq<u8>)
    requires
        w.len() > 0,
    ensures
        exists|j: int| 0 <= j < w.len() && w[j] == min_sym(w),
    decreases w.len(),
{
    if w.len() == 1 {
        assert(w[0] == min_sym(w));
    } else if w.last() < min_sym(w.drop_last()) {
        assert(w[w.len() - 1] == min_sym(w));
    } else {
        lemma_min_occurs(w.drop_last());
        let j = choose|j: int|
            0 <= j < w.drop_last().len() && w.drop_last()[j] == min_sym(w.drop_last());
        assert(w[j] == min_sym(w));
    }
}

/// Two non-empty words with the same content share their minimum and
/// maximum symbols.
pub proof fn lemma_same_counts_same_extremes(a: Seq<u8>, b: Seq<u8>)
    requires
        a.len() > 0,
        b.len() > 0,
        forall|y: u8| #[trigger] count_of(a, y) == count_of(b, y),
    ensures
        max_sym(a) == max_sym(b),
        min_sym(a) == min_sym(b),
{
    lemma_occurring_bounds(a, b);
    lemma_occurring_bounds(b, a);
}

/// Every symbol of `a` also occurs in `b` when the contents agree, so `b`'s
/// extremes enclose `a`'s.
proof fn lemma_occurring_bounds(a: Seq<u8>, b: Seq<u8>)
    requires
        a.len() > 0,
        b.len() > 0,
        forall|y: u8| #[trigger] count_of(a, y) == count_of(b, y),
    ensures
        min_sym(b) <= min_sym(a),
        max_sym(a) <= max_sym(b),
{
    lemma_max_occurs(a);
    let j = choose|j: int| 0 <= j < a.len() && a[j] == max_sym(a);
    lemma_count_occurs(a, j);
    if max_sym(a) > max_sym(b) {
        assert forall|q: int| 0 <= q < b.len() implies b[q] != max_sym(a) by {
            lemma_min_max_bounds(b, q);
        }
        lemma_count_absent(b, max_sym(a));
    }
    lemma_min_occurs(a);
    let j2 = choose|j2: int| 0 <= j2 < a.len() && a[j2] == min_sym(a);
    lemma_count_occurs(a, j2);
    if min_sym(a) < min_sym(b) {
        assert forall|q: int| 0 <= q < b.len() implies b[q] != min_sym(a) by {
            lemma_min_max_bounds(b, q);
        }
        lemma_count_absent(b, min_sym(a));
    }
}

/// Law: a lattice word with the same content as a rectangular lattice word
/// is itself rectangular.
pub proof fn lemma_content_rectangular(a: Seq<u8>, b: Seq<u8>)
    requires
        a.len() > 0,
        b.len() > 0,
        forall|y: u8| #[trigger] count_of(a, y) == count_of(b, y),
        is_lattice_word(a),
        is_lattice_word(b),
        is_rectangular(a),
    ensures
        is_rectangular(b),
{
    lemma_same_counts_same_extremes(a, b);
    lemma_first_is_min(a);
    lemma_first_is_min(b);
}

/// A rectangular lattice word ends with its maximum symbol.
pub proof fn lemma_rect_last_is_max(w: Seq<u8>)
    requires
        is_lattice_word(w),
        w.len() > 0,
        is_rectangular(w),
    ensures
        w[w.len() - 1] == max_sym(w),
{
    let n = w.len() as int;
    let e = w[n - 1];
    let mx = max_sym(w);
    let mn = min_sym(w);
    lemma_min_max_bounds(w, n - 1);
    if e != mx {
        let f = (e + 1) as u8;
        lemma_rect_counts_equal(w, e);
        lemma_rect_counts_equal(w, f);
        let c = count_of(w, mn);
        lemma_count_occurs(w, n - 1);
        lemma_count_take_succ(w, e, n - 1);
        lemma_count_take_succ(w, f, n - 1);
        assert(w.take(n) =~= w);
        assert(count_of(w.take(n - 1), f) == c);
        assert(count_of(w.take(n - 1), e) == c - 1);
        assert(count_of(w.take(n - 1), f) <= count_of(w.take(n - 1), (f - 1) as u8));
    }
}

} // verus!
