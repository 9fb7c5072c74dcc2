use vstd::prelude::*;

use crate::counts::{
    count_of, is_lattice_word, lemma_empty_is_lattice, lemma_first_is_min, lemma_min_max_bounds,
    max_sym, min_sym,
};
use crate::errors::Error;
use crate::lattice_word::LatticeWord;
use crate::rectangle::{is_rectangle, is_rectangular, lemma_rect_last_is_max};

verus! {

/// State of the hole-propagation scan of one promotion step: the working
/// buffer, one running occurrence count per row, the row and column the hole
/// sits in, and whether the hole has reached the first row.
pub struct PromoState {
    pub buf: Seq<u8>,
    pub counts: Seq<int>,
    pub hole_row: u8,
    pub hole_col: int,
    pub done: bool,
}

pub open spec fn zero_counts(len: int) -> Seq<int> {
    Seq::new(len as nat, |j: int| 0)
}

/// One element of the reverse scan, at index `i` of the working buffer:
/// count the element's row; if the element sits in the hole's row the hole
/// moves one column over, otherwise if its row just reached the hole's
/// column the hole moves into this cell and one row up.
pub open spec fn promo_step(first: u8, st: PromoState, i: int) -> PromoState {
    let e = st.buf[i];
    let slot = e - first;
    let counts2 = st.counts.update(slot, st.counts[slot] + 1);
    if e == st.hole_row {
        PromoState {
            buf: st.buf,
            counts: counts2,
            hole_row: st.hole_row,
            hole_col: st.hole_col + 1,
            done: st.done,
        }
    } else if counts2[slot] == st.hole_col {
        PromoState {
            buf: st.buf.update(i, st.hole_row),
            counts: counts2,
            hole_row: (st.hole_row - 1) as u8,
            hole_col: st.hole_col,
            done: (st.hole_row - 1) as u8 == first,
        }
    } else {
        PromoState {
            buf: st.buf,
            counts: counts2,
            hole_row: st.hole_row,
            hole_col: st.hole_col,
            done: st.done,
        }
    }
}

/// The scan run from index `i` down to 0, stopping once done.
pub open spec fn promo_run(first: u8, st: PromoState, i: int) -> PromoState
    decreases i + 1,
{
    if i < 0 || st.done {
        st
    } else {
        promo_run(first, promo_step(first, st, i), i - 1)
    }
}

/// The scan's starting state for a non-empty word `w`: the working buffer is
/// `w` shifted right by one with its first symbol seeded at position 0, the
/// hole starts in the row of the dropped last symbol, and that row's count
/// starts at 1.
pub open spec fn promo_init(w: Seq<u8>) -> PromoState {
    let n = w.len() as int;
    let first = w[0];
    let last = w[n - 1];
    PromoState {
        buf: seq![first] + w.take(n - 1),
        counts: zero_counts(last - first + 1).update(last - first, 1),
        hole_row: last,
        hole_col: 1,
        done: false,
    }
}

/// The single promotion step, as a function of the word alone.
pub open spec fn promotion_spec(w: Seq<u8>) -> Seq<u8> {
    if w.len() == 0 {
        w
    } else {
        promo_run(w[0], promo_init(w), w.len() - 1).buf
    }
}

/// `k` promotion steps.
pub open spec fn promo_iter(w: Seq<u8>, k: nat) -> Seq<u8>
    decreases k,
{
    if k == 0 {
        w
    } else {
        promotion_spec(promo_iter(w, (k - 1) as nat))
    }
}

impl LatticeWord {
    /// One promotion step.  Defined only for rectangular contents; the empty
    /// word promotes to itself.  The promoted word is proved to be a lattice
    /// word of the same rectangular content, so success is owed whenever the
    /// content is rectangular.
    pub fn promotion(&self) -> (r: Result<LatticeWord, Error>)
        requires
            self.wf(),
            self@.len() < usize::MAX,
        ensures
            r is Ok <==> (self@.len() == 0 || is_rectangular(self@)),
            r matches Err(e) ==> e == Error::NotRectangular,
            r matches Ok(lw) ==> lw.wf() && lw@ == promotion_spec(self@) && lw@.len()
                == self@.len(),
            r matches Ok(lw) ==> (forall|y: u8|
                #[trigger] count_of(lw@, y) == count_of(self@, y)),
            self@.len() > 0 ==> (r matches Ok(lw) ==> is_rectangular(lw@)),
            self@.len() == 0 ==> (r matches Ok(lw) && lw@ == self@),
    {
        let ghost w = self@;
        let word = self.as_bytes();
        let n = word.len();
        if n == 0 {
            proof {
                lemma_empty_is_lattice();
                assert(w =~= Seq::<u8>::empty());
            }
            let out = LatticeWord::unchecked_new(Vec::new());
            proof {
                assert(out@ =~= w);
            }
            return Ok(out);
        }
        if !is_rectangle(word) {
            return Err(Error::NotRectangular);
        }
        let first = word[0];
        let last = word[n - 1];
        proof {
            lemma_first_is_min(w);
            lemma_rect_last_is_max(w);
            lemma_min_max_bounds(w, 0);
        }
        // The working buffer: the first symbol, then all of the word but its
        // last symbol.
        let mut new_inner: Vec<u8> = Vec::new();
        new_inner.push(first);
        let mut t: usize = 0;
        while t < n - 1
            invariant
                0 <= t <= n - 1,
                n == w.len(),
                word@ == w,
                first == w[0],
                new_inner@ == seq![first] + w.take(t as int),
            decreases n - 1 - t,
        {
            new_inner.push(word[t]);
            assert(new_inner@ =~= seq![first] + w.take(t + 1));
            t = t + 1;
        }
        let width = (last - first) as usize + 1;
        let mut counts: Vec<usize> = Vec::new();
        let mut k: usize = 0;
        while k < width
            invariant
                counts@.len() == k,
                k <= width,
                forall|j: int| 0 <= j < k ==> counts@[j] == 0,
            decreases width - k,
        {
            counts.push(0);
            k = k + 1;
        }
        counts.set(width - 1, 1);
        let mut hole_row = last;
        let mut hole_col: usize = 1;
        let ghost init_st = promo_init(w);
        let ghost mut st = init_st;
        proof {
            assert(st.buf == new_inner@);
            assert(st.counts.len() == width);
            assert forall|j: int| 0 <= j < width implies st.counts[j] == counts@[j] by {}
            assert forall|j: int| 0 <= j < n implies first <= #[trigger] new_inner@[j] <= last by {
                if j >= 1 {
                    lemma_min_max_bounds(w, j - 1);
                }
            }
        }
        let mut idx: usize = n;
        while idx > 0
            invariant_except_break
                st.done == false,
                first < last ==> first < st.hole_row,
            invariant
                0 <= idx <= n,
                n == w.len(),
                n < usize::MAX,
                first == w[0] && first == min_sym(w),
                last == w[n - 1] && last == max_sym(w),
                first <= last,
                new_inner@.len() == n,
                new_inner@ == st.buf,
                counts@.len() == width,
                width == last - first + 1,
                st.counts.len() == width,
                forall|j: int| 0 <= j < width ==> st.counts[j] == counts@[j],
                forall|j: int| 0 <= j < width ==> 0 <= #[trigger] counts@[j] <= 1 + (n - idx),
                hole_row == st.hole_row,
                first <= hole_row <= last,
                hole_col == st.hole_col,
                1 <= hole_col <= 1 + (n - idx),
                forall|j: int| 0 <= j < n ==> first <= #[trigger] new_inner@[j] <= last,
                promo_run(first, st, idx - 1) == promo_run(first, init_st, n - 1),
            ensures
                new_inner@ == promo_run(first, init_st, n - 1).buf,
                new_inner@.len() == n,
            decreases idx,
        {
            let i = idx - 1;
            let e = new_inner[i];
            let slot = (e - first) as usize;
            let c = counts[slot] + 1;
            counts.set(slot, c);
            let ghost prev_st = st;
            proof {
                st = promo_step(first, prev_st, i as int);
                assert(promo_run(first, prev_st, i as int) == promo_run(
                    first,
                    st,
                    i as int - 1,
                ));
            }
            if e == hole_row {
                hole_col = hole_col + 1;
            } else if c == hole_col {
                proof {
                    // The hole can only move below `first` out of its own
                    // row, and in a one-row rectangle every element sits in
                    // the hole's row.
                    if first == last {
                        assert(e == first);
                        assert(hole_row == first);
                        assert(false);
                    }
                }
                new_inner.set(i, hole_row);
                hole_row = hole_row - 1;
                if hole_row == first {
                    proof {
                        assert(st.done);
                        assert(promo_run(first, st, i as int - 1) == st);
                    }
                    break ;
                }
            }
            idx = i;
        }
        proof {
            assert forall|y: u8| #[trigger] count_of(new_inner@, y) == count_of(w, y) by {
                lemma_promotion_content(w, y);
            }
            lemma_promotion_valid(w);
            crate::rectangle::lemma_content_rectangular(w, new_inner@);
        }
        Ok(LatticeWord::unchecked_new(new_inner))
    }

    /// The promotion order: the smallest positive number of promotion steps
    /// that reproduces this word.  Fails on non-rectangular content, as
    /// `promotion` does.  The search is capped at `usize::MAX - 2` steps; on
    /// rectangular content an error can only report that no iterate within
    /// the cap reproduced the word, which the finite promotion orbit never
    /// lets happen, though that finiteness is not formalized here.
    pub fn promotion_order(&self) -> (r: Result<usize, Error>)
        requires
            self.wf(),
            self@.len() < usize::MAX,
        ensures
            r matches Ok(k) ==> 1 <= k && promo_iter(self@, k as nat) == self@ && (forall|j: int|
                1 <= j < k ==> #[trigger] promo_iter(self@, j as nat) != self@),
            r matches Err(e) ==> e == Error::NotRectangular,
            self@.len() > 0 && !is_rectangular(self@) ==> r is Err,
            self@.len() > 0 && is_rectangular(self@) && r is Err ==> (forall|j: int|
                1 <= j < usize::MAX - 1 ==> #[trigger] promo_iter(self@, j as nat) != self@),
            self@.len() == 0 ==> r == Ok::<usize, Error>(1),
    {
        let mut cur = match self.promotion() {
            Ok(x) => x,
            Err(e) => {
                return Err(e);
            },
        };
        let mut k: usize = 1;
        proof {
            assert(promo_iter(self@, 1nat) == promotion_spec(promo_iter(self@, 0nat)));
        }
        loop
            invariant
                1 <= k < usize::MAX,
                self@.len() == 0 ==> k == 1 && cur@ == self@,
                self@.len() > 0 ==> is_rectangular(self@),
                self@.len() > 0 ==> is_rectangular(cur@),
                cur.wf(),
                self.wf(),
                cur@ == promo_iter(self@, k as nat),
                cur@.len() == self@.len(),
                self@.len() < usize::MAX,
                forall|j: int| 1 <= j < k ==> #[trigger] promo_iter(self@, j as nat) != self@,
            decreases usize::MAX - k,
        {
            if vec_eq(cur.as_bytes(), self.as_bytes()) {
                return Ok(k);
            }
            if k == usize::MAX - 1 {
                // The cap: unreachable in fact, since the orbit is finite.
                return Err(Error::NotRectangular);
            }
            cur = match cur.promotion() {
                Ok(x) => x,
                Err(e) => {
                    return Err(e);
                },
            };
            k = k + 1;
            proof {
                assert(promo_iter(self@, k as nat) == promotion_spec(
                    promo_iter(self@, (k - 1) as nat),
                ));
            }
        }
    }
}

/// A word splits at any point into count-summing halves.
proof fn lemma_count_split(w: Seq<u8>, j: int, x: u8)
    requires
        0 <= j <= w.len(),
    ensures
        count_of(w, x) == count_of(w.take(j), x) + count_of(w.skip(j), x),
{
    assert(w =~= w.take(j) + w.skip(j));
    crate::content::lemma_count_concat(w.take(j), w.skip(j), x);
}

/// Dropping the first element of a suffix removes one occurrence of it.
proof fn lemma_skip_count_step(w: Seq<u8>, j: int, x: u8)
    requires
        1 <= j <= w.len(),
    ensures
        count_of(w.skip(j - 1), x) == count_of(w.skip(j), x) + (if w[j - 1] == x {
            1nat
        } else {
            0nat
        }),
{
    assert(w.skip(j - 1) =~= Seq::empty().push(w[j - 1]) + w.skip(j));
    crate::content::lemma_count_concat(Seq::empty().push(w[j - 1]), w.skip(j), x);
    crate::counts::lemma_count_push(Seq::empty(), x, w[j - 1]);
}

/// In a rectangular lattice word, suffix counts weakly increase with the
/// symbol: what the prefix has used up of a smaller symbol is at least what
/// it used of a larger one.
proof fn lemma_suffix_chain(w: Seq<u8>, j: int, r1: u8, r2: u8)
    requires
        is_lattice_word(w),
        w.len() > 0,
        is_rectangular(w),
        min_sym(w) <= r1 <= r2 <= max_sym(w),
        0 <= j <= w.len(),
    ensures
        count_of(w.skip(j), r1) <= count_of(w.skip(j), r2),
    decreases r2 - r1,
{
    if r1 < r2 {
        lemma_suffix_chain(w, j, r1, (r2 - 1) as u8);
        crate::rectangle::lemma_rect_counts_equal(w, r2);
        crate::rectangle::lemma_rect_counts_equal(w, (r2 - 1) as u8);
        lemma_count_split(w, j, r2);
        lemma_count_split(w, j, (r2 - 1) as u8);
        assert(count_of(w.take(j), r2) <= count_of(w.take(j), (r2 - 1) as u8));
    }
}

/// The invariant of the reverse hole-propagation scan, about to process
/// buffer index `i`: the counts mirror the suffix of the original word, the
/// hole's row has exactly reached the hole's column while every row below
/// it has not, and the buffer holds the original content with the first
/// symbol added and the hole's row removed.
spec fn scan_inv(w: Seq<u8>, st: PromoState, i: int) -> bool {
    let n = w.len() as int;
    let first = w[0];
    let last = w[n - 1];
    &&& 0 <= i <= n - 1
    &&& !st.done
    &&& st.buf.len() == n
    &&& st.counts.len() == last - first + 1
    &&& first <= st.hole_row <= last
    &&& (st.hole_row == first ==> first == last)
    &&& (forall|r: u8|
        first <= r <= last ==> #[trigger] st.counts[r - first] == count_of(w.skip(i), r))
    &&& st.counts[st.hole_row - first] == st.hole_col
    &&& (forall|r: u8| first <= r < st.hole_row ==> #[trigger] st.counts[r - first] < st.hole_col)
    &&& (forall|r: u8| (#[trigger] count_of(st.buf, r)) as int == count_of(w, r) + (if r == first {
        1int
    } else {
        0int
    }) - (if r == st.hole_row {
        1int
    } else {
        0int
    }))
    &&& (forall|r: u8| (#[trigger] count_of(st.buf.skip(i + 1), r)) as int == count_of(
        w.skip(i),
        r,
    ) - (if r == st.hole_row {
        1int
    } else {
        0int
    }))
    &&& (forall|j: int|
        0 <= j <= i ==> #[trigger] st.buf[j] == (if j == 0 {
            w[0]
        } else {
            w[j - 1]
        }))
    &&& (forall|j: int| 0 <= j < n ==> first <= #[trigger] st.buf[j] <= last)
}

/// The scan only writes at or below the index it is about to process.
proof fn lemma_promo_run_frame(first: u8, st: PromoState, i: int)
    requires
        i < st.buf.len(),
    ensures
        promo_run(first, st, i).buf.len() == st.buf.len(),
        forall|j: int|
            i < j < st.buf.len() ==> #[trigger] promo_run(first, st, i).buf[j] == st.buf[j],
    decreases i + 1,
{
    if i < 0 || st.done {
    } else {
        let st2 = promo_step(first, st, i);
        lemma_promo_run_frame(first, st2, i - 1);
        assert(st2.buf.len() == st.buf.len());
        assert forall|j: int| i < j < st.buf.len() implies #[trigger] st2.buf[j] == st.buf[j] by {}
        assert(promo_run(first, st, i) == promo_run(first, st2, i - 1));
    }
}

/// At index 0 the counts cover the whole word, where every row's count is
/// equal, so the hole has already reached the first row and the content is
/// restored.
proof fn lemma_scan_base(w: Seq<u8>, st: PromoState)
    requires
        is_lattice_word(w),
        w.len() > 0,
        is_rectangular(w),
        scan_inv(w, st, 0),
    ensures
        st.hole_row == w[0],
        promo_run(w[0], st, 0) == promo_step(w[0], st, 0),
        promo_step(w[0], st, 0).buf == st.buf,
        forall|r: u8| (#[trigger] count_of(promo_run(w[0], st, 0).buf, r)) == count_of(w, r),
{
    let first = w[0];
    lemma_first_is_min(w);
    lemma_rect_last_is_max(w);
    assert(w.skip(0) =~= w);
    assert(st.hole_row == first) by {
        if st.hole_row != first {
            crate::rectangle::lemma_rect_counts_equal(w, st.hole_row);
            crate::rectangle::lemma_rect_counts_equal(w, first);
            assert(st.counts[first - first] < st.hole_col);
            assert(st.counts[st.hole_row - first] == st.hole_col);
        }
    }
    assert(st.buf[0] == first);
    let st2 = promo_step(first, st, 0);
    assert(st2.buf == st.buf);
    assert(promo_run(first, st, 0) == promo_run(first, st2, -1));
}

/// One step of the scan from a state satisfying the invariant: the step
/// touches only index `i`; while the hole stays above the first row the
/// invariant carries to the next index, and the step that lands the hole on
/// the first row restores the original content.
#[verifier::spinoff_prover]
proof fn lemma_scan_step(w: Seq<u8>, st: PromoState, i: int)
    requires
        is_lattice_word(w),
        w.len() > 0,
        is_rectangular(w),
        scan_inv(w, st, i),
        i >= 1,
    ensures
        promo_step(w[0], st, i).buf.len() == w.len(),
        forall|j: int|
            0 <= j < w.len() && j != i ==> #[trigger] promo_step(w[0], st, i).buf[j] == st.buf[j],
        !promo_step(w[0], st, i).done ==> scan_inv(w, promo_step(w[0], st, i), i - 1),
        promo_step(w[0], st, i).done ==> promo_step(w[0], st, i).hole_row == w[0] && (forall|r: u8|
            (#[trigger] count_of(promo_step(w[0], st, i).buf, r)) == count_of(w, r)),
{
    let n = w.len() as int;
    let first = w[0];
    let last = w[n - 1];
    lemma_first_is_min(w);
    lemma_rect_last_is_max(w);
    let e = st.buf[i];
    let st2 = promo_step(first, st, i);
    assert(e == w[i - 1]);
    let slot = e - first;
    assert forall|r: u8|
        first <= r <= last implies #[trigger] st2.counts[r - first] == count_of(
        w.skip(i - 1),
        r,
    ) by {
        lemma_skip_count_step(w, i, r);
    }
    assert(st2.buf.skip(i + 1) =~= st.buf.skip(i + 1));
    if e == st.hole_row {
        assert(scan_inv(w, st2, i - 1)) by {
            assert forall|r: u8|
                first <= r < st2.hole_row implies #[trigger] st2.counts[r - first]
                < st2.hole_col by {}
            assert forall|r: u8| (#[trigger] count_of(st2.buf.skip(i), r)) as int == count_of(
                w.skip(i - 1),
                r,
            ) - (if r == st2.hole_row {
                1int
            } else {
                0int
            }) by {
                lemma_skip_count_step(st2.buf, i + 1, r);
                lemma_skip_count_step(w, i, r);
            }
        }
    } else {
        let counts2 = st.counts.update(slot, st.counts[slot] + 1);
        if counts2[slot] == st.hole_col {
            // Only the row just beneath the hole can have reached the
            // hole's column.
            assert(e == st.hole_row - 1) by {
                if e > st.hole_row {
                    lemma_suffix_chain(w, i, st.hole_row, e);
                    assert(st.counts[e - first] >= st.counts[st.hole_row - first]);
                } else if e < st.hole_row - 1 {
                    let b = (st.hole_row - 1) as u8;
                    lemma_suffix_chain(w, i - 1, e, b);
                    assert(st2.counts[e - first] == count_of(w.skip(i - 1), e));
                    assert(st2.counts[b - first] == count_of(w.skip(i - 1), b));
                    assert(st2.counts[b - first] == st.counts[b - first]);
                    assert(st.counts[b - first] < st.hole_col);
                }
            }
            assert forall|r: u8| (#[trigger] count_of(st2.buf.skip(i), r)) as int == count_of(
                w.skip(i - 1),
                r,
            ) - (if r == st2.hole_row {
                1int
            } else {
                0int
            }) by {
                lemma_skip_count_step(st2.buf, i + 1, r);
                lemma_skip_count_step(w, i, r);
            }
            if st2.done {
                assert forall|r: u8| (#[trigger] count_of(st2.buf, r)) == count_of(w, r) by {
                    lemma_count_update_cell(st.buf, i, st.hole_row, r);
                }
            } else {
                assert(scan_inv(w, st2, i - 1)) by {
                    assert forall|r: u8| (#[trigger] count_of(st2.buf, r)) as int == count_of(
                        w,
                        r,
                    ) + (if r == first {
                        1int
                    } else {
                        0int
                    }) - (if r == st2.hole_row {
                        1int
                    } else {
                        0int
                    }) by {
                        lemma_count_update_cell(st.buf, i, st.hole_row, r);
                    }
                    assert forall|j: int|
                        0 <= j <= i - 1 implies #[trigger] st2.buf[j] == (if j == 0 {
                        w[0]
                    } else {
                        w[j - 1]
                    }) by {}
                }
            }
        } else {
            assert(scan_inv(w, st2, i - 1)) by {
                assert forall|r: u8|
                    first <= r < st2.hole_row implies #[trigger] st2.counts[r - first]
                    < st2.hole_col by {}
                assert forall|r: u8| (#[trigger] count_of(st2.buf.skip(i), r)) as int == count_of(
                    w.skip(i - 1),
                    r,
                ) - (if r == st2.hole_row {
                    1int
                } else {
                    0int
                }) by {
                    lemma_skip_count_step(st2.buf, i + 1, r);
                    lemma_skip_count_step(w, i, r);
                }
            }
        }
    }
}

/// Running the scan from a state satisfying the invariant restores the
/// original content: the hole walks down one row at a time, each time
/// swallowing a cell of the row beneath it, until it reaches the first row.
proof fn lemma_promo_run_preserves(w: Seq<u8>, st: PromoState, i: int)
    requires
        is_lattice_word(w),
        w.len() > 0,
        is_rectangular(w),
        scan_inv(w, st, i),
    ensures
        forall|r: u8| (#[trigger] count_of(promo_run(w[0], st, i).buf, r)) == count_of(w, r),
    decreases i + 1,
{
    let first = w[0];
    if i == 0 {
        lemma_scan_base(w, st);
    } else {
        lemma_scan_step(w, st, i);
        let st2 = promo_step(first, st, i);
        assert(promo_run(first, st, i) == promo_run(first, st2, i - 1));
        if st2.done {
            assert(promo_run(first, st2, i - 1) == st2);
        } else {
            lemma_promo_run_preserves(w, st2, i - 1);
        }
    }
}

/// The prefix through index `i` of the scan's result satisfies the ballot
/// inequality at `v`: prefix counts are whole-word counts minus suffix
/// counts, and the invariant bounds the suffix counts row by row.
#[verifier::spinoff_prover]
proof fn lemma_prefix_step_ballot(w: Seq<u8>, st: PromoState, i: int, v: u8)
    requires
        is_lattice_word(w),
        w.len() > 0,
        is_rectangular(w),
        scan_inv(w, st, i),
        w[0] < v,
    ensures
        count_of(promo_run(w[0], st, i).buf.take(i + 1), v) <= count_of(
            promo_run(w[0], st, i).buf.take(i + 1),
            (v - 1) as u8,
        ),
{
    let n = w.len() as int;
    let first = w[0];
    let last = w[n - 1];
    let h = st.hole_row;
    lemma_first_is_min(w);
    lemma_rect_last_is_max(w);
    let t = promo_run(first, st, i).buf;
    lemma_promo_run_preserves(w, st, i);
    lemma_promo_run_frame(first, st, i);
    assert(t.skip(i + 1) =~= st.buf.skip(i + 1));
    let u = (v - 1) as u8;
    lemma_count_split(t, i + 1, v);
    lemma_count_split(t, i + 1, u);
    assert(count_of(t.take(i + 1), v) as int == count_of(w, v) - count_of(w.skip(i), v) + (if v
        == h {
        1int
    } else {
        0int
    }));
    assert(count_of(t.take(i + 1), u) as int == count_of(w, u) - count_of(w.skip(i), u) + (if u
        == h {
        1int
    } else {
        0int
    }));
    lemma_count_split(w, i, v);
    lemma_count_split(w, i, u);
    if v > last {
        assert(count_of(w, v) == 0) by {
            assert forall|q: int| 0 <= q < w.len() implies #[trigger] w[q] != v by {
                lemma_min_max_bounds(w, q);
            }
            crate::counts::lemma_count_absent(w, v);
        }
        assert(v != h);
    } else {
        crate::rectangle::lemma_rect_counts_equal(w, v);
        crate::rectangle::lemma_rect_counts_equal(w, u);
        if v == h {
            assert(st.counts[u - first] < st.hole_col);
            assert(st.counts[v - first] == st.hole_col);
        } else if u == h {
            lemma_suffix_chain(w, i, u, v);
        } else {
            lemma_suffix_chain(w, i, u, v);
        }
    }
}

/// Every prefix of the shifted buffer inherits the ballot inequality from
/// the original word.
proof fn lemma_shifted_prefix_ballot(w: Seq<u8>, m: int, v: u8)
    requires
        is_lattice_word(w),
        w.len() > 0,
        1 <= m <= w.len(),
        w[0] < v,
    ensures
        count_of(seq![w[0]] + w.take(m - 1), v) <= count_of(
            seq![w[0]] + w.take(m - 1),
            (v - 1) as u8,
        ),
{
    let u = (v - 1) as u8;
    lemma_first_is_min(w);
    crate::content::lemma_count_concat(seq![w[0]], w.take(m - 1), v);
    crate::content::lemma_count_concat(seq![w[0]], w.take(m - 1), u);
    assert(seq![w[0]] =~= Seq::empty().push(w[0]));
    crate::counts::lemma_count_push(Seq::empty(), v, w[0]);
    crate::counts::lemma_count_push(Seq::empty(), u, w[0]);
    assert(count_of(w.take(m - 1), v) <= count_of(w.take(m - 1), u));
}

/// Every prefix of the scan's result satisfies the ballot inequality.
#[verifier::spinoff_prover]
proof fn lemma_promo_run_ballot(w: Seq<u8>, st: PromoState, i: int)
    requires
        is_lattice_word(w),
        w.len() > 0,
        is_rectangular(w),
        scan_inv(w, st, i),
    ensures
        promo_run(w[0], st, i).buf.len() == w.len(),
        promo_run(w[0], st, i).buf[0] == w[0],
        forall|m: int, v: u8|
            0 <= m <= i + 1 && w[0] < v ==> #[trigger] count_of(
                promo_run(w[0], st, i).buf.take(m),
                v,
            ) <= count_of(promo_run(w[0], st, i).buf.take(m), (v - 1) as u8),
    decreases i + 1,
{
    let n = w.len() as int;
    let first = w[0];
    let t = promo_run(first, st, i).buf;
    lemma_promo_run_frame(first, st, i);
    if i == 0 {
        lemma_scan_base(w, st);
        assert(t == st.buf);
        assert forall|m: int, v: u8|
            0 <= m <= 1 && first < v implies #[trigger] count_of(t.take(m), v) <= count_of(
            t.take(m),
            (v - 1) as u8,
        ) by {
            if m == 0 {
                assert(t.take(0) =~= Seq::<u8>::empty());
            } else {
                assert(t.take(1) =~= Seq::empty().push(first));
                crate::counts::lemma_count_push(Seq::empty(), v, first);
                crate::counts::lemma_count_push(Seq::empty(), (v - 1) as u8, first);
            }
        }
    } else {
        lemma_scan_step(w, st, i);
        let st2 = promo_step(first, st, i);
        assert(promo_run(first, st, i) == promo_run(first, st2, i - 1));
        if st2.done {
            assert(promo_run(first, st2, i - 1) == st2);
            assert(t[0] == st.buf[0]);
            assert forall|m: int, v: u8|
                0 <= m <= i + 1 && first < v implies #[trigger] count_of(t.take(m), v) <= count_of(
                t.take(m),
                (v - 1) as u8,
            ) by {
                if m == 0 {
                    assert(t.take(0) =~= Seq::<u8>::empty());
                } else if m <= i {
                    assert(t.take(m) =~= seq![w[0]] + w.take(m - 1)) by {
                        assert forall|j: int| 0 <= j < m implies t[j] == (seq![w[0]] + w.take(
                            m - 1,
                        ))[j] by {
                            assert(t[j] == st.buf[j]);
                        }
                    }
                    lemma_shifted_prefix_ballot(w, m, v);
                } else {
                    lemma_prefix_step_ballot(w, st, i, v);
                }
            }
        } else {
            lemma_promo_run_ballot(w, st2, i - 1);
            assert forall|m: int, v: u8|
                0 <= m <= i + 1 && first < v implies #[trigger] count_of(t.take(m), v) <= count_of(
                t.take(m),
                (v - 1) as u8,
            ) by {
                if m <= i {
                } else {
                    lemma_prefix_step_ballot(w, st, i, v);
                }
            }
        }
    }
}

/// Overwriting one cell moves one occurrence between its old and new value.
proof fn lemma_count_update_cell(buf: Seq<u8>, i: int, x: u8, r: u8)
    requires
        0 <= i < buf.len(),
    ensures
        count_of(buf.update(i, x), r) == count_of(buf, r) + (if x == r {
            1int
        } else {
            0int
        }) - (if buf[i] == r {
            1int
        } else {
            0int
        }),
    decreases buf.len(),
{
    if i == buf.len() - 1 {
        assert(buf.update(i, x).drop_last() =~= buf.drop_last());
    } else {
        assert(buf.update(i, x).drop_last() =~= buf.drop_last().update(i, x));
        lemma_count_update_cell(buf.drop_last(), i, x, r);
    }
}

/// The scan's starting state satisfies the invariant.
proof fn lemma_scan_inv_init(w: Seq<u8>)
    requires
        is_lattice_word(w),
        w.len() > 0,
        is_rectangular(w),
    ensures
        scan_inv(w, promo_init(w), w.len() - 1),
{
    let n = w.len() as int;
    let first = w[0];
    let last = w[n - 1];
    lemma_first_is_min(w);
    lemma_rect_last_is_max(w);
    let st = promo_init(w);
    assert(st.buf =~= seq![first] + w.take(n - 1));
    assert forall|rr: u8|
        first <= rr <= last implies #[trigger] st.counts[rr - first] == count_of(
        w.skip(n - 1),
        rr,
    ) by {
        assert(w.skip(n - 1) =~= Seq::empty().push(w[n - 1]));
        crate::counts::lemma_count_push(Seq::empty(), rr, w[n - 1]);
    }
    assert forall|rr: u8| (#[trigger] count_of(st.buf, rr)) as int == count_of(w, rr) + (if rr
        == first {
        1int
    } else {
        0int
    }) - (if rr == last {
        1int
    } else {
        0int
    }) by {
        crate::content::lemma_count_concat(seq![first], w.take(n - 1), rr);
        assert(seq![first] =~= Seq::empty().push(first));
        crate::counts::lemma_count_push(Seq::empty(), rr, first);
        crate::counts::lemma_count_take_succ(w, rr, n - 1);
        assert(w.take(n) =~= w);
    }
    assert forall|rr: u8| (#[trigger] count_of(st.buf.skip(n), rr)) as int == count_of(
        w.skip(n - 1),
        rr,
    ) - (if rr == last {
        1int
    } else {
        0int
    }) by {
        assert(st.buf.skip(n) =~= Seq::<u8>::empty());
        assert(w.skip(n - 1) =~= Seq::empty().push(w[n - 1]));
        crate::counts::lemma_count_push(Seq::empty(), rr, w[n - 1]);
    }
    assert forall|j: int|
        0 <= j <= n - 1 implies #[trigger] st.buf[j] == (if j == 0 {
        w[0]
    } else {
        w[j - 1]
    }) by {}
    assert forall|j: int| 0 <= j < n implies first <= #[trigger] st.buf[j] <= last by {
        if j >= 1 {
            lemma_min_max_bounds(w, j - 1);
        }
    }
}

/// Law: one promotion step preserves the content of a rectangular lattice
/// word.
pub proof fn lemma_promotion_content(w: Seq<u8>, r: u8)
    requires
        is_lattice_word(w),
        w.len() > 0,
        is_rectangular(w),
    ensures
        count_of(promotion_spec(w), r) == count_of(w, r),
{
    lemma_scan_inv_init(w);
    lemma_promo_run_preserves(w, promo_init(w), w.len() - 1);
}

/// Law: one promotion step of a rectangular lattice word yields a lattice
/// word.
#[verifier::spinoff_prover]
pub proof fn lemma_promotion_valid(w: Seq<u8>)
    requires
        is_lattice_word(w),
        w.len() > 0,
        is_rectangular(w),
    ensures
        is_lattice_word(promotion_spec(w)),
{
    let n = w.len() as int;
    let first = w[0];
    let last = w[n - 1];
    lemma_first_is_min(w);
    lemma_rect_last_is_max(w);
    lemma_scan_inv_init(w);
    let st = promo_init(w);
    lemma_promo_run_ballot(w, st, n - 1);
    lemma_promo_run_preserves(w, st, n - 1);
    let w2 = promotion_spec(w);
    assert(w2 == promo_run(first, st, n - 1).buf);
    assert forall|j: int| 0 <= j < w2.len() implies first <= #[trigger] w2[j] <= last by {
        crate::rectangle::lemma_count_occurs(w2, j);
        let y = w2[j];
        if y < first || y > last {
            assert forall|q: int| 0 <= q < w.len() implies #[trigger] w[q] != y by {
                lemma_min_max_bounds(w, q);
            }
            crate::counts::lemma_count_absent(w, y);
        }
    }
    assert(min_sym(w2) == first) by {
        lemma_min_max_bounds(w2, 0);
        crate::rectangle::lemma_min_occurs(w2);
        let j = choose|j: int| 0 <= j < w2.len() && w2[j] == min_sym(w2);
        assert(first <= w2[j]);
    }
    assert forall|i: int, v: u8|
        0 <= i <= w2.len() && min_sym(w2) < v implies #[trigger] count_of(w2.take(i), v)
        <= count_of(w2.take(i), (v - 1) as u8) by {}
}

/// Element-wise comparison of two byte vectors.
fn vec_eq(a: &Vec<u8>, b: &Vec<u8>) -> (r: bool)
    ensures
        r == (a@ == b@),
{
    if a.len() != b.len() {
        return false;
    }
    let n = a.len();
    let mut i: usize = 0;
    while i < n
        invariant
            0 <= i <= n,
            n == a@.len() == b@.len(),
            forall|j: int| 0 <= j < i ==> a@[j] == b@[j],
        decreases n - i,
    {
        if a[i] != b[i] {
            return false;
        }
        i = i + 1;
    }
    proof {
        assert(a@ =~= b@);
    }
    true
}

} // verus!
