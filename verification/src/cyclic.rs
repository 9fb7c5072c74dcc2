use vstd::prelude::*;

use crate::counts::{lemma_first_is_min, lemma_min_max_bounds, max_sym, min_sym};
use crate::errors::Error;
use crate::lattice_word::{ascent_positions, scents_upto, LatticeWord};
use crate::promotion::zero_counts;
use crate::rectangle::{is_rectangle, is_rectangular, lemma_rect_last_is_max};

verus! {

/// State of the forward hole-tracking scan for cyclic descents: one running
/// occurrence count per row, the hole's row and column, and the pending
/// wrap-around marker (0 when none is pending).
pub struct CdState {
    pub counts: Seq<int>,
    pub hole_row: int,
    pub hole_col: int,
    pub pending: int,
}

/// Processing the pair `(w[i], w[i + 1])`: count the second element's row;
/// if that row is the hole's row, clear the marker and move the hole one
/// column over; otherwise, if the row's count just reached the hole's
/// column, set the marker to `i + 2` and move the hole one row up.
pub open spec fn cd_step(w: Seq<u8>, base: u8, st: CdState, i: int) -> CdState {
    let row = w[i + 1] - base;
    let counts2 = st.counts.update(row, st.counts[row] + 1);
    if row == st.hole_row {
        CdState { counts: counts2, hole_row: st.hole_row, hole_col: st.hole_col + 1, pending: 0 }
    } else if counts2[row] == st.hole_col {
        CdState {
            counts: counts2,
            hole_row: st.hole_row + 1,
            hole_col: st.hole_col,
            pending: i + 2,
        }
    } else {
        st_with_counts(st, counts2)
    }
}

pub open spec fn st_with_counts(st: CdState, counts2: Seq<int>) -> CdState {
    CdState { counts: counts2, hole_row: st.hole_row, hole_col: st.hole_col, pending: st.pending }
}

/// The scan's starting state: row 0 is seeded with count 1, the hole sits in
/// row 0, column 1.
pub open spec fn cd_init(width: int) -> CdState {
    CdState { counts: zero_counts(width).update(0, 1), hole_row: 0, hole_col: 1, pending: 0 }
}

/// The scan's state after processing the pairs at indices below `i`.
pub open spec fn cd_state_at(w: Seq<u8>, i: int) -> CdState
    decreases i,
{
    if i <= 0 {
        cd_init(w[w.len() - 1] - w[0] + 1)
    } else {
        cd_step(w, w[0], cd_state_at(w, i - 1), i - 1)
    }
}

/// The wrap-around marker left pending after the full scan, 0 when none.
pub open spec fn cyclic_marker(w: Seq<u8>) -> int {
    cd_state_at(w, w.len() - 1).pending
}

/// The cyclic-descent output of a rectangular word: the positions where the
/// word ascends, in increasing order, then the wrap-around marker when one
/// is pending.
pub open spec fn tableau_cyclic_descents_of(w: Seq<u8>) -> Seq<usize> {
    ascent_positions(w) + if cyclic_marker(w) > 0 {
        seq![cyclic_marker(w) as usize]
    } else {
        Seq::empty()
    }
}

/// The cyclic-descent positions of one word, in the order the scan found
/// them.  Emits each position once; a fresh iterator must be made per
/// traversal.
#[derive(Clone, Debug)]
pub struct TableauCyclicDescentIter {
    positions: Vec<usize>,
    index: usize,
}

impl View for TableauCyclicDescentIter {
    type V = Seq<usize>;

    closed spec fn view(&self) -> Seq<usize> {
        if self.index as int <= self.positions@.len() {
            self.positions@.skip(self.index as int)
        } else {
            Seq::empty()
        }
    }
}

impl TableauCyclicDescentIter {
    /// The next position, or `None` once exhausted.
    pub fn next(&mut self) -> (r: Option<usize>)
        ensures
            old(self)@.len() > 0 ==> r == Some(old(self)@[0]) && final(self)@ == old(self)@.skip(1),
            old(self)@.len() == 0 ==> r is None && final(self)@ == old(self)@,
    {
        if self.index < self.positions.len() {
            let v = self.positions[self.index];
            self.index = self.index + 1;
            assert(self.positions@.skip(self.index as int) =~= old(self)@.skip(1));
            assert(old(self)@[0] == self.positions@[old(self).index as int]);
            Some(v)
        } else {
            None
        }
    }
}

impl LatticeWord {
    /// The cyclic descents of this word.  Defined only for non-empty words
    /// of rectangular content.
    pub fn tableau_cyclic_descents(&self) -> (r: Result<TableauCyclicDescentIter, Error>)
        requires
            self.wf(),
            self@.len() > 0,
        ensures
            r is Ok <==> is_rectangular(self@),
            r matches Ok(it) ==> it@ == tableau_cyclic_descents_of(self@),
            r matches Err(e) ==> e == Error::NotRectangular,
    {
        let mut tracking: Vec<usize> = Vec::new();
        scan_cyclic_descents(self, &mut tracking)
    }

    /// As `tableau_cyclic_descents`, with an externally supplied scratch
    /// buffer of per-row counts, so that a caller iterating over many words
    /// of one content pays the allocation once.  The buffer's contents are
    /// reset here on each call.
    pub fn tableau_cyclic_descents_with_tracking_shape(
        &self,
        tracking_shape: &mut Vec<usize>,
    ) -> (r: Result<TableauCyclicDescentIter, Error>)
        requires
            self.wf(),
            self@.len() > 0,
        ensures
            r is Ok <==> is_rectangular(self@),
            r matches Ok(it) ==> it@ == tableau_cyclic_descents_of(self@),
            r matches Err(e) ==> e == Error::NotRectangular,
    {
        scan_cyclic_descents(self, tracking_shape)
    }

    /// As `tableau_cyclic_descents`, consuming the word.
    pub fn into_tableau_cyclic_descents(self) -> (r: Result<TableauCyclicDescentIter, Error>)
        requires
            self.wf(),
            self@.len() > 0,
        ensures
            r is Ok <==> is_rectangular(self@),
            r matches Ok(it) ==> it@ == tableau_cyclic_descents_of(self@),
            r matches Err(e) ==> e == Error::NotRectangular,
    {
        let mut tracking: Vec<usize> = Vec::new();
        scan_cyclic_descents(&self, &mut tracking)
    }
}

/// The forward scan: emits an ascent position per ascending pair and
/// tracks the hole to find the wrap-around marker.
fn scan_cyclic_descents(lw: &LatticeWord, tracking: &mut Vec<usize>) -> (r: Result<
    TableauCyclicDescentIter,
    Error,
>)
    requires
        lw.wf(),
        lw@.len() > 0,
    ensures
        r is Ok <==> is_rectangular(lw@),
        r matches Ok(it) ==> it@ == tableau_cyclic_descents_of(lw@),
        r matches Err(e) ==> e == Error::NotRectangular,
{
    let ghost w = lw@;
    let word = lw.as_bytes();
    let n = word.len();
    if !is_rectangle(word) {
        return Err(Error::NotRectangular);
    }
    let base = word[0];
    let last = word[n - 1];
    proof {
        lemma_first_is_min(w);
        lemma_rect_last_is_max(w);
        lemma_min_max_bounds(w, 0);
    }
    let width = (last - base) as usize + 1;
    while tracking.len() < width
        invariant
            width <= 256,
        decreases width - tracking@.len(),
    {
        tracking.push(0);
    }
    let mut k: usize = 1;
    tracking.set(0, 1);
    while k < width
        invariant
            1 <= k <= width,
            width <= tracking@.len(),
            tracking@[0] == 1,
            forall|j: int| 1 <= j < k ==> tracking@[j] == 0,
        decreases width - k,
    {
        tracking.set(k, 0);
        k = k + 1;
    }
    let mut hole_row: usize = 0;
    let mut hole_col: usize = 1;
    let mut pending: usize = 0;
    let mut positions: Vec<usize> = Vec::new();
    let ghost init_st = cd_state_at(w, 0);
    let ghost mut st = init_st;
    proof {
        assert(st.counts.len() == width);
        assert forall|j: int| 0 <= j < width implies st.counts[j] == tracking@[j] by {}
    }
    let mut i: usize = 0;
    while i < n - 1
        invariant
            0 <= i <= n - 1,
            n == w.len(),
            word@ == w,
            lw@ == w,
            base == w[0] && base == min_sym(w),
            last == w[n - 1] && last == max_sym(w),
            base <= last,
            width == last - base + 1,
            width <= tracking@.len(),
            st == cd_state_at(w, i as int),
            st.counts.len() == width,
            forall|j: int| 0 <= j < width ==> st.counts[j] == tracking@[j],
            forall|j: int| 0 <= j < width ==> 0 <= #[trigger] tracking@[j] <= 1 + i,
            hole_row == st.hole_row,
            hole_row <= i,
            hole_col == st.hole_col,
            1 <= hole_col <= 1 + i,
            pending == st.pending,
            0 <= pending <= n,
            positions@ == scents_upto(w, true, i as int),
        decreases n - 1 - i,
    {
        let e = word[i + 1];
        proof {
            lemma_min_max_bounds(w, i + 1);
        }
        let row = (e - base) as usize;
        let c = tracking[row] + 1;
        tracking.set(row, c);
        let ghost prev_st = st;
        proof {
            st = cd_step(w, base, prev_st, i as int);
        }
        if row == hole_row {
            pending = 0;
            hole_col = hole_col + 1;
        } else if c == hole_col {
            pending = i + 2;
            hole_row = hole_row + 1;
        }
        if word[i] < word[i + 1] {
            positions.push(i + 1);
            assert(positions@ =~= scents_upto(w, true, i as int) + seq![(i + 1) as usize]);
        } else {
            assert(scents_upto(w, true, i + 1) =~= scents_upto(w, true, i as int));
        }
        i = i + 1;
    }
    proof {
        assert(positions@ == ascent_positions(w));
        assert(st.pending == cyclic_marker(w));
    }
    if pending > 0 {
        positions.push(pending);
        assert(positions@ =~= tableau_cyclic_descents_of(w));
    } else {
        assert(positions@ =~= tableau_cyclic_descents_of(w));
    }
    let it = TableauCyclicDescentIter { positions, index: 0 };
    assert(it@ =~= tableau_cyclic_descents_of(w));
    Ok(it)
}

} // verus!
