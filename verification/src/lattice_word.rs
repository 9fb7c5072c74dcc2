use vstd::prelude::*;

use crate::counts::{count_of, is_lattice_word, min_sym};
use crate::errors::Error;

verus! {

/// An immutable byte sequence satisfying the ballot property.
#[derive(Clone, Debug)]
pub struct LatticeWord {
    word: Vec<u8>,
}

/// Positions, in increasing order, of the descents (or ascents) of a word.
/// Emits each position once; a fresh iterator must be made per traversal.
#[derive(Clone, Debug)]
pub struct ScentIter {
    positions: Vec<usize>,
    index: usize,
}

/// Positions of pairs up to and including the pair at index `i - 1`:
/// position `j` is listed when `w[j - 1] < w[j]` (ascending) or
/// `w[j - 1] > w[j]` (descending).
pub open spec fn scents_upto(w: Seq<u8>, ascending: bool, i: int) -> Seq<usize>
    decreases i,
{
    if i <= 0 {
        Seq::empty()
    } else {
        scents_upto(w, ascending, i - 1) + (if (ascending && w[i - 1] < w[i]) || (!ascending && w[i
            - 1] > w[i]) {
            seq![i as usize]
        } else {
            Seq::empty()
        })
    }
}

/// One-based positions `i` with `w[i - 1] > w[i]`.
pub open spec fn descent_positions(w: Seq<u8>) -> Seq<usize> {
    scents_upto(w, false, w.len() - 1)
}

/// One-based positions `i` with `w[i - 1] < w[i]`.
pub open spec fn ascent_positions(w: Seq<u8>) -> Seq<usize> {
    scents_upto(w, true, w.len() - 1)
}

/// Sum of a sequence of positions.
pub open spec fn pos_sum(s: Seq<usize>) -> int
    decreases s.len(),
{
    if s.len() == 0 {
        0
    } else {
        pos_sum(s.drop_last()) + s.last()
    }
}

impl View for LatticeWord {
    type V = Seq<u8>;

    closed spec fn view(&self) -> Seq<u8> {
        self.word@
    }
}

impl LatticeWord {
    /// Well-formedness: the wrapped bytes satisfy the ballot property.
    pub open spec fn wf(self) -> bool {
        is_lattice_word(self@)
    }

    /// Validates `word` with one scan and wraps it; fails exactly on inputs
    /// that violate the ballot property.
    pub fn new(word: Vec<u8>) -> (r: Result<LatticeWord, Error>)
        ensures
            r is Ok <==> is_lattice_word(word@),
            r matches Ok(lw) ==> lw@ == word@ && lw.wf(),
            r matches Err(e) ==> e == Error::NotALatticeWord,
    {
        if check_lattice(&word) {
            Ok(LatticeWord { word })
        } else {
            Err(Error::NotALatticeWord)
        }
    }

    /// Wraps a byte sequence the caller guarantees valid, without a scan.
    pub fn unchecked_new(word: Vec<u8>) -> (r: LatticeWord)
        requires
            is_lattice_word(word@),
        ensures
            r@ == word@,
            r.wf(),
    {
        LatticeWord { word }
    }

    /// The underlying bytes.
    pub fn as_bytes(&self) -> (r: &Vec<u8>)
        ensures
            r@ == self@,
    {
        &self.word
    }

    /// The descent positions of this word, in increasing order.
    pub fn descents(&self) -> (r: ScentIter)
        ensures
            r@ == descent_positions(self@),
    {
        ScentIter { positions: scan_scents(&self.word, false), index: 0 }
    }

    /// As `descents`, consuming the word.
    pub fn into_descents(self) -> (r: ScentIter)
        ensures
            r@ == descent_positions(self@),
    {
        ScentIter { positions: scan_scents(&self.word, false), index: 0 }
    }

    /// The ascent positions of this word, in increasing order.
    pub fn ascents(&self) -> (r: ScentIter)
        ensures
            r@ == ascent_positions(self@),
    {
        ScentIter { positions: scan_scents(&self.word, true), index: 0 }
    }

    /// As `ascents`, consuming the word.
    pub fn into_ascents(self) -> (r: ScentIter)
        ensures
            r@ == ascent_positions(self@),
    {
        ScentIter { positions: scan_scents(&self.word, true), index: 0 }
    }

    /// The statistic this library calls the major index: the sum of the
    /// ascent positions (not of the descent positions).
    pub fn major_index(&self) -> (r: usize)
        requires
            self@.len() * self@.len() <= usize::MAX,
        ensures
            r == pos_sum(ascent_positions(self@)),
    {
        let ghost w = self@;
        let n = self.word.len();
        let mut partial: usize = 0;
        let mut j: usize = 1;
        if n == 0 {
            return 0;
        }
        while j < n
            invariant
                1 <= j <= n,
                n == w.len(),
                self@ == w,
                n * n <= usize::MAX,
                partial == pos_sum(scents_upto(w, true, j - 1)),
                partial <= (j - 1) * (j - 1),
            decreases n - j,
        {
            proof {
                lemma_pos_sum_bound(w, true, j as int);
                assert((j - 1) * (j - 1) + j <= j * j) by (nonlinear_arith)
                    requires
                        j >= 1,
                ;
                assert(j * j <= n * n) by (nonlinear_arith)
                    requires
                        1 <= j <= n,
                ;
            }
            if self.word[j - 1] < self.word[j] {
                assert(scents_upto(w, true, j as int) =~= scents_upto(w, true, j - 1) + seq![j]);
                assert(pos_sum(scents_upto(w, true, j as int)) == pos_sum(
                    scents_upto(w, true, j - 1),
                ) + j) by {
                    lemma_pos_sum_last(scents_upto(w, true, j - 1), j);
                }
                partial = partial + j;
            } else {
                assert(scents_upto(w, true, j as int) =~= scents_upto(w, true, j - 1));
            }
            j = j + 1;
        }
        partial
    }
}

/// Iterator over the bytes of a word.
#[derive(Clone, Debug)]
pub struct IntoIter {
    word: Vec<u8>,
    index: usize,
}

impl View for IntoIter {
    type V = Seq<u8>;

    closed spec fn view(&self) -> Seq<u8> {
        if self.index as int <= self.word@.len() {
            self.word@.skip(self.index as int)
        } else {
            Seq::empty()
        }
    }
}

impl IntoIter {
    /// Starts at the first byte of `word`.
    pub fn new(word: Vec<u8>) -> (r: IntoIter)
        ensures
            r@ == word@,
    {
        let r = IntoIter { word, index: 0 };
        proof {
            assert(r@ =~= r.word@);
        }
        r
    }

    /// The next byte, or `None` once exhausted.
    pub fn next(&mut self) -> (r: Option<u8>)
        ensures
            old(self)@.len() > 0 ==> r == Some(old(self)@[0]) && final(self)@ == old(self)@.skip(1),
            old(self)@.len() == 0 ==> r is None && final(self)@ == old(self)@,
    {
        if self.index < self.word.len() {
            let v = self.word[self.index];
            self.index = self.index + 1;
            assert(self.word@.skip(self.index as int) =~= old(self)@.skip(1));
            assert(old(self)@[0] == self.word@[old(self).index as int]);
            Some(v)
        } else {
            None
        }
    }
}

impl ScentIter {
    /// The next position, in increasing order, or `None` once exhausted.
    pub fn next(&mut self) -> (r: Option<usize>)
        ensures
            old(self)@.len() > 0 ==> r == Some(old(self)@[0]) && final(self)@ == old(self)@.skip(1),
            old(self)@.len() == 0 ==> r is None && final(self)@ == old(self)@,
    {
        if self.index < self.positions.len() {
            let v = self.positions[self.index];
            self.index = self.index + 1;
            assert(self.positions@.skip(self.index as int) =~= old(self)@.skip(1));
            assert(old(self)@[0] == self.positions@[old(self).index as int]);
            Some(v)
        } else {
            None
        }
    }
}

impl View for ScentIter {
    type V = Seq<usize>;

    closed spec fn view(&self) -> Seq<usize> {
        if self.index as int <= self.positions@.len() {
            self.positions@.skip(self.index as int)
        } else {
            Seq::empty()
        }
    }
}

proof fn lemma_pos_sum_last(s: Seq<usize>, x: usize)
    ensures
        pos_sum(s + seq![x]) == pos_sum(s) + x,
{
    assert((s + seq![x]).drop_last() =~= s);
}

/// The sum of the positions listed up to `i` is at most `i * i`.
proof fn lemma_pos_sum_bound(w: Seq<u8>, ascending: bool, i: int)
    ensures
        0 <= pos_sum(scents_upto(w, ascending, i)),
        pos_sum(scents_upto(w, ascending, i)) <= (if i <= 0 {
            0
        } else {
            i * i
        }),
    decreases i,
{
    if i <= 0 {
    } else {
        lemma_pos_sum_bound(w, ascending, i - 1);
        let prev = scents_upto(w, ascending, i - 1);
        if (ascending && w[i - 1] < w[i]) || (!ascending && w[i - 1] > w[i]) {
            lemma_pos_sum_last(prev, i as usize);
        } else {
            assert(scents_upto(w, ascending, i) =~= prev);
        }
        assert((i - 1) * (i - 1) + i <= i * i) by (nonlinear_arith)
            requires
                i >= 1,
        ;
    }
}

/// One left-to-right scan collecting ascent or descent positions.
fn scan_scents(word: &Vec<u8>, ascending: bool) -> (r: Vec<usize>)
    ensures
        ascending ==> r@ == ascent_positions(word@),
        !ascending ==> r@ == descent_positions(word@),
{
    let ghost w = word@;
    let n = word.len();
    let mut r: Vec<usize> = Vec::new();
    if n == 0 {
        return r;
    }
    let mut j: usize = 1;
    while j < n
        invariant
            1 <= j <= n,
            n == w.len(),
            word@ == w,
            r@ == scents_upto(w, ascending, j - 1),
        decreases n - j,
    {
        let hit = if ascending {
            word[j - 1] < word[j]
        } else {
            word[j - 1] > word[j]
        };
        if hit {
            r.push(j);
            assert(r@ =~= scents_upto(w, ascending, j - 1) + seq![j]);
        }
        assert(scents_upto(w, ascending, j as int) == r@) by {
            if !hit {
                assert(scents_upto(w, ascending, j as int) =~= scents_upto(w, ascending, j - 1));
            }
        }
        j = j + 1;
    }
    r
}

/// Validates the ballot property with one scan over the word, tracking one
/// running count per symbol.
fn check_lattice(word: &Vec<u8>) -> (r: bool)
    ensures
        r == is_lattice_word(word@),
{
    let ghost w = word@;
    let n = word.len();
    if n == 0 {
        assert(is_lattice_word(w)) by {
            assert forall|i: int, v: u8|
                0 <= i <= w.len() && min_sym(w) < v implies #[trigger] count_of(w.take(i), v)
                <= count_of(w.take(i), (v - 1) as u8) by {
                assert(w.take(i) =~= w);
            }
        }
        return true;
    }
    // The minimum symbol of the word.
    let mut m: u8 = word[0];
    let mut j: usize = 1;
    while j < n
        invariant
            1 <= j <= n,
            n == w.len(),
            word@ == w,
            m == min_sym(w.take(j as int)),
        decreases n - j,
    {
        proof {
            assert(w.take(j + 1).drop_last() =~= w.take(j as int));
            assert(w.take(j + 1).last() == w[j as int]);
        }
        if word[j] < m {
            m = word[j];
        }
        j = j + 1;
    }
    proof {
        assert(w.take(n as int) =~= w);
    }
    // counts[v] is the number of occurrences of symbol v in the prefix read
    // so far.
    let mut counts: Vec<usize> = Vec::new();
    let mut k: usize = 0;
    while k < 256
        invariant
            counts@.len() == k,
            k <= 256,
            forall|t: int| 0 <= t < k ==> counts@[t] == 0,
        decreases 256 - k,
    {
        counts.push(0);
        k = k + 1;
    }
    let mut i: usize = 0;
    while i < n
        invariant
            0 <= i <= n,
            n == w.len(),
            word@ == w,
            m == min_sym(w),
            counts@.len() == 256,
            forall|v: u8| #[trigger] counts@[v as int] == count_of(w.take(i as int), v),
            forall|jj: int, v: u8|
                0 <= jj <= i && min_sym(w) < v ==> #[trigger] count_of(w.take(jj), v) <= count_of(
                    w.take(jj),
                    (v - 1) as u8,
                ),
        decreases n - i,
    {
        let e = word[i];
        let ei = e as usize;
        proof {
            lemma_count_le_len_take(w, e, i as int);
        }
        let c = counts[ei] + 1;
        counts.set(ei, c);
        proof {
            assert forall|v: u8| #[trigger]
                counts@[v as int] == count_of(w.take(i + 1), v) by {
                crate::counts::lemma_count_take_succ(w, v, i as int);
            }
        }
        if e > m {
            if counts[ei] > counts[ei - 1] {
                proof {
                    assert(count_of(w.take(i + 1), e) > count_of(w.take(i + 1), (e - 1) as u8));
                    assert(!is_lattice_word(w)) by {
                        if is_lattice_word(w) {
                            assert(count_of(w.take(i + 1), e) <= count_of(
                                w.take(i + 1),
                                (e - 1) as u8,
                            ));
                        }
                    }
                }
                return false;
            }
        }
        proof {
            assert forall|jj: int, v: u8|
                0 <= jj <= i + 1 && min_sym(w) < v implies #[trigger] count_of(w.take(jj), v)
                <= count_of(w.take(jj), (v - 1) as u8) by {
                if jj == i + 1 {
                    crate::counts::lemma_count_take_succ(w, v, i as int);
                    crate::counts::lemma_count_take_succ(w, (v - 1) as u8, i as int);
                    if v == e {
                        assert(count_of(w.take(i + 1), e) <= count_of(w.take(i + 1), (e - 1) as u8));
                    }
                }
            }
        }
        i = i + 1;
    }
    proof {
        assert(w.take(n as int) =~= w);
        assert(is_lattice_word(w)) by {
            assert forall|jj: int, v: u8|
                0 <= jj <= w.len() && min_sym(w) < v implies #[trigger] count_of(w.take(jj), v)
                <= count_of(w.take(jj), (v - 1) as u8) by {}
        }
    }
    true
}

/// Counts over a prefix stay within `usize`.
proof fn lemma_count_le_len_take(w: Seq<u8>, v: u8, i: int)
    requires
        0 <= i <= w.len(),
    ensures
        count_of(w.take(i), v) <= i,
{
    crate::counts::lemma_count_le_len(w.take(i), v);
}

/// Law: every prefix of a valid lattice word, and every symbol above the
/// minimum, satisfies the ballot inequality.
pub proof fn lemma_ballot_property(lw: LatticeWord, i: int, v: u8)
    requires
        lw.wf(),
        0 <= i <= lw@.len(),
        min_sym(lw@) < v,
    ensures
        count_of(lw@.take(i), v) <= count_of(lw@.take(i), (v - 1) as u8),
{
}

} // verus!
