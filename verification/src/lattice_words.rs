use vstd::prelude::*;

use crate::content::{
    columns, counts_of_seq, first_descent_from, int_sum, lemma_columns_len, lemma_counts_sum,
    lemma_int_sum_update, lemma_starting_rec_elems, lemma_starting_rec_len,
    lemma_starting_rec_mono, lemma_starting_word_len, ramp, search_down, starting_rec,
    starting_word, successor, to_ints_u8, to_ints_usize, trim_zeros, weakly_decreasing,
};
use crate::counts::{count_of, is_lattice_word, lemma_count_take_succ};
use crate::errors::Error;
use crate::lattice_word::LatticeWord;

verus! {

/// A validated content: a weakly decreasing weight with its trailing zero
/// parts trimmed.  The factory for the enumeration of all lattice words of
/// that content.
#[derive(Clone, Debug)]
pub struct LatticeWords {
    weight: Vec<u8>,
}

impl View for LatticeWords {
    type V = Seq<u8>;

    closed spec fn view(&self) -> Seq<u8> {
        self.weight@
    }
}

impl LatticeWords {
    /// Well-formedness: weakly decreasing, trimmed, and small enough that
    /// every row index fits a byte.
    pub open spec fn wf(self) -> bool {
        &&& self@.len() <= 255
        &&& weakly_decreasing(to_ints_u8(self@))
        &&& (self@.len() > 0 ==> self@.last() > 0)
    }

    /// Validates a weight: fails exactly on weights that are not weakly
    /// decreasing; trailing zero parts are trimmed.  Weights are limited to
    /// 255 parts so that row indices fit a byte.
    pub fn new(weight: Vec<u8>) -> (r: Result<LatticeWords, Error>)
        requires
            weight@.len() <= 255,
        ensures
            r is Ok <==> weakly_decreasing(to_ints_u8(weight@)),
            r matches Ok(lws) ==> lws@ == trim_zeros(weight@) && lws.wf(),
            r matches Err(e) ==> e == Error::InvalidContent,
    {
        let ghost orig = weight@;
        if !check_weakly_dec_u8(&weight) {
            return Err(Error::InvalidContent);
        }
        let mut weight = weight;
        while weight.len() > 0 && weight[weight.len() - 1] == 0
            invariant
                weight@.len() <= 255,
                weakly_decreasing(to_ints_u8(weight@)),
                trim_zeros(weight@) == trim_zeros(orig),
            decreases weight@.len(),
        {
            let ghost before = weight@;
            weight.pop();
            proof {
                assert(weight@ =~= before.drop_last());
                assert(trim_zeros(before) == trim_zeros(before.drop_last()));
                assert forall|i: int, j: int|
                    0 <= i <= j < weight@.len() implies to_ints_u8(weight@)[j] <= to_ints_u8(
                    weight@,
                )[i] by {
                    assert(to_ints_u8(before)[j] <= to_ints_u8(before)[i]);
                }
            }
        }
        Ok(LatticeWords { weight })
    }

    /// The validated weight.
    pub fn weight(&self) -> (r: &Vec<u8>)
        ensures
            r@ == self@,
    {
        &self.weight
    }

    /// A zero-allocation enumerator over all lattice words of this content;
    /// each yielded word is a transient view of one reused buffer.
    pub fn streaming_iter(&self) -> (r: LatticeWordsStreamingIter)
        requires
            self.wf(),
        ensures
            r.wf(),
            r.fresh(),
            r.weight_view() == to_ints_u8(self@),
    {
        LatticeWordsStreamingIter::new(&self.weight)
    }

    /// As `streaming_iter`, consuming the content.
    pub fn into_streaming_iter(self) -> (r: LatticeWordsStreamingIter)
        requires
            self.wf(),
        ensures
            r.wf(),
            r.fresh(),
            r.weight_view() == to_ints_u8(self@),
    {
        LatticeWordsStreamingIter::new(&self.weight)
    }

    /// An enumerator that copies each word out as an owned `LatticeWord`.
    pub fn iter(&self) -> (r: LatticeWordsIter)
        requires
            self.wf(),
        ensures
            r.wf(),
            r.fresh(),
            r.weight_view() == to_ints_u8(self@),
    {
        LatticeWordsIter { inner: self.streaming_iter() }
    }
}

/// The streaming enumerator: owns the weight (as counts), the live word
/// buffer, and one scratch buffer of per-row counts reused by every
/// successor step.
#[derive(Clone, Debug)]
pub struct LatticeWordsStreamingIter {
    weight: Vec<usize>,
    first_pass: bool,
    current: Vec<u8>,
    subweight: Vec<usize>,
}

impl LatticeWordsStreamingIter {
    /// The weight driving the enumeration.
    pub closed spec fn weight_view(&self) -> Seq<int> {
        to_ints_usize(self.weight@)
    }

    /// The contents of the live word buffer.
    pub closed spec fn word_view(&self) -> Seq<u8> {
        self.current@
    }

    /// Whether the first word is still to be produced.
    pub closed spec fn fresh(&self) -> bool {
        self.first_pass
    }

    /// Well-formedness: the weight is a trimmed partition of at most 255
    /// parts, the buffers have the right sizes, and the live word only
    /// holds row indices.
    pub closed spec fn wf(&self) -> bool {
        &&& self.weight@.len() <= 255
        &&& weakly_decreasing(to_ints_usize(self.weight@))
        &&& (self.weight@.len() > 0 ==> self.weight@.last() > 0)
        &&& (forall|i: int|
            0 <= i < self.weight@.len() ==> (#[trigger] self.weight@[i]) <= 255)
        &&& self.current@.len() == int_sum(to_ints_usize(self.weight@))
        &&& self.subweight@.len() == self.weight@.len()
        &&& (forall|j: int|
            0 <= j < self.current@.len() ==> (#[trigger] self.current@[j] as int)
                < self.weight@.len())
        &&& (!self.first_pass ==> is_lattice_word(self.current@))
        &&& (!self.first_pass ==> (forall|v: u8|
            (#[trigger] count_of(self.current@, v)) as int == (if (v as int)
                < self.weight@.len() {
                self.weight@[v as int] as int
            } else {
                0
            })))
    }

    fn new(weight: &Vec<u8>) -> (r: Self)
        requires
            weight@.len() <= 255,
            weakly_decreasing(to_ints_u8(weight@)),
            weight@.len() > 0 ==> weight@.last() > 0,
        ensures
            r.wf(),
            r.fresh(),
            r.weight_view() == to_ints_u8(weight@),
    {
        let p = weight.len();
        let mut wts: Vec<usize> = Vec::new();
        let mut total: usize = 0;
        let mut i: usize = 0;
        while i < p
            invariant
                0 <= i <= p,
                p == weight@.len(),
                p <= 255,
                wts@.len() == i,
                forall|j: int| 0 <= j < i ==> #[trigger] wts@[j] == weight@[j] as usize,
                total == int_sum(to_ints_usize(wts@)),
                total <= 255 * i,
            decreases p - i,
        {
            let ghost before = wts@;
            let e = weight[i] as usize;
            proof {
                assert(255 * i + 255 == 255 * (i + 1)) by (nonlinear_arith);
                assert(255 * (i + 1) <= 255 * 255) by (nonlinear_arith)
                    requires
                        i + 1 <= 255,
                ;
            }
            wts.push(e);
            total = total + e;
            proof {
                assert(to_ints_usize(wts@) =~= to_ints_usize(before).push(e as int));
                crate::content::lemma_int_sum_push(to_ints_usize(before), e as int);
            }
            i = i + 1;
        }
        let mut current: Vec<u8> = Vec::new();
        let mut k: usize = 0;
        while k < total
            invariant
                current@.len() == k,
                k <= total,
                forall|j: int| 0 <= j < k ==> current@[j] == 0,
            decreases total - k,
        {
            current.push(0);
            k = k + 1;
        }
        let mut subweight: Vec<usize> = Vec::new();
        let mut k2: usize = 0;
        while k2 < p
            invariant
                subweight@.len() == k2,
                k2 <= p,
            decreases p - k2,
        {
            subweight.push(0);
            k2 = k2 + 1;
        }
        let r = LatticeWordsStreamingIter { weight: wts, first_pass: true, current, subweight };
        proof {
            assert(to_ints_usize(r.weight@) =~= to_ints_u8(weight@));
            assert forall|j: int|
                0 <= j < r.current@.len() implies (#[trigger] r.current@[j] as int)
                < r.weight@.len() by {
                // A zero row index needs at least one part; an empty weight
                // has an empty word.
                if r.weight@.len() == 0 {
                    assert(int_sum(to_ints_usize(r.weight@)) == 0) by {
                        assert(to_ints_usize(r.weight@) =~= Seq::<int>::empty());
                    }
                }
            }
        }
        r
    }
}

impl LatticeWordsStreamingIter {
    /// The live word buffer; its contents are valid until the next call to
    /// `next` overwrites them.
    #[inline]
    pub fn word(&self) -> (r: &Vec<u8>)
        ensures
            r@ == self.word_view(),
    {
        &self.current
    }

    /// Advances the live buffer to the next word.  The first call produces
    /// the canonical starting word; later calls apply the successor step,
    /// so the run of values is `nth_word` of the weight, and by
    /// `lemma_enumeration_distinct` no word repeats.  Returns false once
    /// the enumeration is exhausted, leaving the buffer unchanged, and then
    /// keeps returning false.
    #[inline]
    pub fn next(&mut self) -> (r: bool)
        requires
            old(self).wf(),
        ensures
            final(self).wf(),
            final(self).weight_view() == old(self).weight_view(),
            !final(self).fresh(),
            is_lattice_word(final(self).word_view()),
            forall|v: u8|
                (#[trigger] count_of(final(self).word_view(), v)) as int == (if (v as int)
                    < final(self).weight_view().len() {
                    final(self).weight_view()[v as int]
                } else {
                    0
                }),
            old(self).fresh() ==> r == true && final(self).word_view() == starting_word(
                old(self).weight_view(),
            ),
            !old(self).fresh() ==> (match successor(
                old(self).word_view(),
                old(self).weight_view().len() as int,
            ) {
                Some(w2) => r == true && final(self).word_view() == w2,
                None => r == false && final(self).word_view() == old(self).word_view(),
            }),
    {
        let ghost wti = self.weight_view();
        if self.first_pass {
            self.first_pass = false;
            let upto = self.current.len();
            proof {
                assert forall|i: int| 0 <= i < wti.len() implies #[trigger] wti[i] >= 0 by {}
                lemma_starting_word_len(wti);
            }
            let ghost before = self.current@;
            init_starting_word(&mut self.current, upto, &self.weight);
            proof {
                assert(before.skip(upto as int) =~= Seq::<u8>::empty());
                assert(self.current@ =~= starting_word(wti));
                crate::content::lemma_starting_word_is_lattice(wti);
                assert forall|v: u8|
                    (#[trigger] count_of(self.current@, v)) as int == (if (v as int)
                        < self.weight@.len() {
                        self.weight@[v as int] as int
                    } else {
                        0
                    }) by {
                    crate::content::lemma_starting_word_content(wti, v);
                }
            }
            return true;
        }
        let n = self.current.len();
        let parts = self.weight.len();
        let ghost cur = self.current@;
        let ghost wv = self.weight@;
        let (found, fd) = scan_to_descent(&self.current, &mut self.subweight);
        if !found {
            proof {
                assert(successor(cur, parts as int) is None);
            }
            return false;
        }
        let v = self.current[fd];
        let vi = v as usize;
        let ghost counts = counts_of_seq(cur.take(fd as int), parts as int);
        proof {
            assert((cur[fd - 1] as int) < (parts as int));
            assert(vi + 1 < parts);
        }
        let target = self.subweight[vi + 1];
        if target == 0 {
            proof {
                assert(counts[vi as int + 1] == 0);
                assert(successor(cur, parts as int) is None);
            }
            return false;
        }
        // The highest row whose accumulated count equals `target`.
        let mut j: usize = parts;
        let mut nr: usize = 0;
        let mut found2 = false;
        while j > 0 && !found2
            invariant
                0 <= j <= parts,
                parts == wv.len(),
                self.weight@ == wv,
                self.current@ == cur,
                self.first_pass == false,
                self.subweight@.len() == parts,
                forall|vv: int|
                    0 <= vv < parts ==> (#[trigger] self.subweight@[vv]) as int == counts[vv],
                !found2 ==> search_down(counts, parts - 1, target as int) == search_down(
                    counts,
                    j - 1,
                    target as int,
                ),
                found2 ==> nr as int == search_down(counts, parts - 1, target as int) && nr < parts
                    && self.subweight@[nr as int] == target,
            decreases (if found2 {
                0int
            } else {
                j as int
            }),
        {
            if self.subweight[j - 1] == target {
                nr = j - 1;
                found2 = true;
            } else {
                j = j - 1;
            }
        }
        if !found2 {
            proof {
                assert(search_down(counts, parts - 1, target as int) == -1);
                assert(successor(cur, parts as int) is None);
            }
            return false;
        }
        // Move the symbol at the descent into the new row, in the counts
        // first.
        let sv = self.subweight[vi];
        self.subweight.set(vi, sv + 1);
        let snr = self.subweight[nr];
        self.subweight.set(nr, snr - 1);
        let ghost moved = counts.update(vi as int, counts[vi as int] + 1);
        let ghost sub = moved.update(nr as int, moved[nr as int] - 1);
        proof {
            assert forall|vv: int|
                0 <= vv < parts implies (#[trigger] self.subweight@[vv]) as int == sub[vv] by {}
            assert(to_ints_usize(self.subweight@) =~= sub);
        }
        if !check_weakly_dec_usize(&self.subweight) {
            proof {
                assert(successor(cur, parts as int) is None);
            }
            return false;
        }
        self.current.set(fd, nr as u8);
        proof {
            // The adjusted counts sum to the prefix length.
            assert forall|q: int| 0 <= q < fd implies (#[trigger] cur.take(fd as int)[q]) < parts
                as u8 by {}
            lemma_counts_sum(cur.take(fd as int), parts as int);
            lemma_int_sum_update(counts, vi as int, counts[vi as int] + 1);
            lemma_int_sum_update(moved, nr as int, moved[nr as int] - 1);
            assert(int_sum(to_ints_usize(self.subweight@)) == fd as int);
        }
        let ghost prior = self.current@;
        init_starting_word(&mut self.current, fd, &self.subweight);
        proof {
            let swd = starting_word(sub);
            assert(starting_word(to_ints_usize(self.subweight@)) == swd);
            assert(prior.skip(fd as int) =~= seq![nr as u8] + cur.skip(fd as int + 1));
            assert(self.current@ =~= swd + seq![nr as u8] + cur.skip(fd as int + 1)) by {
                assert(self.current@ =~= swd + (seq![nr as u8] + cur.skip(fd as int + 1)));
            }
            assert(successor(cur, parts as int) == Some(
                swd + seq![nr as u8] + cur.skip(fd as int + 1),
            ));
            // Well-formedness of the new buffer contents.
            assert forall|q: int|
                0 <= q < self.current@.len() implies (#[trigger] self.current@[q] as int)
                < parts by {
                if q >= fd + 1 {
                    assert(self.current@[q] == cur[q]);
                } else if q == fd as int {
                    assert(self.current@[q] == nr as u8);
                }
            }
            crate::content::lemma_successor_is_lattice(cur, parts as int);
        }
        true
    }
}

/// The owning enumerator: copies each yielded word out as a `LatticeWord`.
#[derive(Clone, Debug)]
pub struct LatticeWordsIter {
    inner: LatticeWordsStreamingIter,
}

impl LatticeWordsIter {
    pub closed spec fn wf(&self) -> bool {
        self.inner.wf()
    }

    pub closed spec fn fresh(&self) -> bool {
        self.inner.fresh()
    }

    pub closed spec fn weight_view(&self) -> Seq<int> {
        self.inner.weight_view()
    }

    pub closed spec fn word_view(&self) -> Seq<u8> {
        self.inner.word_view()
    }
}

impl LatticeWordsIter {
    /// The next word as an owned, validated `LatticeWord`, or `None` once
    /// the enumeration is exhausted.
    pub fn next(&mut self) -> (r: Option<LatticeWord>)
        requires
            old(self).wf(),
        ensures
            final(self).wf(),
            !final(self).fresh(),
            final(self).weight_view() == old(self).weight_view(),
            r matches Some(lw) ==> lw.wf() && lw@ == final(self).word_view(),
            old(self).fresh() ==> r is Some && final(self).word_view() == starting_word(
                old(self).weight_view(),
            ),
            !old(self).fresh() ==> (match successor(
                old(self).word_view(),
                old(self).weight_view().len() as int,
            ) {
                Some(w2) => r is Some && final(self).word_view() == w2,
                None => r is None && final(self).word_view() == old(self).word_view(),
            }),
    {
        if self.inner.next() {
            let bytes = copy_bytes(self.inner.word());
            match LatticeWord::new(bytes) {
                Ok(lw) => Some(lw),
                Err(_) => None,
            }
        } else {
            None
        }
    }
}

/// An element-wise copy of a byte buffer.
fn copy_bytes(src: &Vec<u8>) -> (r: Vec<u8>)
    ensures
        r@ == src@,
{
    let n = src.len();
    let mut r: Vec<u8> = Vec::new();
    let mut i: usize = 0;
    while i < n
        invariant
            0 <= i <= n,
            n == src@.len(),
            r@ == src@.take(i as int),
        decreases n - i,
    {
        r.push(src[i]);
        assert(r@ =~= src@.take(i + 1));
        i = i + 1;
    }
    assert(src@.take(n as int) =~= src@);
    r
}

/// Zeroes the counts, then scans to the first descent: when one exists,
/// returns its position, with `sub` holding the count of each symbol read
/// before it.
#[inline]
fn scan_to_descent(cur: &Vec<u8>, sub: &mut Vec<usize>) -> (r: (bool, usize))
    requires
        forall|j: int| 0 <= j < cur@.len() ==> (#[trigger] cur@[j] as int) < old(sub)@.len(),
        old(sub)@.len() <= 255,
    ensures
        final(sub)@.len() == old(sub)@.len(),
        r.0 ==> r.1 as int == first_descent_from(cur@, 0) && 1 <= r.1 < cur@.len() && cur@[r.1 as int]
            < cur@[r.1 - 1] && (forall|v: int|
            0 <= v < final(sub)@.len() ==> (#[trigger] final(sub)@[v]) as int == counts_of_seq(
                cur@.take(r.1 as int),
                final(sub)@.len() as int,
            )[v]) && (forall|v: int|
            0 <= v < final(sub)@.len() ==> (#[trigger] final(sub)@[v]) <= r.1),
        !r.0 ==> first_descent_from(cur@, 0) == -1,
{
    let ghost w = cur@;
    let n = cur.len();
    let parts = sub.len();
    let mut t: usize = 0;
    while t < parts
        invariant
            t <= parts,
            sub@.len() == parts,
            forall|j: int| 0 <= j < t ==> sub@[j] == 0,
        decreases parts - t,
    {
        sub.set(t, 0);
        t = t + 1;
    }
    proof {
        assert(w.take(0) =~= Seq::<u8>::empty());
    }
    if n == 0 {
        return (false, 0);
    }
    let mut i: usize = 0;
    let mut fd: usize = 0;
    let mut found = false;
    let mut a = cur[0];
    while i < n - 1 && !found
        invariant
            0 <= i <= n,
            1 <= n,
            !found && i < n ==> a == w[i as int],
            n == w.len(),
            cur@ == w,
            parts == sub@.len(),
            parts <= 255,
            forall|j: int| 0 <= j < n ==> (#[trigger] w[j] as int) < parts,
            !found ==> first_descent_from(w, 0) == first_descent_from(w, i as int),
            !found ==> forall|v: int|
                0 <= v < parts ==> (#[trigger] sub@[v]) as int == counts_of_seq(
                    w.take(i as int),
                    parts as int,
                )[v],
            !found ==> forall|v: int| 0 <= v < parts ==> (#[trigger] sub@[v]) <= i,
            found ==> fd as int == first_descent_from(w, 0) && 1 <= fd < n && w[fd as int] < w[fd
                - 1],
            found ==> forall|v: int|
                0 <= v < parts ==> (#[trigger] sub@[v]) as int == counts_of_seq(
                    w.take(fd as int),
                    parts as int,
                )[v],
            found ==> forall|v: int| 0 <= v < parts ==> (#[trigger] sub@[v]) <= fd,
        decreases (if found {
            0int
        } else {
            n - i
        }),
    {
        let b = cur[i + 1];
        let ai = a as usize;
        let cnt = sub[ai] + 1;
        sub.set(ai, cnt);
        proof {
            assert forall|v: int|
                0 <= v < parts implies (#[trigger] sub@[v]) as int == counts_of_seq(
                w.take(i + 1),
                parts as int,
            )[v] by {
                lemma_count_take_succ(w, v as u8, i as int);
                if v != ai as int {
                    assert(w[i as int] != v as u8);
                }
            }
        }
        if b < a {
            fd = i + 1;
            found = true;
            proof {
                assert(first_descent_from(w, i as int) == i + 1);
            }
        } else {
            proof {
                assert(first_descent_from(w, i as int) == first_descent_from(w, i + 1));
            }
            a = b;
            i = i + 1;
        }
    }
    if !found {
        proof {
            assert(first_descent_from(w, i as int) == -1);
        }
        return (false, 0);
    }
    (true, fd)
}

/// One left-to-right adjacency check of a byte weight.
fn check_weakly_dec_u8(s: &Vec<u8>) -> (r: bool)
    ensures
        r == weakly_decreasing(to_ints_u8(s@)),
{
    let n = s.len();
    let mut j: usize = 1;
    while j < n
        invariant
            1 <= j,
            n == s@.len(),
            forall|a: int, b: int|
                0 <= a <= b < j && b < n ==> to_ints_u8(s@)[b] <= to_ints_u8(s@)[a],
        decreases n - j,
    {
        if s[j] > s[j - 1] {
            assert(!weakly_decreasing(to_ints_u8(s@))) by {
                assert(to_ints_u8(s@)[j as int] > to_ints_u8(s@)[j - 1]);
            }
            return false;
        }
        proof {
            assert forall|a: int, b: int|
                0 <= a <= b < j + 1 && b < n implies to_ints_u8(s@)[b] <= to_ints_u8(s@)[a] by {
                if b == j as int && a < b {
                    assert(to_ints_u8(s@)[b] <= to_ints_u8(s@)[b - 1]);
                }
            }
        }
        j = j + 1;
    }
    true
}

/// One left-to-right adjacency check of a count buffer.
#[inline]
fn check_weakly_dec_usize(s: &Vec<usize>) -> (r: bool)
    ensures
        r == weakly_decreasing(to_ints_usize(s@)),
{
    let n = s.len();
    let mut j: usize = 1;
    while j < n
        invariant
            1 <= j,
            n == s@.len(),
            forall|a: int, b: int|
                0 <= a <= b < j && b < n ==> to_ints_usize(s@)[b] <= to_ints_usize(s@)[a],
        decreases n - j,
    {
        if s[j] > s[j - 1] {
            assert(!weakly_decreasing(to_ints_usize(s@))) by {
                assert(to_ints_usize(s@)[j as int] > to_ints_usize(s@)[j - 1]);
            }
            return false;
        }
        proof {
            assert forall|a: int, b: int|
                0 <= a <= b < j + 1 && b < n implies to_ints_usize(s@)[b] <= to_ints_usize(
                s@,
            )[a] by {
                if b == j as int && a < b {
                    assert(to_ints_usize(s@)[b] <= to_ints_usize(s@)[b - 1]);
                }
            }
        }
        j = j + 1;
    }
    true
}

/// Writes the canonical starting word of the weight `wt` into
/// `word[0 .. upto]`: rows are walked from the shortest to the tallest, and
/// each unit of extra row width contributes one column `0 .. height`.
#[inline]
fn init_starting_word(word: &mut Vec<u8>, upto: usize, wt: &Vec<usize>)
    requires
        upto <= old(word)@.len(),
        wt@.len() <= 255,
        weakly_decreasing(to_ints_usize(wt@)),
        int_sum(to_ints_usize(wt@)) == upto,
    ensures
        final(word)@.len() == old(word)@.len(),
        final(word)@ == starting_word(to_ints_usize(wt@)) + old(word)@.skip(upto as int),
        forall|j: int| 0 <= j < upto ==> (#[trigger] final(word)@[j] as int) < wt@.len(),
{
    let ghost wti = to_ints_usize(wt@);
    let ghost orig = old(word)@;
    let p = wt.len();
    proof {
        assert forall|i: int| 0 <= i < wti.len() implies #[trigger] wti[i] >= 0 by {}
        lemma_starting_word_len(wti);
    }
    let mut pos: usize = 0;
    let mut k: usize = 1;
    let mut last_row: usize = 0;
    while k <= p
        invariant
            1 <= k <= p + 1,
            p == wt@.len(),
            p <= 255,
            wti == to_ints_usize(wt@),
            weakly_decreasing(wti),
            forall|i: int| 0 <= i < wti.len() ==> #[trigger] wti[i] >= 0,
            int_sum(wti) == upto,
            starting_word(wti).len() == upto,
            upto <= word@.len(),
            word@.len() == orig.len(),
            last_row as int == (if k == 1 {
                0
            } else {
                wti[p - k + 1]
            }),
            pos == starting_rec(wti, k - 1).len(),
            pos <= upto,
            word@ == starting_rec(wti, k - 1) + orig.skip(pos as int),
        decreases p + 1 - k,
    {
        let row = wt[p - k];
        let height = p - k + 1;
        proof {
            if k >= 2 {
                assert(wti[p - k + 1] <= wti[p - k]);
            }
        }
        let width = row - last_row;
        let ghost base = starting_rec(wti, k - 1);
        let mut c: usize = 0;
        proof {
            assert(base + columns(height as int, 0) =~= base);
        }
        while c < width
            invariant
                0 <= c <= width,
                1 <= k <= p,
                p == wt@.len(),
                p <= 255,
                wti == to_ints_usize(wt@),
                weakly_decreasing(wti),
                forall|i: int| 0 <= i < wti.len() ==> #[trigger] wti[i] >= 0,
                int_sum(wti) == upto,
                starting_word(wti).len() == upto,
                upto <= word@.len(),
                word@.len() == orig.len(),
                height == p - k + 1,
                row == wt@[p - k],
                last_row as int == (if k == 1 {
                    0
                } else {
                    wti[p - k + 1]
                }),
                width == row - last_row,
                base == starting_rec(wti, k - 1),
                pos == base.len() + columns(height as int, c as int).len(),
                pos <= upto,
                word@ == base + columns(height as int, c as int) + orig.skip(pos as int),
            decreases width - c,
        {
            let ghost cols = columns(height as int, c as int);
            let mut r: usize = 0;
            proof {
                assert(ramp(height as int).take(0) =~= Seq::<u8>::empty());
                assert(base + cols + ramp(height as int).take(0) =~= base + cols);
            }
            while r < height
                invariant
                    0 <= r <= height,
                    1 <= k <= p,
                    p == wt@.len(),
                    p <= 255,
                    wti == to_ints_usize(wt@),
                    weakly_decreasing(wti),
                    forall|i: int| 0 <= i < wti.len() ==> #[trigger] wti[i] >= 0,
                    int_sum(wti) == upto,
                    starting_word(wti).len() == upto,
                    upto <= word@.len(),
                    word@.len() == orig.len(),
                    height == p - k + 1,
                    row == wt@[p - k],
                    width == row - last_row,
                    c < width,
                    last_row as int == (if k == 1 {
                        0
                    } else {
                        wti[p - k + 1]
                    }),
                    base == starting_rec(wti, k - 1),
                    cols == columns(height as int, c as int),
                    pos == base.len() + cols.len() + r,
                    word@ == base + cols + ramp(height as int).take(r as int) + orig.skip(
                        pos as int,
                    ),
                decreases height - r,
            {
                proof {
                    // The write stays inside the prefix: everything written
                    // for the first k rows fits below the full length.
                    assert(base.len() + cols.len() + r < starting_rec(wti, k as int).len()) by {
                        assert(starting_rec(wti, k as int) == base + columns(
                            height as int,
                            row - last_row,
                        ));
                        lemma_columns_step(height as int, c as int, width as int);
                    }
                    lemma_starting_rec_mono(wti, k as int, p as int);
                }
                word.set(pos, r as u8);
                proof {
                    let ghost rr = ramp(height as int);
                    assert(rr.take(r as int).push(r as u8) =~= rr.take(r + 1));
                    assert(word@ =~= base + cols + rr.take(r + 1) + orig.skip(pos + 1));
                }
                pos = pos + 1;
                r = r + 1;
            }
            proof {
                assert(ramp(height as int).take(height as int) =~= ramp(height as int));
                assert(base + cols + ramp(height as int) =~= base + columns(
                    height as int,
                    c + 1,
                ));
                lemma_columns_step(height as int, c as int, width as int);
                assert(starting_rec(wti, k as int) == base + columns(
                    height as int,
                    width as int,
                ));
                lemma_starting_rec_mono(wti, k as int, p as int);
            }
            c = c + 1;
        }
        proof {
            assert(base + columns(height as int, width as int) =~= starting_rec(wti, k as int));
        }
        last_row = row;
        k = k + 1;
    }
    proof {
        assert(word@ == starting_rec(wti, p as int) + orig.skip(pos as int));
        assert(pos == upto) by {
            lemma_starting_rec_len(wti, p as int);
            if p >= 1 {
                assert(wti.skip(0) =~= wti);
            }
        }
        assert forall|j: int| 0 <= j < upto implies (#[trigger] word@[j] as int) < wt@.len() by {
            assert(word@[j] == starting_word(wti)[j]);
            lemma_starting_rec_elems(wti, p as int, j);
        }
    }
}

/// `columns(h, c)` together with one more column stays within
/// `columns(h, w)` when `c < w`.
proof fn lemma_columns_step(h: int, c: int, w: int)
    requires
        h >= 0,
        0 <= c < w,
    ensures
        columns(h, c).len() + h <= columns(h, w).len(),
    decreases w - c,
{
    if c + 1 == w {
    } else {
        lemma_columns_step(h, c + 1, w);
        lemma_columns_len(h, c + 1);
        lemma_columns_len(h, c);
    }
}

} // verus!
