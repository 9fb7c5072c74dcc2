use vstd::prelude::*;

use crate::counts::{count_of, is_lattice_word, min_sym};

verus! {

pub open spec fn to_ints_u8(s: Seq<u8>) -> Seq<int> {
    s.map_values(|x: u8| x as int)
}

pub open spec fn to_ints_usize(s: Seq<usize>) -> Seq<int> {
    s.map_values(|x: usize| x as int)
}

pub open spec fn weakly_decreasing(s: Seq<int>) -> bool {
    forall|i: int, j: int| 0 <= i <= j < s.len() ==> s[j] <= s[i]
}

pub open spec fn int_sum(s: Seq<int>) -> int
    decreases s.len(),
{
    if s.len() == 0 {
        0
    } else {
        int_sum(s.drop_last()) + s.last()
    }
}

/// A weight without its trailing zero parts.
pub open spec fn trim_zeros(s: Seq<u8>) -> Seq<u8>
    decreases s.len(),
{
    if s.len() > 0 && s.last() == 0 {
        trim_zeros(s.drop_last())
    } else {
        s
    }
}

/// The column of a Young diagram read top to bottom: row indices 0 up to
/// `height`.
pub open spec fn ramp(height: int) -> Seq<u8> {
    Seq::new(if height >= 0 {
        height as nat
    } else {
        0
    }, |r: int| r as u8)
}

/// `width` columns of the same height, side by side.
pub open spec fn columns(height: int, width: int) -> Seq<u8>
    decreases width,
{
    if width <= 0 {
        Seq::empty()
    } else {
        columns(height, width - 1) + ramp(height)
    }
}

/// The canonical starting word built from the `k` shortest rows of the
/// weight: walking rows from the shortest to the tallest, each unit of extra
/// row width contributes one column of the current height.
pub open spec fn starting_rec(wt: Seq<int>, k: int) -> Seq<u8>
    decreases k,
{
    if k <= 0 {
        Seq::empty()
    } else {
        let p = wt.len() as int;
        let row = wt[p - k];
        let prev = if k == 1 {
            0
        } else {
            wt[p - k + 1]
        };
        starting_rec(wt, k - 1) + columns(p - k + 1, row - prev)
    }
}

/// The lexicographically first lattice word of the given weight.
pub open spec fn starting_word(wt: Seq<int>) -> Seq<u8> {
    starting_rec(wt, wt.len() as int)
}

/// Per-symbol occurrence counts of `u` over the alphabet `0 .. parts`.
pub open spec fn counts_of_seq(u: Seq<u8>, parts: int) -> Seq<int> {
    Seq::new(if parts >= 0 {
        parts as nat
    } else {
        0
    }, |v: int| count_of(u, v as u8) as int)
}

/// The position of the first descent of `w` at or after the pair at `i`,
/// or -1 when the rest of the word is weakly increasing.
pub open spec fn first_descent_from(w: Seq<u8>, i: int) -> int
    decreases w.len() - i,
{
    if i + 1 >= w.len() || i < 0 {
        -1
    } else if w[i + 1] < w[i] {
        i + 1
    } else {
        first_descent_from(w, i + 1)
    }
}

/// The highest index at or below `j` whose count equals `target`, or -1.
pub open spec fn search_down(counts: Seq<int>, j: int, target: int) -> int
    decreases j + 1,
{
    if j < 0 {
        -1
    } else if counts[j] == target {
        j
    } else {
        search_down(counts, j - 1, target)
    }
}

/// The successor step of the enumeration: find the first descent, move the
/// symbol there to the highest row whose running count matches the count of
/// the symbol one above it, and regenerate the prefix canonically from the
/// adjusted counts.  `None` when the word is weakly increasing (the
/// enumeration is exhausted) or when no consistent move exists.
pub open spec fn successor(w: Seq<u8>, parts: int) -> Option<Seq<u8>> {
    let fd = first_descent_from(w, 0);
    if fd < 0 {
        None
    } else {
        let v = w[fd] as int;
        let counts = counts_of_seq(w.take(fd), parts);
        let target = counts[v + 1];
        if target == 0 {
            None
        } else {
            let nr = search_down(counts, parts - 1, target);
            if nr < 0 {
                None
            } else {
                let moved = counts.update(v, counts[v] + 1);
                let sub = moved.update(nr, moved[nr] - 1);
                if !weakly_decreasing(sub) {
                    None
                } else {
                    Some(starting_word(sub) + seq![nr as u8] + w.skip(fd + 1))
                }
            }
        }
    }
}

// --- lemmas ---

pub proof fn lemma_int_sum_push(s: Seq<int>, x: int)
    ensures
        int_sum(s.push(x)) == int_sum(s) + x,
{
    assert(s.push(x).drop_last() =~= s);
}

pub proof fn lemma_int_sum_update(s: Seq<int>, j: int, x: int)
    requires
        0 <= j < s.len(),
    ensures
        int_sum(s.update(j, x)) == int_sum(s) - s[j] + x,
    decreases s.len(),
{
    if j == s.len() - 1 {
        assert(s.update(j, x).drop_last() =~= s.drop_last());
    } else {
        assert(s.update(j, x).drop_last() =~= s.drop_last().update(j, x));
        lemma_int_sum_update(s.drop_last(), j, x);
    }
}

/// Every entry at most `b` bounds the sum by `b` per entry.
pub proof fn lemma_int_sum_bound(s: Seq<int>, b: int)
    requires
        forall|i: int| 0 <= i < s.len() ==> 0 <= #[trigger] s[i] <= b,
        b >= 0,
    ensures
        0 <= int_sum(s) <= b * s.len(),
    decreases s.len(),
{
    if s.len() > 0 {
        lemma_int_sum_bound(s.drop_last(), b);
        assert(b * (s.len() - 1) + b == b * s.len()) by (nonlinear_arith);
    }
}

/// The per-symbol counts of a word whose symbols lie below `parts` sum to
/// its length.
pub proof fn lemma_counts_sum(u: Seq<u8>, parts: int)
    requires
        0 <= parts <= 256,
        forall|i: int| 0 <= i < u.len() ==> (#[trigger] u[i]) < parts,
    ensures
        int_sum(counts_of_seq(u, parts)) == u.len(),
    decreases u.len(),
{
    if u.len() == 0 {
        lemma_zero_counts_sum(counts_of_seq(u, parts));
    } else {
        let d = u.drop_last();
        let e = u.last();
        assert(e < parts);
        lemma_counts_sum(d, parts);
        assert(counts_of_seq(u, parts) =~= counts_of_seq(d, parts).update(
            e as int,
            counts_of_seq(d, parts)[e as int] + 1,
        )) by {
            assert forall|v: int| 0 <= v < parts implies counts_of_seq(u, parts)[v]
                == counts_of_seq(d, parts).update(
                e as int,
                counts_of_seq(d, parts)[e as int] + 1,
            )[v] by {
                let x = v as u8;
                assert(u.drop_last() == d);
                assert(count_of(u, x) == count_of(d, x) + (if e == x {
                    1nat
                } else {
                    0nat
                }));
                assert(e == x <==> v == e as int);
            }
        }
        lemma_int_sum_update(
            counts_of_seq(d, parts),
            e as int,
            counts_of_seq(d, parts)[e as int] + 1,
        );
    }
}

pub proof fn lemma_zero_counts_sum(s: Seq<int>)
    requires
        forall|i: int| 0 <= i < s.len() ==> #[trigger] s[i] == 0,
    ensures
        int_sum(s) == 0,
    decreases s.len(),
{
    if s.len() > 0 {
        lemma_zero_counts_sum(s.drop_last());
    }
}

pub proof fn lemma_columns_len(height: int, width: int)
    requires
        height >= 0,
    ensures
        columns(height, width).len() == (if width <= 0 {
            0
        } else {
            width * height
        }),
    decreases width,
{
    if width > 0 {
        lemma_columns_len(height, width - 1);
        assert((width - 1) * height + height == width * height) by (nonlinear_arith);
    }
}

/// Every symbol written into a column is below its height.
pub proof fn lemma_columns_elems(height: int, width: int, j: int)
    requires
        height >= 0,
        0 <= j < columns(height, width).len(),
    ensures
        columns(height, width)[j] < height,
    decreases width,
{
    if width > 0 {
        if j < columns(height, width - 1).len() {
            lemma_columns_elems(height, width - 1, j);
        }
    }
}

/// Length of the canonical word over the `k` shortest rows: the sum of those
/// rows plus a rectangle of the still-unprocessed width under the taller
/// rows.
pub proof fn lemma_starting_rec_len(wt: Seq<int>, k: int)
    requires
        weakly_decreasing(wt),
        forall|i: int| 0 <= i < wt.len() ==> #[trigger] wt[i] >= 0,
        0 <= k <= wt.len(),
    ensures
        k == 0 ==> starting_rec(wt, k).len() == 0,
        k >= 1 ==> starting_rec(wt, k).len() == int_sum(wt.skip(wt.len() - k)) + (wt.len() - k)
            * wt[wt.len() - k],
    decreases k,
{
    let p = wt.len() as int;
    if k >= 1 {
        let row = wt[p - k];
        let prev = if k == 1 {
            0
        } else {
            wt[p - k + 1]
        };
        let h = p - k + 1;
        let width = row - prev;
        assert(width >= 0);
        lemma_starting_rec_len(wt, k - 1);
        assert(columns(h, width).len() == width * h) by {
            lemma_columns_len(h, width);
            if width == 0 {
                assert(width * h == 0) by (nonlinear_arith)
                    requires
                        width == 0,
                ;
            }
        }
        assert(starting_rec(wt, k).len() == starting_rec(wt, k - 1).len() + width * h);
        if k == 1 {
            assert(wt.skip(p - 1) =~= Seq::empty().push(wt[p - 1]));
            lemma_int_sum_push(Seq::empty(), wt[p - 1]);
            assert(width * h == row + (p - 1) * row) by (nonlinear_arith)
                requires
                    h == p,
                    width == row,
            ;
        } else {
            assert(wt.skip(p - k) =~= Seq::empty().push(wt[p - k]) + wt.skip(p - k + 1));
            lemma_int_sum_prepend(wt[p - k], wt.skip(p - k + 1));
            assert(starting_rec(wt, k - 1).len() == int_sum(wt.skip(p - k + 1)) + h * prev);
            assert(h * prev + width * h == row + (p - k) * row) by (nonlinear_arith)
                requires
                    h == p - k + 1,
                    width == row - prev,
            ;
        }
    }
}

pub proof fn lemma_int_sum_prepend(x: int, s: Seq<int>)
    ensures
        int_sum(Seq::empty().push(x) + s) == x + int_sum(s),
    decreases s.len(),
{
    if s.len() == 0 {
        assert(Seq::empty().push(x) + s =~= Seq::empty().push(x));
        lemma_int_sum_push(Seq::empty(), x);
    } else {
        assert((Seq::empty().push(x) + s).drop_last() =~= Seq::empty().push(x) + s.drop_last());
        lemma_int_sum_prepend(x, s.drop_last());
    }
}

/// The canonical word of a whole weight has the weight's sum as length.
pub proof fn lemma_starting_word_len(wt: Seq<int>)
    requires
        weakly_decreasing(wt),
        forall|i: int| 0 <= i < wt.len() ==> #[trigger] wt[i] >= 0,
    ensures
        starting_word(wt).len() == int_sum(wt),
{
    let p = wt.len() as int;
    lemma_starting_rec_len(wt, p);
    if p >= 1 {
        assert(wt.skip(0) =~= wt);
    }
}

/// Every prefix has weakly decreasing symbol counts: the count of each
/// symbol is at least the count of the next one up.
pub open spec fn all_prefix_ballot(w: Seq<u8>) -> bool {
    forall|i: int, v: u8|
        0 <= i <= w.len() && v < 255 ==> #[trigger] count_of(w.take(i), (v + 1) as u8) <= count_of(
            w.take(i),
            v,
        )
}

pub proof fn lemma_count_concat(a: Seq<u8>, b: Seq<u8>, v: u8)
    ensures
        count_of(a + b, v) == count_of(a, v) + count_of(b, v),
    decreases b.len(),
{
    if b.len() == 0 {
        assert(a + b =~= a);
    } else {
        assert((a + b).drop_last() =~= a + b.drop_last());
        lemma_count_concat(a, b.drop_last(), v);
    }
}

/// A partial column holds each symbol below its cut exactly once.
proof fn lemma_ramp_take_count(h: int, r: int, v: u8)
    requires
        0 <= r <= h <= 255,
    ensures
        count_of(ramp(h).take(r), v) == (if (v as int) < r {
            1nat
        } else {
            0nat
        }),
    decreases r,
{
    if r == 0 {
        assert(ramp(h).take(0) =~= Seq::<u8>::empty());
    } else {
        assert(ramp(h).take(r) =~= ramp(h).take(r - 1).push((r - 1) as u8));
        crate::counts::lemma_count_push(ramp(h).take(r - 1), v, (r - 1) as u8);
        lemma_ramp_take_count(h, r - 1, v);
    }
}

/// Appending one column keeps every prefix ballot.
proof fn lemma_append_ramp_ballot(w: Seq<u8>, h: int)
    requires
        all_prefix_ballot(w),
        0 <= h <= 255,
    ensures
        all_prefix_ballot(w + ramp(h)),
{
    let u = w + ramp(h);
    assert forall|i: int, v: u8|
        0 <= i <= u.len() && v < 255 implies #[trigger] count_of(u.take(i), (v + 1) as u8)
        <= count_of(u.take(i), v) by {
        if i <= w.len() {
            assert(u.take(i) =~= w.take(i));
            assert(count_of(w.take(i), (v + 1) as u8) <= count_of(w.take(i), v));
        } else {
            let r = i - w.len();
            assert(u.take(i) =~= w + ramp(h).take(r));
            lemma_count_concat(w, ramp(h).take(r), v);
            lemma_count_concat(w, ramp(h).take(r), (v + 1) as u8);
            lemma_ramp_take_count(h, r, v);
            lemma_ramp_take_count(h, r, (v + 1) as u8);
            assert(w.take(w.len() as int) =~= w);
            assert(count_of(w.take(w.len() as int), (v + 1) as u8) <= count_of(
                w.take(w.len() as int),
                v,
            ));
        }
    }
}

/// Appending columns of one height keeps every prefix ballot.
proof fn lemma_append_columns_ballot(w: Seq<u8>, h: int, c: int)
    requires
        all_prefix_ballot(w),
        0 <= h <= 255,
    ensures
        all_prefix_ballot(w + columns(h, c)),
    decreases c,
{
    if c <= 0 {
        assert(w + columns(h, c) =~= w);
    } else {
        lemma_append_columns_ballot(w, h, c - 1);
        lemma_append_ramp_ballot(w + columns(h, c - 1), h);
        assert(w + columns(h, c) =~= (w + columns(h, c - 1)) + ramp(h));
    }
}

proof fn lemma_starting_rec_ballot(wt: Seq<int>, k: int)
    requires
        weakly_decreasing(wt),
        forall|i: int| 0 <= i < wt.len() ==> #[trigger] wt[i] >= 0,
        wt.len() <= 255,
        0 <= k <= wt.len(),
    ensures
        all_prefix_ballot(starting_rec(wt, k)),
    decreases k,
{
    if k <= 0 {
        assert forall|i: int, v: u8|
            0 <= i <= starting_rec(wt, 0).len() && v < 255 implies #[trigger] count_of(
            starting_rec(wt, 0).take(i),
            (v + 1) as u8,
        ) <= count_of(starting_rec(wt, 0).take(i), v) by {
            assert(starting_rec(wt, 0).take(i) =~= Seq::<u8>::empty());
        }
    } else {
        lemma_starting_rec_ballot(wt, k - 1);
        let p = wt.len() as int;
        let row = wt[p - k];
        let prev = if k == 1 {
            0
        } else {
            wt[p - k + 1]
        };
        lemma_append_columns_ballot(starting_rec(wt, k - 1), p - k + 1, row - prev);
    }
}

/// Law: the canonical starting word of a weakly decreasing weight is a
/// lattice word.
pub proof fn lemma_starting_word_is_lattice(wt: Seq<int>)
    requires
        weakly_decreasing(wt),
        forall|i: int| 0 <= i < wt.len() ==> #[trigger] wt[i] >= 0,
        wt.len() <= 255,
    ensures
        is_lattice_word(starting_word(wt)),
{
    lemma_starting_rec_ballot(wt, wt.len() as int);
    let w = starting_word(wt);
    assert forall|i: int, v: u8|
        0 <= i <= w.len() && crate::counts::min_sym(w) < v implies #[trigger] count_of(
        w.take(i),
        v,
    ) <= count_of(w.take(i), (v - 1) as u8) by {
        let u = (v - 1) as u8;
        assert(count_of(w.take(i), (u + 1) as u8) <= count_of(w.take(i), u));
    }
}

/// Columns of height `h` hold one `v` each exactly when `v` is below `h`.
proof fn lemma_columns_count(h: int, c: int, v: u8)
    requires
        0 <= h <= 255,
        c >= 0,
    ensures
        count_of(columns(h, c), v) == (if (v as int) < h {
            c as nat
        } else {
            0nat
        }),
    decreases c,
{
    if c == 0 {
        assert(columns(h, 0) =~= Seq::<u8>::empty());
    } else {
        lemma_columns_count(h, c - 1, v);
        lemma_count_concat(columns(h, c - 1), ramp(h), v);
        assert(ramp(h).take(h) =~= ramp(h));
        lemma_ramp_take_count(h, h, v);
    }
}

proof fn lemma_starting_rec_count(wt: Seq<int>, k: int, v: u8)
    requires
        weakly_decreasing(wt),
        forall|i: int| 0 <= i < wt.len() ==> #[trigger] wt[i] >= 0,
        wt.len() <= 255,
        0 <= k <= wt.len(),
    ensures
        count_of(starting_rec(wt, k), v) == (if (v as int) < wt.len() && k >= 1 {
            (if k <= wt.len() - v {
                wt[wt.len() - k]
            } else {
                wt[v as int]
            }) as nat
        } else {
            0nat
        }),
    decreases k,
{
    let p = wt.len() as int;
    if k >= 1 {
        let row = wt[p - k];
        let prev = if k == 1 {
            0
        } else {
            wt[p - k + 1]
        };
        let h = p - k + 1;
        lemma_starting_rec_count(wt, k - 1, v);
        lemma_count_concat(starting_rec(wt, k - 1), columns(h, row - prev), v);
        lemma_columns_count(h, row - prev, v);
    }
}

/// Law: the canonical starting word holds each row index exactly as often
/// as that row is wide; its content is the weight.
pub proof fn lemma_starting_word_content(wt: Seq<int>, v: u8)
    requires
        weakly_decreasing(wt),
        forall|i: int| 0 <= i < wt.len() ==> #[trigger] wt[i] >= 0,
        wt.len() <= 255,
    ensures
        count_of(starting_word(wt), v) == (if (v as int) < wt.len() {
            wt[v as int]
        } else {
            0
        }),
{
    lemma_starting_rec_count(wt, wt.len() as int, v);
}

/// A successful search returns an index holding the target.
proof fn lemma_search_down_found(counts: Seq<int>, j: int, target: int)
    requires
        search_down(counts, j, target) >= 0,
    ensures
        0 <= search_down(counts, j, target) <= j,
        counts[search_down(counts, j, target)] == target,
    decreases j + 1,
{
    if j >= 0 && counts[j] != target {
        lemma_search_down_found(counts, j - 1, target);
    }
}

/// A found first descent lies inside the word and descends.
proof fn lemma_first_descent_found(w: Seq<u8>, i: int)
    requires
        0 <= i,
        first_descent_from(w, i) >= 0,
    ensures
        i + 1 <= first_descent_from(w, i) < w.len(),
        w[first_descent_from(w, i)] < w[first_descent_from(w, i) - 1],
    decreases w.len() - i,
{
    if i + 1 < w.len() && !(w[i + 1] < w[i]) {
        lemma_first_descent_found(w, i + 1);
    }
}

/// Words with the same length and content stay count-equal under any
/// common extension.
proof fn lemma_equal_count_extension(a1: Seq<u8>, a2: Seq<u8>, b: Seq<u8>, i: int, y: u8)
    requires
        a1.len() == a2.len(),
        forall|z: u8| #[trigger] count_of(a1, z) == count_of(a2, z),
        a1.len() <= i <= a1.len() + b.len(),
    ensures
        count_of((a1 + b).take(i), y) == count_of((a2 + b).take(i), y),
{
    let t = i - a1.len();
    assert((a1 + b).take(i) =~= a1 + b.take(t));
    assert((a2 + b).take(i) =~= a2 + b.take(t));
    lemma_count_concat(a1, b.take(t), y);
    lemma_count_concat(a2, b.take(t), y);
}

/// The regenerated prefix with the moved symbol holds the same counts as
/// the old prefix through the descent.
proof fn lemma_head_counts_one(
    w: Seq<u8>,
    parts: int,
    fd: int,
    v: int,
    nr: int,
    counts: Seq<int>,
    sub: Seq<int>,
    y: u8,
)
    requires
        0 <= parts <= 255,
        forall|j: int| 0 <= j < w.len() ==> (#[trigger] w[j] as int) < parts,
        1 <= fd < w.len(),
        v == w[fd] as int,
        0 <= v < parts,
        0 <= nr < parts,
        counts == counts_of_seq(w.take(fd), parts),
        sub == counts.update(v, counts[v] + 1).update(
            nr,
            counts.update(v, counts[v] + 1)[nr] - 1,
        ),
        weakly_decreasing(sub),
        forall|q: int| 0 <= q < sub.len() ==> #[trigger] sub[q] >= 0,
    ensures
        count_of(starting_word(sub) + seq![nr as u8], y) == count_of(w.take(fd + 1), y),
{
    lemma_count_push_general(starting_word(sub), nr as u8, y);
    lemma_starting_word_content(sub, y);
    crate::counts::lemma_count_take_succ(w, y, fd);
    if (y as int) < parts {
        assert(counts[y as int] == count_of(w.take(fd), y));
        assert(sub[y as int] + (if y as int == nr {
            1int
        } else {
            0int
        }) == counts[y as int] + (if y as int == v {
            1int
        } else {
            0int
        }));
        assert(w[fd] == y <==> y as int == v);
    } else {
        assert forall|q: int| 0 <= q < w.take(fd + 1).len() implies #[trigger] w.take(fd + 1)[q]
            != y by {
            crate::counts::lemma_min_max_bounds(w, q);
        }
        crate::counts::lemma_count_absent(w.take(fd + 1), y);
    }
}

/// A word whose successor exists has minimum symbol 0: otherwise no symbol
/// 0 was counted, so the adjusted counts are all zero by monotonicity, yet
/// they sum to the prefix length.
proof fn lemma_succ_min_zero(
    w: Seq<u8>,
    parts: int,
    fd: int,
    v: int,
    nr: int,
    counts: Seq<int>,
    sub: Seq<int>,
)
    requires
        0 <= parts <= 255,
        1 <= fd < w.len(),
        v == w[fd] as int,
        0 <= v < parts,
        0 <= nr < parts,
        counts == counts_of_seq(w.take(fd), parts),
        counts[nr] >= 1,
        sub == counts.update(v, counts[v] + 1).update(
            nr,
            counts.update(v, counts[v] + 1)[nr] - 1,
        ),
        weakly_decreasing(sub),
        int_sum(sub) == fd,
    ensures
        min_sym(w) == 0,
{
    if min_sym(w) != 0 {
        assert(counts[0] == 0) by {
            assert forall|q: int| 0 <= q < w.take(fd).len() implies #[trigger] w.take(fd)[q]
                != 0u8 by {
                crate::counts::lemma_min_max_bounds(w, q);
            }
            crate::counts::lemma_count_absent(w.take(fd), 0u8);
        }
        assert(v >= 1) by {
            crate::counts::lemma_min_max_bounds(w, fd);
        }
        assert(nr >= 1);
        assert(sub[0] == 0);
        assert forall|y: int| 0 <= y < parts implies #[trigger] sub[y] == 0 by {
            assert(sub[y] <= sub[0]);
            assert(sub[y] >= 0) by {
                assert(counts[y] >= 0);
            }
        }
        lemma_zero_counts_sum(sub);
    }
}

/// Law: the successor of a lattice word is again a lattice word, of the
/// same content.
#[verifier::spinoff_prover]
#[verifier::rlimit(60)]
pub proof fn lemma_successor_is_lattice(w: Seq<u8>, parts: int)
    requires
        is_lattice_word(w),
        0 <= parts <= 255,
        forall|j: int| 0 <= j < w.len() ==> (#[trigger] w[j] as int) < parts,
    ensures
        successor(w, parts) matches Some(w2) ==> is_lattice_word(w2),
        successor(w, parts) matches Some(w2) ==> (forall|y: u8|
            #[trigger] count_of(w2, y) == count_of(w, y)),
{
    if successor(w, parts) is Some {
        let w2 = successor(w, parts)->Some_0;
        let fd = first_descent_from(w, 0);
        lemma_first_descent_found(w, 0);
        let v = w[fd] as int;
        let counts = counts_of_seq(w.take(fd), parts);
        let target = counts[v + 1];
        let nr = search_down(counts, parts - 1, target);
        lemma_search_down_found(counts, parts - 1, target);
        let moved = counts.update(v, counts[v] + 1);
        let sub = moved.update(nr, moved[nr] - 1);
        let tail = w.skip(fd + 1);
        assert(w2 == starting_word(sub) + seq![nr as u8] + tail);
        assert(weakly_decreasing(sub));
        assert(0 <= v < parts) by {
            crate::counts::lemma_min_max_bounds(w, fd);
        }
        assert(counts[nr] == target);
        assert(target >= 1);
        assert forall|y: int| 0 <= y < parts implies #[trigger] sub[y] >= 0 by {}
        assert forall|q: int| 0 <= q < fd implies (#[trigger] w.take(fd)[q] as int) < parts by {}
        lemma_counts_sum(w.take(fd), parts);
        lemma_int_sum_update(counts, v, counts[v] + 1);
        lemma_int_sum_update(moved, nr, moved[nr] - 1);
        assert(int_sum(sub) == fd);
        lemma_succ_min_zero(w, parts, fd, v, nr, counts, sub);
        let head = starting_word(sub) + seq![nr as u8];
        lemma_starting_word_len(sub);
        assert(head.len() == fd + 1);
        assert(w2.len() == w.len());
        assert forall|y: u8| #[trigger] count_of(head, y) == count_of(w.take(fd + 1), y) by {
            lemma_head_counts_one(w, parts, fd, v, nr, counts, sub, y);
        }
        assert(w.take(fd + 1) + tail =~= w);
        // The ballot property holds on every prefix.
        lemma_starting_rec_ballot(sub, sub.len() as int);
        assert forall|i: int, y: u8|
            0 <= i <= w2.len() && y < 255 implies #[trigger] count_of(w2.take(i), (y + 1) as u8)
            <= count_of(w2.take(i), y) by {
            if i <= fd {
                assert(w2.take(i) =~= starting_word(sub).take(i));
                assert(count_of(starting_word(sub).take(i), (y + 1) as u8) <= count_of(
                    starting_word(sub).take(i),
                    y,
                ));
            } else {
                lemma_equal_count_extension(head, w.take(fd + 1), tail, i, (y + 1) as u8);
                lemma_equal_count_extension(head, w.take(fd + 1), tail, i, y);
                assert((w.take(fd + 1) + tail).take(i) == w.take(i));
                assert(count_of(w.take(i), (y + 1) as u8) <= count_of(w.take(i), y));
            }
        }
        assert forall|i: int, y: u8|
            0 <= i <= w2.len() && min_sym(w2) < y implies #[trigger] count_of(w2.take(i), y)
            <= count_of(w2.take(i), (y - 1) as u8) by {
            let u = (y - 1) as u8;
            assert(count_of(w2.take(i), (u + 1) as u8) <= count_of(w2.take(i), u));
        }
        // The move conserves the content.
        assert forall|y: u8| #[trigger] count_of(w2, y) == count_of(w, y) by {
            lemma_equal_count_extension(head, w.take(fd + 1), tail, w.len() as int, y);
            assert(w2.take(w.len() as int) =~= w2);
            assert((w.take(fd + 1) + tail).take(w.len() as int) == w.take(w.len() as int));
            assert(w.take(w.len() as int) =~= w);
        }
    }
}

/// Strictly later in the colexicographic order: the words agree above some
/// position where the first is smaller.
pub open spec fn colex_lt(a: Seq<u8>, b: Seq<u8>) -> bool {
    exists|i: int|
        0 <= i < b.len() && (#[trigger] a[i]) < b[i] && (forall|j: int|
            i < j < b.len() ==> #[trigger] a[j] == b[j])
}

/// The search lands at or above any index holding the target.
proof fn lemma_search_down_ge(counts: Seq<int>, j: int, target: int, t: int)
    requires
        0 <= t <= j,
        counts[t] == target,
    ensures
        search_down(counts, j, target) >= t,
    decreases j + 1,
{
    if counts[j] != target {
        lemma_search_down_ge(counts, j - 1, target, t);
    }
}

/// Law: the successor is strictly later in the colexicographic order — the
/// moved symbol only ever moves to a higher row, and everything after it
/// stays in place.
pub proof fn lemma_successor_colex(w: Seq<u8>, parts: int)
    requires
        0 <= parts <= 255,
        forall|j: int| 0 <= j < w.len() ==> (#[trigger] w[j] as int) < parts,
    ensures
        successor(w, parts) matches Some(w2) ==> w2.len() == w.len() && colex_lt(w, w2),
{
    if successor(w, parts) is Some {
        let w2 = successor(w, parts)->Some_0;
        let fd = first_descent_from(w, 0);
        lemma_first_descent_found(w, 0);
        let v = w[fd] as int;
        let counts = counts_of_seq(w.take(fd), parts);
        let target = counts[v + 1];
        let nr = search_down(counts, parts - 1, target);
        lemma_search_down_found(counts, parts - 1, target);
        let moved = counts.update(v, counts[v] + 1);
        let sub = moved.update(nr, moved[nr] - 1);
        assert((w[fd - 1] as int) < parts);
        lemma_search_down_ge(counts, parts - 1, target, v + 1);
        assert(nr >= v + 1);
        assert forall|q: int| 0 <= q < fd implies (#[trigger] w.take(fd)[q] as int) < parts by {}
        lemma_counts_sum(w.take(fd), parts);
        lemma_int_sum_update(counts, v, counts[v] + 1);
        lemma_int_sum_update(moved, nr, moved[nr] - 1);
        assert forall|y: int| 0 <= y < parts implies #[trigger] sub[y] >= 0 by {}
        lemma_starting_word_len(sub);
        assert(starting_word(sub).len() == fd);
        assert(w2.len() == w.len());
        assert(w2[fd] == nr as u8);
        assert(w[fd] < w2[fd]);
        assert forall|j: int| fd < j < w2.len() implies #[trigger] w[j] == w2[j] by {
            assert(w2[j] == w.skip(fd + 1)[j - fd - 1]);
        }
        assert(colex_lt(w, w2)) by {
            assert(0 <= fd < w2.len() && (#[trigger] w[fd]) < w2[fd]);
        }
    }
}

/// The colexicographic order is transitive on words of one length.
proof fn lemma_colex_trans(a: Seq<u8>, b: Seq<u8>, c: Seq<u8>)
    requires
        a.len() == b.len(),
        b.len() == c.len(),
        colex_lt(a, b),
        colex_lt(b, c),
    ensures
        colex_lt(a, c),
{
    let i1 = choose|i: int|
        0 <= i < b.len() && (#[trigger] a[i]) < b[i] && (forall|j: int|
            i < j < b.len() ==> #[trigger] a[j] == b[j]);
    let i2 = choose|i: int|
        0 <= i < c.len() && (#[trigger] b[i]) < c[i] && (forall|j: int|
            i < j < c.len() ==> #[trigger] b[j] == c[j]);
    if i1 <= i2 {
        assert(a[i2] <= b[i2]);
        assert(0 <= i2 < c.len() && (#[trigger] a[i2]) < c[i2] && (forall|j: int|
            i2 < j < c.len() ==> #[trigger] a[j] == c[j]));
    } else {
        assert(b[i1] < c[i1] || b[i1] == c[i1]);
        assert(0 <= i1 < c.len() && (#[trigger] a[i1]) < c[i1] && (forall|j: int|
            i1 < j < c.len() ==> #[trigger] a[j] == c[j]));
    }
}

/// The `k`-th word of the enumeration of a weight, counted from the
/// canonical starting word, or `None` once the run is exhausted.
pub open spec fn nth_word(wt: Seq<int>, k: nat) -> Option<Seq<u8>>
    decreases k,
{
    if k == 0 {
        Some(starting_word(wt))
    } else {
        match nth_word(wt, (k - 1) as nat) {
            Some(u) => successor(u, wt.len() as int),
            None => None,
        }
    }
}

/// Every word of a run is a lattice word of the weight's content, over
/// symbols below the number of parts.
pub proof fn lemma_nth_word_props(wt: Seq<int>, k: nat)
    requires
        weakly_decreasing(wt),
        forall|i: int| 0 <= i < wt.len() ==> #[trigger] wt[i] >= 0,
        wt.len() <= 255,
    ensures
        nth_word(wt, k) matches Some(u) ==> is_lattice_word(u) && u.len() == int_sum(wt) && (
        forall|y: u8|
            (#[trigger] count_of(u, y)) as int == (if (y as int) < wt.len() {
                wt[y as int]
            } else {
                0
            })) && (forall|j: int| 0 <= j < u.len() ==> (#[trigger] u[j] as int) < wt.len()),
    decreases k,
{
    let parts = wt.len() as int;
    if k == 0 {
        lemma_starting_word_is_lattice(wt);
        lemma_starting_word_len(wt);
        let u = starting_word(wt);
        assert forall|y: u8| (#[trigger] count_of(u, y)) as int == (if (y as int) < wt.len() {
            wt[y as int]
        } else {
            0
        }) by {
            lemma_starting_word_content(wt, y);
        }
        lemma_content_bounds_elements(u, wt);
    } else if nth_word(wt, (k - 1) as nat) is Some {
        lemma_nth_word_props(wt, (k - 1) as nat);
        let u = nth_word(wt, (k - 1) as nat)->Some_0;
        if successor(u, parts) is Some {
            lemma_successor_is_lattice(u, parts);
            lemma_successor_colex(u, parts);
            let u2 = successor(u, parts)->Some_0;
            lemma_content_bounds_elements(u2, wt);
        }
    }
}

/// A word whose counts are the weight's entries only uses rows below the
/// number of parts.
proof fn lemma_content_bounds_elements(u: Seq<u8>, wt: Seq<int>)
    requires
        forall|y: u8|
            (#[trigger] count_of(u, y)) as int == (if (y as int) < wt.len() {
                wt[y as int]
            } else {
                0
            }),
    ensures
        forall|j: int| 0 <= j < u.len() ==> (#[trigger] u[j] as int) < wt.len(),
{
    assert forall|j: int| 0 <= j < u.len() implies (#[trigger] u[j] as int) < wt.len() by {
        crate::rectangle::lemma_count_occurs(u, j);
    }
}

/// Law: within one run of the enumeration no word repeats — every step is
/// strictly later in the colexicographic order.
pub proof fn lemma_enumeration_distinct(wt: Seq<int>, j: int, k: int)
    requires
        weakly_decreasing(wt),
        forall|i: int| 0 <= i < wt.len() ==> #[trigger] wt[i] >= 0,
        wt.len() <= 255,
        0 <= j < k,
        nth_word(wt, k as nat) is Some,
    ensures
        nth_word(wt, j as nat) is Some,
        colex_lt(nth_word(wt, j as nat)->Some_0, nth_word(wt, k as nat)->Some_0),
        nth_word(wt, j as nat) != nth_word(wt, k as nat),
    decreases k,
{
    let parts = wt.len() as int;
    let u = nth_word(wt, (k - 1) as nat)->Some_0;
    let u2 = nth_word(wt, k as nat)->Some_0;
    lemma_nth_word_props(wt, (k - 1) as nat);
    lemma_nth_word_props(wt, k as nat);
    lemma_successor_colex(u, parts);
    assert(colex_lt(u, u2));
    if j < k - 1 {
        lemma_enumeration_distinct(wt, j, k - 1);
        let uj = nth_word(wt, j as nat)->Some_0;
        lemma_nth_word_props(wt, j as nat);
        lemma_colex_trans(uj, u, u2);
    }
    let uj = nth_word(wt, j as nat)->Some_0;
    assert(uj != u2) by {
        let i = choose|i: int|
            0 <= i < u2.len() && (#[trigger] uj[i]) < u2[i] && (forall|q: int|
                i < q < u2.len() ==> #[trigger] uj[q] == u2[q]);
        assert(uj[i] != u2[i]);
    }
}

proof fn lemma_count_push_general(s: Seq<u8>, x: u8, y: u8)
    ensures
        count_of(s + seq![x], y) == count_of(s, y) + (if x == y {
            1nat
        } else {
            0nat
        }),
{
    assert(s + seq![x] =~= s.push(x));
    crate::counts::lemma_count_push(s, y, x);
}

/// Prefixes of the canonical construction never shrink.
pub proof fn lemma_starting_rec_mono(wt: Seq<int>, k1: int, k2: int)
    requires
        weakly_decreasing(wt),
        forall|i: int| 0 <= i < wt.len() ==> #[trigger] wt[i] >= 0,
        0 <= k1 <= k2 <= wt.len(),
    ensures
        starting_rec(wt, k1).len() <= starting_rec(wt, k2).len(),
    decreases k2 - k1,
{
    if k1 < k2 {
        lemma_starting_rec_mono(wt, k1, k2 - 1);
        let p = wt.len() as int;
        lemma_columns_len(p - k2 + 1, wt[p - k2] - (if k2 == 1 {
            0
        } else {
            wt[p - k2 + 1]
        }));
        assert((wt[p - k2] - (if k2 == 1 {
            0
        } else {
            wt[p - k2 + 1]
        })) * (p - k2 + 1) >= 0) by (nonlinear_arith)
            requires
                wt[p - k2] - (if k2 == 1 {
                    0
                } else {
                    wt[p - k2 + 1]
                }) >= 0,
                p - k2 + 1 >= 0,
        ;
    }
}

/// Every symbol of the canonical word is below the number of rows.
pub proof fn lemma_starting_rec_elems(wt: Seq<int>, k: int, j: int)
    requires
        weakly_decreasing(wt),
        forall|i: int| 0 <= i < wt.len() ==> #[trigger] wt[i] >= 0,
        0 <= k <= wt.len(),
        0 <= j < starting_rec(wt, k).len(),
    ensures
        starting_rec(wt, k)[j] < wt.len(),
    decreases k,
{
    let p = wt.len() as int;
    if k >= 1 {
        if j < starting_rec(wt, k - 1).len() {
            lemma_starting_rec_elems(wt, k - 1, j);
        } else {
            let row = wt[p - k];
            let prev = if k == 1 {
                0
            } else {
                wt[p - k + 1]
            };
            lemma_columns_elems(p - k + 1, row - prev, j - starting_rec(wt, k - 1).len());
        }
    }
}

} // verus!
