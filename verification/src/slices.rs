use vstd::prelude::*;

verus! {

/// An owned, immutable byte buffer restricted to a window, so that derived
/// views can be handed out without borrowing.
#[derive(Debug)]
pub struct OwnedSlice {
    inner: Vec<u8>,
    start: usize,
    end: usize,
}

impl View for OwnedSlice {
    type V = Seq<u8>;

    closed spec fn view(&self) -> Seq<u8> {
        if self.start <= self.end <= self.inner@.len() {
            self.inner@.subrange(self.start as int, self.end as int)
        } else {
            Seq::empty()
        }
    }
}

impl OwnedSlice {
    /// The backing buffer.
    pub closed spec fn backing(&self) -> Seq<u8> {
        self.inner@
    }

    /// Where the window begins in the backing buffer.
    pub closed spec fn window_start(&self) -> int {
        self.start as int
    }

    /// Where the window ends in the backing buffer.
    pub closed spec fn window_end(&self) -> int {
        self.end as int
    }

    /// Wraps `inner` restricted to the window `start .. end`.
    pub fn new(inner: Vec<u8>, start: usize, end: usize) -> (r: OwnedSlice)
        requires
            start <= end <= inner@.len(),
        ensures
            r@ == inner@.subrange(start as int, end as int),
            r.backing() == inner@,
            r.window_start() == start,
            r.window_end() == end,
    {
        OwnedSlice { inner, start, end }
    }

    /// The backing buffer and the window into it, exactly as constructed.
    pub fn inner(&self) -> (r: (&Vec<u8>, usize, usize))
        ensures
            r.0@ == self.backing(),
            r.1 == self.window_start(),
            r.2 == self.window_end(),
            self@ == r.0@.subrange(r.1 as int, r.2 as int),
            r.1 <= r.2 <= r.0@.len(),
    {
        proof {
            use_type_invariant(self);
        }
        (&self.inner, self.start, self.end)
    }

    /// The number of bytes in the window.
    pub fn len(&self) -> (r: usize)
        ensures
            r == self@.len(),
    {
        proof {
            use_type_invariant(self);
        }
        self.end - self.start
    }

    /// The byte at `i` within the window, when there is one.
    pub fn get(&self, i: usize) -> (r: Option<u8>)
        ensures
            i < self@.len() ==> r == Some(self@[i as int]),
            i >= self@.len() ==> r is None,
    {
        proof {
            use_type_invariant(self);
        }
        if i < self.end - self.start {
            Some(self.inner[self.start + i])
        } else {
            None
        }
    }
}

/// Construction of `OwnedSlice` happens only through `new`, which requires
/// the window to be valid; the fields are private, so the property is an
/// invariant.
#[verifier::type_invariant]
pub closed spec fn window_ok(s: OwnedSlice) -> bool {
    s.start <= s.end <= s.inner@.len()
}

/// A host-style index into a word: one position, or a contiguous range;
/// negative values count from the end.
#[derive(Clone, Copy, Debug)]
pub enum SliceIndex {
    Singleton(isize),
    Range { start: isize, end: isize },
    RangeFrom { start: isize },
    RangeFull,
    RangeTo { end: isize },
}

/// What an index resolves to against a word of a given length: one
/// position, or a half-open window.
#[derive(Clone, Copy, Debug, PartialEq, Eq, Structural)]
pub enum SliceResolution {
    Item(usize),
    Window { start: usize, end: usize },
}

/// A negative index counts from the end.
pub open spec fn fix_index(i: int, len: int) -> int {
    if i < 0 {
        i + len
    } else {
        i
    }
}

/// How each index form resolves against a word of length `len`, or `None`
/// when it is out of range: a position must fall inside the word, a window
/// must be ordered and end inside it.
pub open spec fn resolve_spec(index: SliceIndex, len: int) -> Option<SliceResolution> {
    match index {
        SliceIndex::Singleton(i) => {
            let f = fix_index(i as int, len);
            if 0 <= f < len {
                Some(SliceResolution::Item(f as usize))
            } else {
                None
            }
        },
        SliceIndex::Range { start, end } => {
            let fs = fix_index(start as int, len);
            let fe = fix_index(end as int, len);
            if 0 <= fs && 0 <= fe && fs <= fe <= len {
                Some(SliceResolution::Window { start: fs as usize, end: fe as usize })
            } else {
                None
            }
        },
        SliceIndex::RangeFrom { start } => {
            let fs = fix_index(start as int, len);
            if 0 <= fs <= len {
                Some(SliceResolution::Window { start: fs as usize, end: len as usize })
            } else {
                None
            }
        },
        SliceIndex::RangeFull => Some(
            SliceResolution::Window { start: 0, end: len as usize },
        ),
        SliceIndex::RangeTo { end } => {
            let fe = fix_index(end as int, len);
            if 0 <= fe <= len {
                Some(SliceResolution::Window { start: 0, end: fe as usize })
            } else {
                None
            }
        },
    }
}

impl SliceIndex {
    /// Resolves this index against a word of length `len`.
    pub fn resolve(self, len: usize) -> (r: Option<SliceResolution>)
        requires
            len <= isize::MAX as usize,
        ensures
            r == resolve_spec(self, len as int),
    {
        match self {
            SliceIndex::Singleton(i) => {
                let f = if i < 0 {
                    i + len as isize
                } else {
                    i
                };
                if 0 <= f && (f as usize) < len {
                    Some(SliceResolution::Item(f as usize))
                } else {
                    None
                }
            },
            SliceIndex::Range { start, end } => {
                let fs = if start < 0 {
                    start + len as isize
                } else {
                    start
                };
                let fe = if end < 0 {
                    end + len as isize
                } else {
                    end
                };
                if 0 <= fs && 0 <= fe && fs <= fe && (fe as usize) <= len {
                    Some(SliceResolution::Window { start: fs as usize, end: fe as usize })
                } else {
                    None
                }
            },
            SliceIndex::RangeFrom { start } => {
                let fs = if start < 0 {
                    start + len as isize
                } else {
                    start
                };
                if 0 <= fs && (fs as usize) <= len {
                    Some(SliceResolution::Window { start: fs as usize, end: len })
                } else {
                    None
                }
            },
            SliceIndex::RangeFull => Some(SliceResolution::Window { start: 0, end: len }),
            SliceIndex::RangeTo { end } => {
                let fe = if end < 0 {
                    end + len as isize
                } else {
                    end
                };
                if 0 <= fe && (fe as usize) <= len {
                    Some(SliceResolution::Window { start: 0, end: fe as usize })
                } else {
                    None
                }
            },
        }
    }
}

} // verus!
