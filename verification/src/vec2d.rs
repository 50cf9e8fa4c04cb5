use vstd::prelude::*;

verus! {

/// A two-dimensional array stored row after row in one vector.
///
/// Row `i` is the stretch `body[i * w .. (i + 1) * w]`; only whole rows count, so the height
/// is `body.len() / w` (and `0` when `w` is `0`).
pub struct Array2d<T> {
    pub w: usize,
    pub body: Vec<T>,
}

/// The number of whole rows of width `w` in `len` elements.
pub open spec fn rows_in(len: nat, w: nat) -> nat {
    if w == 0 {
        0
    } else {
        len / w
    }
}

proof fn lemma_row_bounds(r: nat, h: nat, w: nat, len: nat)
    requires
        w > 0,
        h == len / w,
        r <= h,
    ensures
        r * w <= len,
        r * w <= h * w,
{
    assert(r * w <= h * w) by (nonlinear_arith)
        requires
            r <= h,
    ;
    assert(h * w <= len) by (nonlinear_arith)
        requires
            w > 0,
            h == len / w,
    ;
}

impl<T> Array2d<T> {
    /// The number of whole rows.
    pub open spec fn spec_height(&self) -> nat {
        rows_in(self.body@.len(), self.w as nat)
    }

    /// The elements of rows `start..end`, row after row.
    pub open spec fn spec_rows(&self, start: int, end: int) -> Seq<T> {
        self.body@.subrange(start * self.w, end * self.w)
    }

    /// An empty array whose rows will have width `w`, with room reserved for `h` rows.
    pub fn with_capacity(h: usize, w: usize) -> (a: Self)
        ensures
            a.w == w,
            a.body@.len() == 0,
            a.spec_height() == 0,
    {
        let _ = h;
        Array2d { w, body: Vec::new() }
    }

    /// The width of a row.
    pub fn width(&self) -> (r: usize)
        ensures
            r == self.w,
    {
        self.w
    }

    /// The number of whole rows.
    pub fn height(&self) -> (r: usize)
        ensures
            r == self.spec_height(),
    {
        if self.w == 0 {
            0
        } else {
            self.body.len() / self.w
        }
    }

    /// Where row `row` starts in the body.
    fn row_start(&self, row: usize) -> (r: usize)
        requires
            row < self.spec_height(),
        ensures
            r == row * self.w,
            r + self.w <= self.body@.len() <= usize::MAX,
    {
        let h = self.height();
        let n = self.body.len();
        proof {
            lemma_row_bounds((row + 1) as nat, h as nat, self.w as nat, n as nat);
            assert((row + 1) * self.w == row * self.w + self.w) by (nonlinear_arith);
        }
        row * self.w
    }

    /// The body positions of rows `start..end`.
    fn row_range(&self, start: usize, end: usize) -> (r: (usize, usize))
        requires
            start <= end <= self.spec_height(),
        ensures
            r.0 == start * self.w,
            r.1 == end * self.w,
            r.0 <= r.1 <= self.body@.len(),
    {
        let h = self.height();
        let n = self.body.len();
        if self.w == 0 {
            return (0, 0);
        }
        proof {
            lemma_row_bounds(end as nat, h as nat, self.w as nat, n as nat);
            assert(start * self.w <= end * self.w) by (nonlinear_arith)
                requires
                    start <= end,
            ;
        }
        (start * self.w, end * self.w)
    }

    /// Row `row`, as a slice of length `width()`.
    pub fn row(&self, row: usize) -> (r: &[T])
        requires
            row < self.spec_height(),
        ensures
            r@ == self.spec_rows(row as int, row + 1),
            r@.len() == self.w,
    {
        let start = self.row_start(row);
        proof {
            assert((row + 1) * self.w == row * self.w + self.w) by (nonlinear_arith);
        }
        &self.body.as_slice()[start..start + self.w]
    }

    /// Rows `start..end`, row after row, as one slice.
    pub fn rows(&self, range: std::ops::Range<usize>) -> (r: &[T])
        requires
            range.start <= range.end <= self.spec_height(),
        ensures
            r@ == self.spec_rows(range.start as int, range.end as int),
    {
        let (s, e) = self.row_range(range.start, range.end);
        &self.body.as_slice()[s..e]
    }

    /// The element in row `row`, column `col`.
    pub fn get(&self, row: usize, col: usize) -> (r: &T)
        requires
            row < self.spec_height(),
            col < self.w,
        ensures
            *r == self.body@[row * self.w + col],
    {
        let start = self.row_start(row);
        &self.body[start + col]
    }

    /// Writes `value` in row `row`, column `col`; nothing else changes.
    pub fn set(&mut self, row: usize, col: usize, value: T)
        requires
            row < old(self).spec_height(),
            col < old(self).w,
        ensures
            final(self).w == old(self).w,
            final(self).body@ == old(self).body@.update(row * old(self).w + col, value),
    {
        let start = self.row_start(row);
        self.body.set(start + col, value);
    }
}

/// Rows `start..end` taken together are rows `start..mid` followed by rows `mid..end`.
pub proof fn lemma_rows_split<T>(a: &Array2d<T>, start: int, mid: int, end: int)
    requires
        0 <= start <= mid <= end <= a.spec_height(),
    ensures
        a.spec_rows(start, end) == a.spec_rows(start, mid) + a.spec_rows(mid, end),
{
    if a.w > 0 {
        lemma_row_bounds(end as nat, a.spec_height(), a.w as nat, a.body@.len());
        assert(start * a.w <= mid * a.w <= end * a.w) by (nonlinear_arith)
            requires
                start <= mid <= end,
        ;
    }
    assert(a.spec_rows(start, end) =~= a.spec_rows(start, mid) + a.spec_rows(mid, end));
}

} // verus!
