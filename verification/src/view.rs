//! Strided views of a matrix held in a flat buffer.

use vstd::prelude::*;

verus! {

/// The shape of an `nrows` by `ncols` grid laid over a buffer: entry
/// `(i, j)` is the buffer's element `offset + i * row_stride + j * col_stride`.
/// A view names no buffer and may be copied freely.
#[derive(Clone, Copy, Debug)]
pub struct MatView {
    pub offset: usize,
    pub nrows: usize,
    pub ncols: usize,
    pub row_stride: isize,
    pub col_stride: isize,
}

impl MatView {
    /// The position of entry `(i, j)` in the buffer.
    pub open spec fn index(self, i: int, j: int) -> int {
        self.offset + i * self.row_stride + j * self.col_stride
    }

    /// Whether `(i, j)` names an entry of the view.
    pub open spec fn has(self, i: int, j: int) -> bool {
        0 <= i < self.nrows && 0 <= j < self.ncols
    }

    /// Every entry lies inside a buffer of `len` elements.
    pub open spec fn in_bounds(self, len: int) -> bool {
        forall|i: int, j: int| self.has(i, j) ==> 0 <= #[trigger] self.index(i, j) < len
    }

    /// No two entries share a position.
    pub open spec fn injective(self) -> bool {
        forall|i: int, j: int, i2: int, j2: int|
            self.has(i, j) && self.has(i2, j2) && #[trigger] self.index(i, j) == #[trigger] self.index(
                i2,
                j2,
            ) ==> i == i2 && j == j2
    }

    /// The view can be read over a buffer of `len` elements, as it is and
    /// with either direction reversed.
    pub open spec fn readable(self, len: int) -> bool {
        &&& self.in_bounds(len)
        &&& self.row_stride > isize::MIN
        &&& self.col_stride > isize::MIN
    }

    /// The view can be read and written over a buffer of `len` elements.
    pub open spec fn wf(self, len: int) -> bool {
        &&& self.readable(len)
        &&& self.injective()
    }

    /// The entry `(i, j)` of the view over `buf`.
    pub open spec fn at(self, buf: Seq<u64>, i: int, j: int) -> u64 {
        buf[self.index(i, j)]
    }

    /// Whether position `p` of the buffer holds an entry of the view.
    pub open spec fn covers(self, p: int) -> bool {
        exists|i: int, j: int| self.has(i, j) && #[trigger] self.index(i, j) == p
    }

    /// Every entry has a position that a `usize` can hold. A view that is in
    /// bounds of some buffer is addressable.
    pub open spec fn addressable(self) -> bool {
        self.in_bounds(usize::MAX as int)
    }

    /// Whether the view has no entry.
    pub open spec fn is_empty(self) -> bool {
        self.nrows == 0 || self.ncols == 0
    }

    /// `self` is the block of `parent` that starts at `(r0, c0)`.
    pub open spec fn is_block_of(self, parent: MatView, r0: int, c0: int) -> bool {
        &&& 0 <= r0
        &&& 0 <= c0
        &&& r0 + self.nrows <= parent.nrows
        &&& c0 + self.ncols <= parent.ncols
        &&& self.row_stride == parent.row_stride
        &&& self.col_stride == parent.col_stride
        &&& forall|i: int, j: int|
            self.has(i, j) ==> #[trigger] self.index(i, j) == parent.index(r0 + i, c0 + j)
    }

    /// The position of entry `(i, j)`.
    pub fn position(&self, i: usize, j: usize) -> (p: usize)
        requires
            self.addressable(),
            self.has(i as int, j as int),
        ensures
            p == self.index(i as int, j as int),
    {
        let ghost len = usize::MAX as int;
        let a: i128 = i as i128;
        let b: i128 = j as i128;
        let rs: i128 = self.row_stride as i128;
        let cs: i128 = self.col_stride as i128;
        proof {
            lemma_product_fits(a as int, rs as int);
            lemma_product_fits(b as int, cs as int);
            assert(self.has(i as int, 0));
            assert(0 <= self.index(i as int, 0) < len);
            assert(0 <= self.index(i as int, j as int) < len);
            assert(0int * (self.col_stride as int) == 0);
        }
        let p: i128 = self.offset as i128 + a * rs + b * cs;
        p as usize
    }

    /// Reads entry `(i, j)`.
    pub fn get(&self, buf: &[u64], i: usize, j: usize) -> (x: u64)
        requires
            self.in_bounds(buf.len() as int),
            self.has(i as int, j as int),
        ensures
            x == self.at(buf@, i as int, j as int),
    {
        let p = self.position(i, j);
        buf[p]
    }

    /// Writes entry `(i, j)`.
    pub fn set(&self, buf: &mut [u64], i: usize, j: usize, x: u64)
        requires
            self.in_bounds(old(buf).len() as int),
            self.has(i as int, j as int),
        ensures
            final(buf)@ == old(buf)@.update(self.index(i as int, j as int), x),
    {
        let p = self.position(i, j);
        buf[p] = x;
    }

    /// The view that `col_major` returns.
    pub open spec fn col_major_spec(nrows: usize, ncols: usize) -> MatView {
        MatView { offset: 0, nrows, ncols, row_stride: 1, col_stride: nrows as isize }
    }

    /// A matrix stored column after column fills its buffer without gap or
    /// overlap.
    pub proof fn lemma_col_major(nrows: usize, ncols: usize)
        requires
            nrows <= isize::MAX,
        ensures
            MatView::col_major_spec(nrows, ncols).wf(nrows * ncols),
    {
        let v = MatView::col_major_spec(nrows, ncols);
        assert forall|i: int, j: int| v.has(i, j) implies 0 <= #[trigger] v.index(i, j) < nrows
            * ncols by {
            assert(v.index(i, j) == i + j * nrows);
            assert(0 <= j * nrows && i + j * nrows < nrows * ncols) by (nonlinear_arith)
                requires
                    0 <= i < nrows,
                    0 <= j < ncols,
            ;
        }
        assert forall|i: int, j: int, i2: int, j2: int|
            v.has(i, j) && v.has(i2, j2) && #[trigger] v.index(i, j) == #[trigger] v.index(
                i2,
                j2,
            ) implies i == i2 && j == j2 by {
            assert(v.index(i, j) == i + j * nrows);
            assert(v.index(i2, j2) == i2 + j2 * nrows);
            assert(j == j2) by (nonlinear_arith)
                requires
                    0 <= i < nrows,
                    0 <= i2 < nrows,
                    i + j * nrows == i2 + j2 * nrows,
            ;
        }
    }

    /// The view of an `nrows` by `ncols` matrix stored column after column
    /// from the start of the buffer, if its entries can be counted.
    pub fn col_major(nrows: usize, ncols: usize) -> (v: Option<MatView>)
        ensures
            v.is_some() <==> nrows <= isize::MAX && nrows * ncols <= usize::MAX,
            v matches Some(v) ==> v == (MatView {
                offset: 0,
                nrows,
                ncols,
                row_stride: 1,
                col_stride: nrows as isize,
            }) && v.wf(nrows * ncols),
    {
        if nrows > isize::MAX as usize {
            return None;
        }
        match nrows.checked_mul(ncols) {
            None => None,
            Some(_) => {
                let v = MatView { offset: 0, nrows, ncols, row_stride: 1, col_stride: nrows as isize };
                proof {
                    MatView::lemma_col_major(nrows, ncols);
                }
                Some(v)
            },
        }
    }

    /// The view of an `nrows` by `ncols` matrix stored row after row from
    /// the start of the buffer, if its entries can be counted.
    pub fn row_major(nrows: usize, ncols: usize) -> (v: Option<MatView>)
        ensures
            v.is_some() <==> ncols <= isize::MAX && nrows * ncols <= usize::MAX,
            v matches Some(v) ==> v == (MatView {
                offset: 0,
                nrows,
                ncols,
                row_stride: ncols as isize,
                col_stride: 1,
            }) && v.wf(nrows * ncols),
    {
        proof {
            assert(nrows * ncols == ncols * nrows) by (nonlinear_arith);
        }
        match MatView::col_major(ncols, nrows) {
            None => None,
            Some(t) => {
                proof {
                    t.lemma_transpose(ncols * nrows);
                }
                Some(t.transpose())
            },
        }
    }

    /// The lowest position that an entry of the view has, for a view with
    /// entries.
    pub open spec fn lowest(self) -> int {
        self.offset + lower(0, (self.nrows - 1) * self.row_stride) + lower(
            0,
            (self.ncols - 1) * self.col_stride,
        )
    }

    /// The highest position that an entry of the view has, for a view with
    /// entries.
    pub open spec fn highest(self) -> int {
        self.offset + upper(0, (self.nrows - 1) * self.row_stride) + upper(
            0,
            (self.ncols - 1) * self.col_stride,
        )
    }

    /// Whether the strides keep the entries apart: along a direction with
    /// more than one entry the stride is not zero, and where both have more
    /// than one, one stride is at least the extent of the other direction,
    /// so that whole columns, or whole rows, do not interleave.
    pub open spec fn separated(self) -> bool {
        &&& self.nrows <= 1 || self.row_stride != 0
        &&& self.ncols <= 1 || self.col_stride != 0
        &&& self.nrows <= 1 || self.ncols <= 1 || magnitude_of(self.col_stride as int)
            >= self.nrows * magnitude_of(self.row_stride as int) || magnitude_of(
            self.row_stride as int,
        ) >= self.ncols * magnitude_of(self.col_stride as int)
    }

    /// What `from_parts` accepts over a buffer of `len` elements: strides
    /// that can be negated, and either no entry at all or entries that stay
    /// inside the buffer and apart from one another.
    pub open spec fn regular(self, len: int) -> bool {
        &&& self.row_stride > isize::MIN
        &&& self.col_stride > isize::MIN
        &&& self.is_empty() || (0 <= self.lowest() && self.highest() < len && self.separated())
    }

    /// The view with the given offset, shape and strides over a buffer of
    /// `len` elements, if it is regular.
    pub fn from_parts(
        len: usize,
        offset: usize,
        nrows: usize,
        ncols: usize,
        row_stride: isize,
        col_stride: isize,
    ) -> (r: Option<MatView>)
        ensures
            r.is_some() <==> (MatView { offset, nrows, ncols, row_stride, col_stride }).regular(
                len as int,
            ),
            r matches Some(v) ==> v == (MatView { offset, nrows, ncols, row_stride, col_stride })
                && v.wf(len as int),
    {
        let v = MatView { offset, nrows, ncols, row_stride, col_stride };
        if row_stride == isize::MIN || col_stride == isize::MIN {
            return None;
        }
        if nrows == 0 || ncols == 0 {
            return Some(v);
        }
        let rs: i128 = row_stride as i128;
        let cs: i128 = col_stride as i128;
        let m: i128 = nrows as i128;
        let n: i128 = ncols as i128;
        let limit: i128 = len as i128;
        proof {
            lemma_product_fits(nrows - 1, row_stride as int);
            lemma_product_fits(ncols - 1, col_stride as int);
            lemma_product_fits(nrows as int, row_stride as int);
            lemma_product_fits(ncols as int, col_stride as int);
            lemma_product_fits(nrows as int, -(row_stride as int));
            lemma_product_fits(ncols as int, -(col_stride as int));
            lemma_product_sign(nrows as int, row_stride as int);
            lemma_product_sign(ncols as int, col_stride as int);
        }
        let a: i128 = (m - 1) * rs;
        let b: i128 = (n - 1) * cs;
        if a >= limit || b >= limit || a < -limit || b < -limit {
            return None;
        }
        let lo: i128 = offset as i128 + (if a < 0 {
            a
        } else {
            0
        }) + (if b < 0 {
            b
        } else {
            0
        });
        let hi: i128 = offset as i128 + (if a > 0 {
            a
        } else {
            0
        }) + (if b > 0 {
            b
        } else {
            0
        });
        if lo < 0 || hi >= limit {
            return None;
        }
        if (nrows > 1 && row_stride == 0) || (ncols > 1 && col_stride == 0) {
            return None;
        }
        let abs_rs: i128 = if rs < 0 {
            -rs
        } else {
            rs
        };
        let abs_cs: i128 = if cs < 0 {
            -cs
        } else {
            cs
        };
        if nrows > 1 && ncols > 1 && abs_cs < m * abs_rs && abs_rs < n * abs_cs {
            return None;
        }
        proof {
            lemma_regular_wf(v, len as int);
        }
        Some(v)
    }

    /// The same entries with rows and columns exchanged: entry `(i, j)` of
    /// the result is entry `(j, i)` of `self`.
    pub fn transpose(self) -> (t: MatView)
        ensures
            t == self.transposed(),
    {
        MatView {
            offset: self.offset,
            nrows: self.ncols,
            ncols: self.nrows,
            row_stride: self.col_stride,
            col_stride: self.row_stride,
        }
    }

    /// The view that `transpose` returns.
    pub open spec fn transposed(self) -> MatView {
        MatView {
            offset: self.offset,
            nrows: self.ncols,
            ncols: self.nrows,
            row_stride: self.col_stride,
            col_stride: self.row_stride,
        }
    }

    /// Transposing exchanges the two indices of every entry and keeps the
    /// view well formed.
    pub proof fn lemma_transpose(self, len: int)
        ensures
            forall|i: int, j: int| #[trigger] self.transposed().index(i, j) == self.index(j, i),
            forall|i: int, j: int| self.transposed().has(i, j) == self.has(j, i),
            self.transposed().transposed() == self,
            self.wf(len) ==> self.transposed().wf(len),
    {
        let t = self.transposed();
        assert forall|i: int, j: int| #[trigger] t.index(i, j) == self.index(j, i) by {}
        if self.wf(len) {
            assert forall|i: int, j: int| t.has(i, j) implies 0 <= #[trigger] t.index(i, j) < len by {
                assert(self.has(j, i));
                assert(t.index(i, j) == self.index(j, i));
            }
            assert forall|i: int, j: int, i2: int, j2: int|
                t.has(i, j) && t.has(i2, j2) && #[trigger] t.index(i, j) == #[trigger] t.index(
                    i2,
                    j2,
                ) implies i == i2 && j == j2 by {
                assert(self.has(j, i) && self.has(j2, i2));
                assert(self.index(j, i) == self.index(j2, i2));
            }
        }
    }

    /// The same entries with the rows in reverse order: entry `(i, j)` of
    /// the result is entry `(nrows - 1 - i, j)` of `self`.
    pub fn reverse_rows(self) -> (r: MatView)
        requires
            self.addressable(),
            self.row_stride > isize::MIN,
        ensures
            r.nrows == self.nrows,
            r.ncols == self.ncols,
            r.row_stride == -self.row_stride,
            r.col_stride == self.col_stride,
            forall|i: int, j: int|
                r.has(i, j) ==> #[trigger] r.index(i, j) == self.index(self.nrows - 1 - i, j),
            forall|len: int| #[trigger] self.wf(len) ==> r.wf(len),
    {
        if self.nrows == 0 || self.ncols == 0 {
            let r = MatView {
                offset: self.offset,
                nrows: self.nrows,
                ncols: self.ncols,
                row_stride: -self.row_stride,
                col_stride: self.col_stride,
            };
            return r;
        }
        let offset = self.position(self.nrows - 1, 0);
        let r = MatView {
            offset,
            nrows: self.nrows,
            ncols: self.ncols,
            row_stride: -self.row_stride,
            col_stride: self.col_stride,
        };
        proof {
            assert forall|i: int, j: int| r.has(i, j) implies #[trigger] r.index(i, j) == self.index(
                self.nrows - 1 - i,
                j,
            ) by {
                lemma_reversed_index(
                    self.offset as int,
                    self.nrows as int,
                    self.row_stride as int,
                    self.col_stride as int,
                    i,
                    j,
                );
            }
            assert forall|len: int| #[trigger] self.wf(len) implies r.wf(len) by {
                assert forall|i: int, j: int| r.has(i, j) implies 0 <= #[trigger] r.index(i, j)
                    < len by {
                    assert(self.has(self.nrows - 1 - i, j));
                }
                assert forall|i: int, j: int, i2: int, j2: int|
                    r.has(i, j) && r.has(i2, j2) && #[trigger] r.index(i, j) == #[trigger] r.index(
                        i2,
                        j2,
                    ) implies i == i2 && j == j2 by {
                    assert(self.has(self.nrows - 1 - i, j) && self.has(self.nrows - 1 - i2, j2));
                    assert(self.index(self.nrows - 1 - i, j) == self.index(
                        self.nrows - 1 - i2,
                        j2,
                    ));
                }
            }
        }
        r
    }

    /// The block of `nrows` by `ncols` entries that starts at `(r0, c0)`.
    pub fn submatrix(self, r0: usize, c0: usize, nrows: usize, ncols: usize) -> (b: MatView)
        requires
            self.addressable(),
            r0 + nrows <= self.nrows,
            c0 + ncols <= self.ncols,
        ensures
            b.nrows == nrows,
            b.ncols == ncols,
            b.is_block_of(self, r0 as int, c0 as int),
            forall|len: int| #[trigger] self.wf(len) ==> b.wf(len),
    {
        if nrows == 0 || ncols == 0 {
            let b = MatView {
                offset: 0,
                nrows,
                ncols,
                row_stride: self.row_stride,
                col_stride: self.col_stride,
            };
            proof {
                assert forall|len: int| #[trigger] self.wf(len) implies b.wf(len) by {
                    b.lemma_block_wf(self, r0 as int, c0 as int, len);
                }
            }
            return b;
        }
        let offset = self.position(r0, c0);
        let b = MatView {
            offset,
            nrows,
            ncols,
            row_stride: self.row_stride,
            col_stride: self.col_stride,
        };
        proof {
            assert forall|i: int, j: int| b.has(i, j) implies #[trigger] b.index(i, j) == self.index(
                r0 + i,
                c0 + j,
            ) by {
                lemma_shifted_index(
                    self.offset as int,
                    self.row_stride as int,
                    self.col_stride as int,
                    r0 as int,
                    c0 as int,
                    i,
                    j,
                );
            }
            assert forall|len: int| #[trigger] self.wf(len) implies b.wf(len) by {
                b.lemma_block_wf(self, r0 as int, c0 as int, len);
            }
        }
        b
    }

    /// A block of a well-formed view is well formed.
    pub proof fn lemma_block_wf(self, parent: MatView, r0: int, c0: int, len: int)
        requires
            parent.wf(len),
            self.is_block_of(parent, r0, c0),
        ensures
            self.wf(len),
    {
        assert forall|i: int, j: int| self.has(i, j) implies 0 <= #[trigger] self.index(i, j)
            < len by {
            assert(parent.has(r0 + i, c0 + j));
        }
        assert forall|i: int, j: int, i2: int, j2: int|
            self.has(i, j) && self.has(i2, j2) && #[trigger] self.index(i, j)
                == #[trigger] self.index(i2, j2) implies i == i2 && j == j2 by {
            assert(parent.has(r0 + i, c0 + j) && parent.has(r0 + i2, c0 + j2));
            assert(parent.index(r0 + i, c0 + j) == parent.index(r0 + i2, c0 + j2));
        }
    }
}

/// A product of an index and a stride fits in 128 bits.
pub proof fn lemma_product_fits(a: int, s: int)
    requires
        0 <= a <= u64::MAX,
        i64::MIN <= s <= i64::MAX,
    ensures
        -0x8000_0000_0000_0000_0000_0000_0000_0000 < a * s < 0x8000_0000_0000_0000_0000_0000_0000_0000,
{
    assert(-0x8000_0000_0000_0000_0000_0000_0000_0000 < a * s
        < 0x8000_0000_0000_0000_0000_0000_0000_0000) by (nonlinear_arith)
        requires
            0 <= a <= 0xffff_ffff_ffff_ffff,
            -0x8000_0000_0000_0000 <= s <= 0x7fff_ffff_ffff_ffff,
    ;
}

/// The index arithmetic of a view whose rows are reversed.
pub proof fn lemma_reversed_index(offset: int, nrows: int, rs: int, cs: int, i: int, j: int)
    ensures
        (offset + (nrows - 1) * rs + 0 * cs) + i * (-rs) + j * cs == offset + (nrows - 1 - i) * rs + j
            * cs,
{
    assert((offset + (nrows - 1) * rs + 0 * cs) + i * (-rs) + j * cs == offset + (nrows - 1 - i)
        * rs + j * cs) by (nonlinear_arith);
}

/// The index arithmetic of a block.
pub proof fn lemma_shifted_index(offset: int, rs: int, cs: int, r0: int, c0: int, i: int, j: int)
    ensures
        (offset + r0 * rs + c0 * cs) + i * rs + j * cs == offset + (r0 + i) * rs + (c0 + j) * cs,
{
    assert((offset + r0 * rs + c0 * cs) + i * rs + j * cs == offset + (r0 + i) * rs + (c0 + j)
        * cs) by (nonlinear_arith);
}

/// The smaller of two integers.
pub open spec fn lower(a: int, b: int) -> int {
    if a < b {
        a
    } else {
        b
    }
}

/// The larger of two integers.
pub open spec fn upper(a: int, b: int) -> int {
    if a > b {
        a
    } else {
        b
    }
}

/// The absolute value of an integer.
pub open spec fn magnitude_of(a: int) -> int {
    if a < 0 {
        -a
    } else {
        a
    }
}

/// The sign of a product with a count.
pub proof fn lemma_product_sign(a: int, s: int)
    requires
        0 <= a,
    ensures
        s >= 0 ==> a * s >= 0,
        s <= 0 ==> a * s <= 0,
        a * (-s) == -(a * s),
{
    assert((s >= 0 ==> a * s >= 0) && (s <= 0 ==> a * s <= 0) && a * (-s) == -(a * s)) by (nonlinear_arith)
        requires
            0 <= a,
    ;
}

/// A step of `i` strides lies between no step and the longest step.
pub proof fn lemma_step_between(i: int, last: int, s: int)
    requires
        0 <= i <= last,
    ensures
        lower(0, last * s) <= i * s <= upper(0, last * s),
{
    assert(lower(0, last * s) <= i * s <= upper(0, last * s)) by (nonlinear_arith)
        requires
            0 <= i <= last,
    ;
}

/// Steps in two directions that cancel are no steps at all, where one
/// stride is at least the extent of the other direction.
pub proof fn lemma_steps_apart(di: int, dj: int, m: int, rs: int, cs: int)
    requires
        -m < di < m,
        di * rs + dj * cs == 0,
        rs != 0,
        cs != 0,
        magnitude_of(cs) >= m * magnitude_of(rs),
    ensures
        di == 0 && dj == 0,
{
    if dj != 0 {
        assert(magnitude_of(dj * cs) >= magnitude_of(cs)) by (nonlinear_arith)
            requires
                dj != 0,
        ;
        assert(magnitude_of(di * rs) < m * magnitude_of(rs)) by (nonlinear_arith)
            requires
                -m < di < m,
                rs != 0,
        ;
        assert(false);
    }
    assert(dj * cs == 0) by (nonlinear_arith)
        requires
            dj == 0,
    ;
    assert(di == 0) by (nonlinear_arith)
        requires
            di * rs == 0,
            rs != 0,
    ;
}

/// A regular view is well formed.
pub proof fn lemma_regular_wf(v: MatView, len: int)
    requires
        v.regular(len),
    ensures
        v.wf(len),
{
    let rs = v.row_stride as int;
    let cs = v.col_stride as int;
    let m = v.nrows as int;
    let n = v.ncols as int;
    assert forall|i: int, j: int| v.has(i, j) implies 0 <= #[trigger] v.index(i, j) < len by {
        lemma_step_between(i, m - 1, rs);
        lemma_step_between(j, n - 1, cs);
    }
    assert forall|i: int, j: int, i2: int, j2: int|
        v.has(i, j) && v.has(i2, j2) && #[trigger] v.index(i, j) == #[trigger] v.index(
            i2,
            j2,
        ) implies i == i2 && j == j2 by {
        let di = i - i2;
        let dj = j - j2;
        assert(di * rs + dj * cs == 0) by (nonlinear_arith)
            requires
                i * rs + j * cs == i2 * rs + j2 * cs,
                di == i - i2,
                dj == j - j2,
        ;
        if m <= 1 {
            assert(di * rs == 0) by (nonlinear_arith)
                requires
                    di == 0,
            ;
            assert(dj == 0) by (nonlinear_arith)
                requires
                    dj * cs == 0,
                    n <= 1 || cs != 0,
                    -n < dj < n,
            ;
        } else if n <= 1 {
            assert(dj * cs == 0) by (nonlinear_arith)
                requires
                    dj == 0,
            ;
            assert(di == 0) by (nonlinear_arith)
                requires
                    di * rs == 0,
                    rs != 0,
            ;
        } else if magnitude_of(cs) >= m * magnitude_of(rs) {
            lemma_steps_apart(di, dj, m, rs, cs);
        } else {
            assert(dj * cs + di * rs == 0);
            lemma_steps_apart(dj, di, n, cs, rs);
        }
    }
}

} // verus!
