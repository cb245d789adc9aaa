use vstd::arithmetic::div_mod::lemma_fundamental_div_mod_converse;
use vstd::prelude::*;

verus! {

/// The ways in which packing a grid can fail.
#[derive(Debug, Clone, Copy, PartialEq, Eq, Structural)]
pub enum PackError {
    /// The grid's width or height is zero.
    InvalidDimensions,
    /// A size of the size sequence is zero.
    InvalidSize,
    /// A cell coordinate lies outside the grid.
    OutOfBounds,
}

/// `v` clamped into `[0, n]`.
pub open spec fn clamp(v: int, n: int) -> int {
    if v < 0 {
        0
    } else if v > n {
        n
    } else {
        v
    }
}

/// Whether flat index `i` of a grid of row stride `w` lies in the `s × s`
/// square whose top-left cell is `(tlx, tly)`.
pub open spec fn in_square(w: int, tlx: int, tly: int, s: int, i: int) -> bool {
    tlx <= i % w < tlx + s && tly <= i / w < tly + s
}

/// No in-bounds cell of the square is occupied.
pub open spec fn square_fits(cells: Seq<bool>, w: int, tlx: int, tly: int, s: int) -> bool {
    forall|i: int| 0 <= i < cells.len() && in_square(w, tlx, tly, s, i) ==> !cells[i]
}

/// `cells` with every in-bounds cell of the square occupied.
pub open spec fn mark_square(cells: Seq<bool>, w: int, tlx: int, tly: int, s: int) -> Seq<bool> {
    Seq::new(cells.len(), |i: int| cells[i] || in_square(w, tlx, tly, s, i))
}

/// Flat index `y * w + x` decodes back to `(x, y)` and lies in the grid.
pub proof fn lemma_encode(w: int, h: int, x: int, y: int)
    requires
        0 <= x < w,
        0 <= y < h,
    ensures
        0 <= y * w + x < w * h,
        (y * w + x) % w == x,
        (y * w + x) / w == y,
{
    assert(0 <= y * w + x < w * h) by (nonlinear_arith)
        requires
            0 <= x < w,
            0 <= y < h,
    ;
    lemma_fundamental_div_mod_converse(y * w + x, w, y, x);
}

/// A flat index of the grid decodes to a cell of the grid.
pub proof fn lemma_decode(w: int, h: int, i: int)
    requires
        0 < w,
        0 <= i < w * h,
    ensures
        i == (i / w) * w + i % w,
        0 <= i % w < w,
        0 <= i / w < h,
{
    let q = i / w;
    let r = i % w;
    assert(i == q * w + r && 0 <= r < w && 0 <= q) by (nonlinear_arith)
        requires
            0 < w,
            0 <= i,
            q == i / w,
            r == i % w,
    ;
    assert(q < h) by (nonlinear_arith)
        requires
            i == q * w + r,
            0 <= r < w,
            i < w * h,
    ;
}

/// A fixed-size field of occupied cells over a `width × height` grid, stored
/// row by row with `width` as the stride.
pub struct GridOccupancy {
    width: usize,
    height: usize,
    cells: Vec<bool>,
}

impl GridOccupancy {
    pub closed spec fn spec_width(&self) -> nat {
        self.width as nat
    }

    pub closed spec fn spec_height(&self) -> nat {
        self.height as nat
    }

    /// The cells, row by row: cell `(x, y)` is at `y * width + x`.
    pub closed spec fn spec_cells(&self) -> Seq<bool> {
        self.cells@
    }

    pub open spec fn wf(&self) -> bool {
        &&& self.spec_width() > 0
        &&& self.spec_height() > 0
        &&& self.spec_width() * self.spec_height() <= isize::MAX
        &&& self.spec_cells().len() == self.spec_width() * self.spec_height()
    }

    /// An empty grid, or `InvalidDimensions` where a side is zero.
    pub fn new(width: usize, height: usize) -> (r: Result<GridOccupancy, PackError>)
        requires
            width * height <= isize::MAX,
        ensures
            (width == 0 || height == 0) <==> r is Err,
            r matches Err(e) ==> e == PackError::InvalidDimensions,
            r matches Ok(g) ==> {
                &&& g.wf()
                &&& g.spec_width() == width
                &&& g.spec_height() == height
                &&& g.spec_cells() == Seq::new((width * height) as nat, |i: int| false)
            },
    {
        if width == 0 || height == 0 {
            return Err(PackError::InvalidDimensions);
        }
        let n: usize = width * height;
        let mut cells: Vec<bool> = Vec::with_capacity(n);
        let mut i: usize = 0;
        while i < n
            invariant
                i <= n,
                cells@ == Seq::new(i as nat, |j: int| false),
            decreases n - i,
        {
            cells.push(false);
            i = i + 1;
            assert(cells@ =~= Seq::new(i as nat, |j: int| false));
        }
        Ok(GridOccupancy { width, height, cells })
    }

    pub fn width(&self) -> (r: usize)
        ensures
            r == self.spec_width(),
    {
        self.width
    }

    pub fn height(&self) -> (r: usize)
        ensures
            r == self.spec_height(),
    {
        self.height
    }

    /// Whether the cell at flat index `i` is occupied.
    pub fn occupied_at(&self, i: usize) -> (r: bool)
        requires
            self.wf(),
            i < self.spec_cells().len(),
        ensures
            r == self.spec_cells()[i as int],
    {
        self.cells[i]
    }

    /// Whether cell `(x, y)` is occupied, or `OutOfBounds`.
    pub fn is_occupied(&self, x: usize, y: usize) -> (r: Result<bool, PackError>)
        requires
            self.wf(),
        ensures
            x < self.spec_width() && y < self.spec_height() ==> r == Ok::<bool, PackError>(
                self.spec_cells()[y * self.spec_width() + x],
            ),
            !(x < self.spec_width() && y < self.spec_height()) ==> r == Err::<bool, PackError>(
                PackError::OutOfBounds,
            ),
    {
        if x >= self.width || y >= self.height {
            return Err(PackError::OutOfBounds);
        }
        proof {
            lemma_encode(self.width as int, self.height as int, x as int, y as int);
        }
        Ok(self.cells[y * self.width + x])
    }

    /// Occupies cell `(x, y)`; occupying it again changes nothing.
    pub fn mark_occupied(&mut self, x: usize, y: usize) -> (r: Result<(), PackError>)
        requires
            old(self).wf(),
        ensures
            final(self).wf(),
            final(self).spec_width() == old(self).spec_width(),
            final(self).spec_height() == old(self).spec_height(),
            x < old(self).spec_width() && y < old(self).spec_height() ==> {
                &&& r == Ok::<(), PackError>(())
                &&& final(self).spec_cells() == old(self).spec_cells().update(
                    y * old(self).spec_width() + x,
                    true,
                )
            },
            !(x < old(self).spec_width() && y < old(self).spec_height()) ==> {
                &&& r == Err::<(), PackError>(PackError::OutOfBounds)
                &&& final(self).spec_cells() == old(self).spec_cells()
            },
    {
        if x >= self.width || y >= self.height {
            return Err(PackError::OutOfBounds);
        }
        proof {
            lemma_encode(self.width as int, self.height as int, x as int, y as int);
        }
        let i: usize = y * self.width + x;
        self.cells.set(i, true);
        Ok(())
    }

    /// Row `row` drawn as text: `'x'` for an occupied cell, `'-'` for a
    /// vacant one.
    pub fn render_row(&self, row: usize) -> (r: Vec<char>)
        requires
            self.wf(),
            row < self.spec_height(),
        ensures
            r@ == Seq::new(
                self.spec_width(),
                |x: int| if self.spec_cells()[row * self.spec_width() + x] { 'x' } else { '-' },
            ),
    {
        let mut r: Vec<char> = Vec::with_capacity(self.width);
        let mut x: usize = 0;
        while x < self.width
            invariant
                self.wf(),
                row < self.spec_height(),
                x <= self.width,
                r@ == Seq::new(
                    x as nat,
                    |c: int| if self.cells@[row * self.width + c] { 'x' } else { '-' },
                ),
            decreases self.width - x,
        {
            proof {
                lemma_encode(self.width as int, self.height as int, x as int, row as int);
            }
            if self.cells[row * self.width + x] {
                r.push('x');
            } else {
                r.push('-');
            }
            x = x + 1;
            assert(r@ =~= Seq::new(
                x as nat,
                |c: int| if self.cells@[row * self.width + c] { 'x' } else { '-' },
            ));
        }
        r
    }

    /// The in-bounds columns (or rows) `[lo, hi)` of a square side that starts
    /// at `t` and spans `s` cells, on an axis of `n` cells.
    fn clip(t: isize, s: usize, n: usize) -> (r: (usize, usize))
        requires
            t > isize::MIN,
        ensures
            r.0 == clamp(t as int, n as int),
            r.1 == clamp(t + s, n as int),
    {
        if t >= 0 {
            let lo: usize = t as usize;
            if lo >= n {
                (n, n)
            } else if s >= n - lo {
                (lo, n)
            } else {
                (lo, lo + s)
            }
        } else {
            let m: usize = (-t) as usize;
            if s <= m {
                (0, 0)
            } else if s - m >= n {
                (0, n)
            } else {
                (0, s - m)
            }
        }
    }

    /// Fit test: whether no in-bounds cell of the `s × s` square with top-left
    /// cell `(tlx, tly)` is occupied. Cells outside the grid never block.
    pub fn square_fits(&self, tlx: isize, tly: isize, s: usize) -> (r: bool)
        requires
            self.wf(),
            tlx > isize::MIN,
            tly > isize::MIN,
        ensures
            r == square_fits(self.spec_cells(), self.spec_width() as int, tlx as int, tly as int, s as int),
    {
        let ghost w = self.width as int;
        let ghost h = self.height as int;
        let ghost cells = self.cells@;
        let (xlo, xhi) = GridOccupancy::clip(tlx, s, self.width);
        let (ylo, yhi) = GridOccupancy::clip(tly, s, self.height);
        let mut y: usize = ylo;
        while y < yhi
            invariant
                self.wf(),
                w == self.width,
                h == self.height,
                cells == self.cells@,
                xlo == clamp(tlx as int, w),
                xhi == clamp(tlx + s, w),
                ylo == clamp(tly as int, h),
                yhi == clamp(tly + s, h),
                ylo <= y <= yhi,
                forall|i: int|
                    0 <= i < cells.len() && in_square(w, tlx as int, tly as int, s as int, i) && i / w < y
                        ==> !#[trigger] cells[i],
            decreases yhi - y,
        {
            let mut x: usize = xlo;
            while x < xhi
                invariant
                    self.wf(),
                    w == self.width,
                    h == self.height,
                    cells == self.cells@,
                    xlo == clamp(tlx as int, w),
                    xhi == clamp(tlx + s, w),
                    ylo == clamp(tly as int, h),
                    yhi == clamp(tly + s, h),
                    ylo <= y < yhi,
                    xlo <= x <= xhi,
                    forall|i: int|
                        0 <= i < cells.len() && in_square(w, tlx as int, tly as int, s as int, i) && (i / w < y || (i / w == y && i % w < x))
                            ==> !#[trigger] cells[i],
                decreases xhi - x,
            {
                proof {
                    lemma_encode(w, h, x as int, y as int);
                }
                let i: usize = y * self.width + x;
                if self.cells[i] {
                    assert(in_square(w, tlx as int, tly as int, s as int, i as int));
                    return false;
                }
                assert forall|j: int|
                    0 <= j < cells.len() && in_square(w, tlx as int, tly as int, s as int, j) && (j / w < y || (j / w == y && j % w < x + 1))
                        implies !#[trigger] cells[j] by {
                    lemma_decode(w, h, j);
                    if j / w == y && j % w == x {
                        assert(j == i);
                    }
                }
                x = x + 1;
            }
            assert forall|j: int|
                0 <= j < cells.len() && in_square(w, tlx as int, tly as int, s as int, j) && j / w < y + 1
                    implies !#[trigger] cells[j] by {
                lemma_decode(w, h, j);
            }
            y = y + 1;
        }
        assert forall|j: int|
            0 <= j < cells.len() && in_square(w, tlx as int, tly as int, s as int, j) implies !#[trigger] cells[j] by {
            lemma_decode(w, h, j);
        }
        true
    }

    /// Commit: occupies every in-bounds cell of the `s × s` square with
    /// top-left cell `(tlx, tly)`. Cells outside the grid are left alone.
    pub fn mark_square(&mut self, tlx: isize, tly: isize, s: usize)
        requires
            old(self).wf(),
            tlx > isize::MIN,
            tly > isize::MIN,
        ensures
            final(self).wf(),
            final(self).spec_width() == old(self).spec_width(),
            final(self).spec_height() == old(self).spec_height(),
            final(self).spec_cells() == mark_square(
                old(self).spec_cells(),
                old(self).spec_width() as int,
                tlx as int,
                tly as int,
                s as int,
            ),
    {
        let ghost w = self.width as int;
        let ghost h = self.height as int;
        let ghost cells0 = self.cells@;
        let (xlo, xhi) = GridOccupancy::clip(tlx, s, self.width);
        let (ylo, yhi) = GridOccupancy::clip(tly, s, self.height);
        let mut y: usize = ylo;
        while y < yhi
            invariant
                self.wf(),
                w == self.width,
                h == self.height,
                cells0.len() == w * h,
                xlo == clamp(tlx as int, w),
                xhi == clamp(tlx + s, w),
                ylo == clamp(tly as int, h),
                yhi == clamp(tly + s, h),
                ylo <= y <= yhi,
                self.cells@ == Seq::new(cells0.len(), |i: int| cells0[i] || (in_square(w, tlx as int, tly as int, s as int, i) && i / w < y)),
            decreases yhi - y,
        {
            let mut x: usize = xlo;
            while x < xhi
                invariant
                    self.wf(),
                    w == self.width,
                    h == self.height,
                    cells0.len() == w * h,
                    xlo == clamp(tlx as int, w),
                    xhi == clamp(tlx + s, w),
                    ylo == clamp(tly as int, h),
                    yhi == clamp(tly + s, h),
                    ylo <= y < yhi,
                    xlo <= x <= xhi,
                    self.cells@ == Seq::new(cells0.len(), |i: int| cells0[i] || (in_square(w, tlx as int, tly as int, s as int, i) && (i / w < y || (i / w == y && i % w < x)))),
                decreases xhi - x,
            {
                proof {
                    lemma_encode(w, h, x as int, y as int);
                }
                let i: usize = y * self.width + x;
                self.cells.set(i, true);
                assert forall|j: int| 0 <= j < cells0.len() implies
                    #[trigger] self.cells@[j] == (cells0[j] || (in_square(w, tlx as int, tly as int, s as int, j) && (j / w < y || (j / w == y && j % w < x + 1)))) by {
                    lemma_decode(w, h, j);
                    if j / w == y && j % w == x {
                        assert(j == i);
                    }
                }
                assert(self.cells@ =~= Seq::new(cells0.len(), |j: int| cells0[j] || (in_square(w, tlx as int, tly as int, s as int, j) && (j / w < y || (j / w == y && j % w < x + 1)))));
                x = x + 1;
            }
            assert forall|j: int| 0 <= j < cells0.len() implies
                #[trigger] self.cells@[j] == (cells0[j] || (in_square(w, tlx as int, tly as int, s as int, j) && j / w < y + 1)) by {
                lemma_decode(w, h, j);
            }
            assert(self.cells@ =~= Seq::new(cells0.len(), |j: int| cells0[j] || (in_square(w, tlx as int, tly as int, s as int, j) && j / w < y + 1)));
            y = y + 1;
        }
        assert forall|j: int| 0 <= j < cells0.len() implies
            #[trigger] self.cells@[j] == mark_square(cells0, w, tlx as int, tly as int, s as int)[j] by {
            lemma_decode(w, h, j);
        }
        assert(self.cells@ =~= mark_square(cells0, w, tlx as int, tly as int, s as int));
    }
}

} // verus!
