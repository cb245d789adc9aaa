use crate::grid::{in_square, mark_square, square_fits, GridOccupancy, PackError};
use crate::shuffle::{is_visit_order, seeded_rng, shuffled_indices};
use vstd::prelude::*;

verus! {

/// A square placed on the grid. Its top-left cell may lie outside the grid;
/// only its cells inside the grid are occupied by it.
#[derive(Debug, Clone, Copy, PartialEq, Eq, Structural)]
pub struct PlacedSquare {
    pub top_left_x: isize,
    pub top_left_y: isize,
    pub size: usize,
}

/// How far a square of side `s` reaches up and to the left of its center
/// cell: `ceil(s / 2 - 1)`, which for a positive side is `(s - 1) / 2`.
pub open spec fn offset_of(s: int) -> int {
    (s - 1) / 2
}

/// Whether flat index `i` of a grid of row stride `w` is covered by `sq`.
pub open spec fn covers(w: int, sq: PlacedSquare, i: int) -> bool {
    in_square(w, sq.top_left_x as int, sq.top_left_y as int, sq.size as int, i)
}

/// The square of side `s` centered on flat index `idx`.
pub open spec fn candidate(w: int, s: int, idx: int) -> PlacedSquare {
    PlacedSquare {
        top_left_x: (idx % w - offset_of(s)) as isize,
        top_left_y: (idx / w - offset_of(s)) as isize,
        size: s as usize,
    }
}

/// One candidate center `idx` of a size class: skipped where it is outside
/// the grid or occupied; otherwise the square of side `s` around it is
/// placed if it fits.
pub open spec fn place_step(
    cells: Seq<bool>,
    placed: Seq<PlacedSquare>,
    w: int,
    s: int,
    idx: int,
) -> (Seq<bool>, Seq<PlacedSquare>) {
    let tlx = idx % w - offset_of(s);
    let tly = idx / w - offset_of(s);
    if 0 <= idx < cells.len() && !cells[idx] && square_fits(cells, w, tlx, tly, s) {
        (mark_square(cells, w, tlx, tly, s), placed.push(candidate(w, s, idx)))
    } else {
        (cells, placed)
    }
}

/// One size class: the candidate centers of `order`, in order.
pub open spec fn run_class(
    cells: Seq<bool>,
    placed: Seq<PlacedSquare>,
    w: int,
    s: int,
    order: Seq<usize>,
) -> (Seq<bool>, Seq<PlacedSquare>)
    decreases order.len(),
{
    if order.len() == 0 {
        (cells, placed)
    } else {
        let r = run_class(cells, placed, w, s, order.drop_last());
        place_step(r.0, r.1, w, s, order.last() as int)
    }
}

/// Every size class in turn; class `k` has size `sizes[k]` and visits the
/// centers `orders[k]`.
pub open spec fn run_all(
    cells: Seq<bool>,
    placed: Seq<PlacedSquare>,
    w: int,
    sizes: Seq<usize>,
    orders: Seq<Seq<usize>>,
) -> (Seq<bool>, Seq<PlacedSquare>)
    decreases sizes.len(),
{
    if sizes.len() == 0 {
        (cells, placed)
    } else {
        let r = run_all(cells, placed, w, sizes.drop_last(), orders);
        run_class(r.0, r.1, w, sizes.last() as int, orders[sizes.len() - 1])
    }
}

/// The orders as sequences of indices.
pub open spec fn orders_view(orders: Seq<Vec<usize>>) -> Seq<Seq<usize>> {
    orders.map_values(|o: Vec<usize>| o@)
}

/// Whether every size is positive.
pub open spec fn sizes_positive(sizes: Seq<usize>) -> bool {
    forall|k: int| 0 <= k < sizes.len() ==> sizes[k] > 0
}

/// What packing an empty `width × height` grid gives.
pub open spec fn pack_result(
    width: int,
    height: int,
    sizes: Seq<usize>,
    orders: Seq<Seq<usize>>,
) -> Result<Seq<PlacedSquare>, PackError> {
    if width <= 0 || height <= 0 {
        Err(PackError::InvalidDimensions)
    } else if !sizes_positive(sizes) {
        Err(PackError::InvalidSize)
    } else {
        Ok(run_all(Seq::new((width * height) as nat, |i: int| false), seq![], width, sizes, orders).1)
    }
}

/// The offset of a square of side `size` from its center cell to its
/// top-left cell: the ceiling of `size / 2 - 1`.
pub fn make_offset(size: usize) -> (r: usize)
    requires
        size >= 1,
    ensures
        r == offset_of(size as int),
        2 * r >= size - 2,
        2 * r < size,
{
    (size - 1) / 2
}

/// Tries the square of side `size` centered on flat index `idx`, and places
/// it where the center is vacant and the square fits.
pub fn try_place(grid: &mut GridOccupancy, idx: usize, size: usize, placed: &mut Vec<PlacedSquare>)
    requires
        old(grid).wf(),
        size >= 1,
    ensures
        final(grid).wf(),
        final(grid).spec_width() == old(grid).spec_width(),
        final(grid).spec_height() == old(grid).spec_height(),
        (final(grid).spec_cells(), final(placed)@) == place_step(
            old(grid).spec_cells(),
            old(placed)@,
            old(grid).spec_width() as int,
            size as int,
            idx as int,
        ),
{
    let w: usize = grid.width();
    let h: usize = grid.height();
    if idx >= w * h || grid.occupied_at(idx) {
        return;
    }
    proof {
        assert(w <= w * h) by (nonlinear_arith)
            requires
                h >= 1,
        ;
        crate::grid::lemma_decode(w as int, h as int, idx as int);
    }
    let cx: usize = idx % w;
    let cy: usize = idx / w;
    let offset: usize = make_offset(size);
    let tlx: isize = cx as isize - offset as isize;
    let tly: isize = cy as isize - offset as isize;
    if grid.square_fits(tlx, tly, size) {
        grid.mark_square(tlx, tly, size);
        placed.push(PlacedSquare { top_left_x: tlx, top_left_y: tly, size });
    }
}

/// One size class: tries every center of `order`, in order.
pub fn place_class(grid: &mut GridOccupancy, size: usize, order: &Vec<usize>, placed: &mut Vec<PlacedSquare>)
    requires
        old(grid).wf(),
        size >= 1,
    ensures
        final(grid).wf(),
        final(grid).spec_width() == old(grid).spec_width(),
        final(grid).spec_height() == old(grid).spec_height(),
        (final(grid).spec_cells(), final(placed)@) == run_class(
            old(grid).spec_cells(),
            old(placed)@,
            old(grid).spec_width() as int,
            size as int,
            order@,
        ),
{
    let ghost w = grid.spec_width() as int;
    let ghost h = grid.spec_height();
    let ghost cells0 = grid.spec_cells();
    let ghost placed0 = placed@;
    let mut j: usize = 0;
    while j < order.len()
        invariant
            grid.wf(),
            grid.spec_width() == w,
            grid.spec_height() == h,
            size >= 1,
            j <= order@.len(),
            (grid.spec_cells(), placed@) == run_class(cells0, placed0, w, size as int, order@.subrange(0, j as int)),
        decreases order.len() - j,
    {
        assert(order@.subrange(0, j + 1).drop_last() =~= order@.subrange(0, j as int));
        try_place(grid, order[j], size, placed);
        j = j + 1;
    }
    assert(order@.subrange(0, j as int) =~= order@);
}

/// Places the squares of every size class in turn on `grid`: class `k` has
/// side `sizes[k]` and tries the centers of `orders[k]` in that order.
pub fn fill_grid(grid: &mut GridOccupancy, sizes: &Vec<usize>, orders: &Vec<Vec<usize>>) -> (r: Vec<PlacedSquare>)
    requires
        old(grid).wf(),
        sizes_positive(sizes@),
        orders@.len() == sizes@.len(),
    ensures
        final(grid).wf(),
        final(grid).spec_width() == old(grid).spec_width(),
        final(grid).spec_height() == old(grid).spec_height(),
        (final(grid).spec_cells(), r@) == run_all(
            old(grid).spec_cells(),
            seq![],
            old(grid).spec_width() as int,
            sizes@,
            orders_view(orders@),
        ),
{
    let ghost w = grid.spec_width() as int;
    let ghost h = grid.spec_height();
    let ghost cells0 = grid.spec_cells();
    let mut placed: Vec<PlacedSquare> = Vec::new();
    let mut k: usize = 0;
    while k < sizes.len()
        invariant
            grid.wf(),
            grid.spec_width() == w,
            grid.spec_height() == h,
            sizes_positive(sizes@),
            orders@.len() == sizes@.len(),
            k <= sizes@.len(),
            (grid.spec_cells(), placed@) == run_all(cells0, seq![], w, sizes@.subrange(0, k as int), orders_view(orders@)),
        decreases sizes.len() - k,
    {
        assert(sizes@.subrange(0, k + 1).drop_last() =~= sizes@.subrange(0, k as int));
        place_class(grid, sizes[k], &orders[k], &mut placed);
        k = k + 1;
    }
    assert(sizes@.subrange(0, k as int) =~= sizes@);
    placed
}

/// Packs an empty `width × height` grid with the given sizes, class `k`
/// trying the centers of `orders[k]` in that order.
pub fn pack_with_orders(width: usize, height: usize, sizes: &Vec<usize>, orders: &Vec<Vec<usize>>) -> (r: Result<Vec<PlacedSquare>, PackError>)
    requires
        width * height <= isize::MAX,
        orders@.len() == sizes@.len(),
    ensures
        r matches Ok(v) ==> pack_result(width as int, height as int, sizes@, orders_view(orders@)) == Ok::<Seq<PlacedSquare>, PackError>(v@),
        r matches Err(e) ==> pack_result(width as int, height as int, sizes@, orders_view(orders@)) == Err::<Seq<PlacedSquare>, PackError>(e),
{
    let mut grid = match GridOccupancy::new(width, height) {
        Ok(g) => g,
        Err(e) => return Err(e),
    };
    let mut k: usize = 0;
    while k < sizes.len()
        invariant
            k <= sizes@.len(),
            width > 0,
            height > 0,
            grid.wf(),
            grid.spec_width() == width,
            grid.spec_height() == height,
            grid.spec_cells() == Seq::new((width * height) as nat, |i: int| false),
            forall|j: int| 0 <= j < k ==> sizes@[j] > 0,
        decreases sizes.len() - k,
    {
        if sizes[k] == 0 {
            assert(sizes@[k as int] == 0);
            assert(!sizes_positive(sizes@));
            return Err(PackError::InvalidSize);
        }
        k = k + 1;
    }
    let placed = fill_grid(&mut grid, sizes, orders);
    Ok(placed)
}


/// Packs an empty `width × height` grid with the given sizes, each class
/// visiting the cells in a fresh order shuffled by a generator seeded with
/// `seed`.
pub fn pack(width: usize, height: usize, sizes: &Vec<usize>, seed: u64) -> (r: Result<Vec<PlacedSquare>, PackError>)
    requires
        width * height <= isize::MAX,
    ensures
        (width == 0 || height == 0) ==> r == Err::<Vec<PlacedSquare>, PackError>(PackError::InvalidDimensions),
        width > 0 && height > 0 && !sizes_positive(sizes@) ==> r == Err::<Vec<PlacedSquare>, PackError>(PackError::InvalidSize),
        width > 0 && height > 0 && sizes_positive(sizes@) ==> r is Ok,
        r matches Ok(v) ==> exists|orders: Seq<Seq<usize>>| {
            &&& orders.len() == sizes@.len()
            &&& forall|k: int| 0 <= k < orders.len() ==> is_visit_order(#[trigger] orders[k], (width * height) as nat)
            &&& pack_result(width as int, height as int, sizes@, orders) == Ok::<Seq<PlacedSquare>, PackError>(v@)
        },
{
    let mut rng = seeded_rng(seed);
    let n: usize = width * height;
    let mut orders: Vec<Vec<usize>> = Vec::new();
    let mut k: usize = 0;
    while k < sizes.len()
        invariant
            k <= sizes@.len(),
            orders@.len() == k,
            n == width * height,
            forall|j: int| 0 <= j < k ==> is_visit_order(#[trigger] orders@[j]@, n as nat),
        decreases sizes.len() - k,
    {
        let o = shuffled_indices(n, &mut rng);
        orders.push(o);
        k = k + 1;
    }
    let r = pack_with_orders(width, height, sizes, &orders);
    proof {
        let ov = orders_view(orders@);
        assert forall|j: int| 0 <= j < ov.len() implies is_visit_order(#[trigger] ov[j], (width * height) as nat) by {
            assert(ov[j] == orders@[j]@);
        }
    }
    r
}

} // verus!
