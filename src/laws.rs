use crate::grid::{in_square, lemma_decode, lemma_encode, mark_square, square_fits};
use crate::packer::{
    candidate, covers, offset_of, pack_result, place_step, run_all, run_class, sizes_positive,
    PlacedSquare,
};
use crate::shuffle::{index_seq, is_visit_order};
use vstd::prelude::*;

verus! {

/// No cell of the `n` cells of the grid is covered by two distinct squares.
pub open spec fn footprints_disjoint(placed: Seq<PlacedSquare>, w: int, n: int) -> bool {
    forall|a: int, b: int, i: int|
        #![trigger covers(w, placed[a], i), covers(w, placed[b], i)]
        0 <= a < placed.len() && 0 <= b < placed.len() && a != b && 0 <= i < n && covers(w, placed[a], i)
            ==> !covers(w, placed[b], i)
}

/// Cell `i` is covered by exactly one of the squares.
pub open spec fn covered_once(placed: Seq<PlacedSquare>, w: int, i: int) -> bool {
    &&& exists|a: int| 0 <= a < placed.len() && #[trigger] covers(w, placed[a], i)
    &&& forall|a: int, b: int|
        0 <= a < placed.len() && 0 <= b < placed.len() && #[trigger] covers(w, placed[a], i)
            && #[trigger] covers(w, placed[b], i) ==> a == b
}

/// A cell is occupied exactly when some placed square covers it, and no
/// two placed squares share a cell.
pub open spec fn consistent(cells: Seq<bool>, placed: Seq<PlacedSquare>, w: int) -> bool {
    &&& forall|i: int|
        0 <= i < cells.len() ==> (#[trigger] cells[i] <==> exists|a: int|
            0 <= a < placed.len() && #[trigger] covers(w, placed[a], i))
    &&& footprints_disjoint(placed, w, cells.len() as int)
}

/// The shape of a grid of row stride `w` whose cells fit in memory.
pub open spec fn grid_shape(cells: Seq<bool>, w: int) -> bool {
    &&& 0 < w
    &&& (cells.len() as int) % w == 0
    &&& cells.len() <= isize::MAX
}

proof fn lemma_shape(cells: Seq<bool>, w: int) -> (h: int)
    requires
        grid_shape(cells, w),
    ensures
        cells.len() == w * h,
        0 <= h,
        cells.len() > 0 ==> w <= isize::MAX && h <= isize::MAX,
{
    let n = cells.len() as int;
    let h = n / w;
    assert(n == w * h && 0 <= h) by (nonlinear_arith)
        requires
            0 < w,
            0 <= n,
            n % w == 0,
            h == n / w,
    ;
    if n > 0 {
        assert(w <= isize::MAX && h <= isize::MAX) by (nonlinear_arith)
            requires
                0 < w,
                0 <= h,
                n == w * h,
                0 < n <= isize::MAX,
        ;
    }
    h
}

/// One candidate center keeps the grid consistent with the placed squares,
/// never frees a cell, and keeps the grid's size.
proof fn lemma_step(cells: Seq<bool>, placed: Seq<PlacedSquare>, w: int, s: int, idx: int)
    requires
        grid_shape(cells, w),
        0 <= s <= usize::MAX,
        consistent(cells, placed, w),
    ensures
        place_step(cells, placed, w, s, idx).0.len() == cells.len(),
        consistent(place_step(cells, placed, w, s, idx).0, place_step(cells, placed, w, s, idx).1, w),
        forall|i: int| 0 <= i < cells.len() && cells[i] ==> #[trigger] place_step(cells, placed, w, s, idx).0[i],
{
    let tlx = idx % w - offset_of(s);
    let tly = idx / w - offset_of(s);
    if 0 <= idx < cells.len() && !cells[idx] && square_fits(cells, w, tlx, tly, s) {
        let h = lemma_shape(cells, w);
        lemma_decode(w, h, idx);
        let c = candidate(w, s, idx);
        assert(c.top_left_x as int == tlx && c.top_left_y as int == tly && c.size as int == s);
        let cells2 = mark_square(cells, w, tlx, tly, s);
        let placed2 = placed.push(c);
        assert forall|i: int| 0 <= i < cells2.len() implies (#[trigger] cells2[i] <==> exists|a: int|
            0 <= a < placed2.len() && #[trigger] covers(w, placed2[a], i)) by {
            if cells[i] {
                let a = choose|a: int| 0 <= a < placed.len() && #[trigger] covers(w, placed[a], i);
                assert(placed2[a] == placed[a]);
            } else if in_square(w, tlx, tly, s, i) {
                assert(covers(w, placed2[placed.len() as int], i));
            } else {
                if exists|a: int| 0 <= a < placed2.len() && #[trigger] covers(w, placed2[a], i) {
                    let a = choose|a: int| 0 <= a < placed2.len() && #[trigger] covers(w, placed2[a], i);
                    if a < placed.len() {
                        assert(placed2[a] == placed[a]);
                    }
                }
            }
        }
        assert forall|a: int, b: int, i: int|
            0 <= a < placed2.len() && 0 <= b < placed2.len() && a != b && 0 <= i < cells2.len()
                && #[trigger] covers(w, placed2[a], i) implies !#[trigger] covers(w, placed2[b], i) by {
            if a < placed.len() && b < placed.len() {
                assert(placed2[a] == placed[a] && placed2[b] == placed[b]);
            } else if a < placed.len() {
                assert(placed2[a] == placed[a]);
                assert(cells[i]);
            } else {
                assert(placed2[b] == placed[b]);
                if covers(w, placed2[b], i) {
                    assert(cells[i]);
                }
            }
        }
    }
}

/// A size class keeps the grid consistent, never frees a cell, and keeps
/// the grid's size.
proof fn lemma_class(cells: Seq<bool>, placed: Seq<PlacedSquare>, w: int, s: int, order: Seq<usize>)
    requires
        grid_shape(cells, w),
        0 <= s <= usize::MAX,
        consistent(cells, placed, w),
    ensures
        run_class(cells, placed, w, s, order).0.len() == cells.len(),
        consistent(run_class(cells, placed, w, s, order).0, run_class(cells, placed, w, s, order).1, w),
        forall|i: int| 0 <= i < cells.len() && cells[i] ==> #[trigger] run_class(cells, placed, w, s, order).0[i],
    decreases order.len(),
{
    if order.len() > 0 {
        lemma_class(cells, placed, w, s, order.drop_last());
        let r = run_class(cells, placed, w, s, order.drop_last());
        lemma_step(r.0, r.1, w, s, order.last() as int);
        assert forall|i: int| 0 <= i < cells.len() && cells[i] implies #[trigger] run_class(cells, placed, w, s, order).0[i] by {
            assert(r.0[i]);
        }
    }
}

/// After a class of side 1, every cell that its order visits is occupied.
proof fn lemma_unit_class(cells: Seq<bool>, placed: Seq<PlacedSquare>, w: int, order: Seq<usize>)
    requires
        grid_shape(cells, w),
        consistent(cells, placed, w),
    ensures
        forall|j: int| 0 <= j < order.len() && order[j] < cells.len() ==> #[trigger] run_class(cells, placed, w, 1, order).0[order[j] as int],
    decreases order.len(),
{
    if order.len() > 0 {
        let prefix = order.drop_last();
        lemma_unit_class(cells, placed, w, prefix);
        lemma_class(cells, placed, w, 1, prefix);
        let r = run_class(cells, placed, w, 1, prefix);
        let idx = order.last() as int;
        lemma_step(r.0, r.1, w, 1, idx);
        let r2 = place_step(r.0, r.1, w, 1, idx);
        if idx < cells.len() && !r.0[idx] {
            let h = lemma_shape(cells, w);
            assert forall|i: int| 0 <= i < r.0.len() && in_square(w, idx % w, idx / w, 1, i) implies !r.0[i] by {
                lemma_decode(w, h, i);
                lemma_decode(w, h, idx);
                assert(i == idx);
            }
            assert(in_square(w, idx % w, idx / w, 1, idx));
        }
        assert forall|j: int| 0 <= j < order.len() && order[j] < cells.len() implies #[trigger] run_class(cells, placed, w, 1, order).0[order[j] as int] by {
            if j < prefix.len() {
                assert(prefix[j] == order[j]);
                assert(r.0[order[j] as int]);
            }
        }
    }
}

/// Every class in turn keeps the grid consistent, never frees a cell, and
/// keeps the grid's size.
proof fn lemma_all(cells: Seq<bool>, placed: Seq<PlacedSquare>, w: int, sizes: Seq<usize>, orders: Seq<Seq<usize>>)
    requires
        grid_shape(cells, w),
        consistent(cells, placed, w),
        orders.len() >= sizes.len(),
    ensures
        run_all(cells, placed, w, sizes, orders).0.len() == cells.len(),
        consistent(run_all(cells, placed, w, sizes, orders).0, run_all(cells, placed, w, sizes, orders).1, w),
        forall|i: int| 0 <= i < cells.len() && cells[i] ==> #[trigger] run_all(cells, placed, w, sizes, orders).0[i],
    decreases sizes.len(),
{
    if sizes.len() > 0 {
        lemma_all(cells, placed, w, sizes.drop_last(), orders);
        let r = run_all(cells, placed, w, sizes.drop_last(), orders);
        lemma_class(r.0, r.1, w, sizes.last() as int, orders[sizes.len() - 1]);
        assert forall|i: int| 0 <= i < cells.len() && cells[i] implies #[trigger] run_all(cells, placed, w, sizes, orders).0[i] by {
            assert(r.0[i]);
        }
    }
}

/// Where class `k` has side 1 and visits every cell, every cell is occupied
/// after the classes up to `m`.
proof fn lemma_all_filled(cells: Seq<bool>, placed: Seq<PlacedSquare>, w: int, sizes: Seq<usize>, orders: Seq<Seq<usize>>, k: int, m: int)
    requires
        grid_shape(cells, w),
        consistent(cells, placed, w),
        orders.len() >= sizes.len(),
        0 <= k < m <= sizes.len(),
        sizes[k] == 1,
        forall|x: usize| x < cells.len() ==> #[trigger] orders[k].contains(x),
    ensures
        forall|i: int| 0 <= i < cells.len() ==> #[trigger] run_all(cells, placed, w, sizes.subrange(0, m), orders).0[i],
    decreases m,
{
    let sub = sizes.subrange(0, m);
    assert(sub.drop_last() =~= sizes.subrange(0, m - 1));
    lemma_all(cells, placed, w, sizes.subrange(0, m - 1), orders);
    let r = run_all(cells, placed, w, sizes.subrange(0, m - 1), orders);
    if m - 1 == k {
        lemma_shape(cells, w);
        lemma_unit_class(r.0, r.1, w, orders[k]);
        assert forall|i: int| 0 <= i < cells.len() implies #[trigger] run_all(cells, placed, w, sub, orders).0[i] by {
            assert(orders[k].contains(i as usize));
            let j = choose|j: int| 0 <= j < orders[k].len() && orders[k][j] == i as usize;
            assert(run_class(r.0, r.1, w, 1, orders[k]).0[orders[k][j] as int]);
        }
    } else {
        lemma_all_filled(cells, placed, w, sizes, orders, k, m - 1);
        lemma_class(r.0, r.1, w, sub.last() as int, orders[m - 1]);
        assert forall|i: int| 0 <= i < cells.len() implies #[trigger] run_all(cells, placed, w, sub, orders).0[i] by {
            assert(r.0[i]);
        }
    }
}

proof fn lemma_empty_grid(width: int, height: int)
    requires
        width > 0,
        height > 0,
        width * height <= isize::MAX,
    ensures
        grid_shape(Seq::new((width * height) as nat, |i: int| false), width),
        consistent(Seq::new((width * height) as nat, |i: int| false), seq![], width),
{
    assert((width * height) % width == 0) by (nonlinear_arith)
        requires
            width > 0,
            height > 0,
    ;
}

/// No overlap: the in-grid footprints of any two squares of one packing
/// are disjoint.
pub proof fn lemma_no_overlap(width: int, height: int, sizes: Seq<usize>, orders: Seq<Seq<usize>>)
    requires
        width * height <= isize::MAX,
        orders.len() == sizes.len(),
    ensures
        pack_result(width, height, sizes, orders) matches Ok(placed) ==> footprints_disjoint(placed, width, width * height),
{
    if width > 0 && height > 0 && sizes_positive(sizes) {
        lemma_empty_grid(width, height);
        let cells = Seq::new((width * height) as nat, |i: int| false);
        lemma_all(cells, seq![], width, sizes, orders);
    }
}

/// Coverage: where some class has side 1 and visits every cell, each cell of
/// the grid is covered by exactly one placed square.
pub proof fn lemma_coverage(width: int, height: int, sizes: Seq<usize>, orders: Seq<Seq<usize>>, k: int)
    requires
        width * height <= isize::MAX,
        orders.len() == sizes.len(),
        0 <= k < sizes.len(),
        sizes[k] == 1,
        is_visit_order(orders[k], (width * height) as nat),
    ensures
        pack_result(width, height, sizes, orders) matches Ok(placed) ==> forall|i: int|
            0 <= i < width * height ==> #[trigger] covered_once(placed, width, i),
{
    if width > 0 && height > 0 && sizes_positive(sizes) {
        lemma_empty_grid(width, height);
        let n = (width * height) as nat;
        let cells = Seq::new(n, |i: int| false);
        assert forall|x: usize| x < cells.len() implies #[trigger] orders[k].contains(x) by {
            broadcast use vstd::seq_lib::group_to_multiset_ensures;
            assert(index_seq(n)[x as int] == x);
            assert(index_seq(n).contains(x));
            assert(index_seq(n).to_multiset().count(x) > 0);
        }
        lemma_all_filled(cells, seq![], width, sizes, orders, k, sizes.len() as int);
        assert(sizes.subrange(0, sizes.len() as int) =~= sizes);
        lemma_all(cells, seq![], width, sizes, orders);
        let r = run_all(cells, seq![], width, sizes, orders);
        assert forall|i: int| 0 <= i < width * height implies #[trigger] covered_once(r.1, width, i) by {
            assert(r.0[i]);
        }
    }
}

/// Determinism: the same grid, sizes and visiting orders give the same
/// result.
pub proof fn lemma_deterministic(
    width: int,
    height: int,
    sizes: Seq<usize>,
    orders: Seq<Seq<usize>>,
    r1: Result<Seq<PlacedSquare>, crate::grid::PackError>,
    r2: Result<Seq<PlacedSquare>, crate::grid::PackError>,
)
    requires
        r1 == pack_result(width, height, sizes, orders),
        r2 == pack_result(width, height, sizes, orders),
    ensures
        r1 == r2,
{
}

/// Boundary clipping: only in-grid cells take part in a fit test or a
/// commit. A square fits exactly when no in-grid cell `(x, y)` inside it is
/// occupied, and committing it occupies exactly those cells.
pub proof fn lemma_boundary_clipping(cells: Seq<bool>, width: int, height: int, tlx: int, tly: int, s: int)
    requires
        width > 0,
        height > 0,
        cells.len() == width * height,
    ensures
        square_fits(cells, width, tlx, tly, s) <==> forall|x: int, y: int|
            0 <= x < width && 0 <= y < height && tlx <= x < tlx + s && tly <= y < tly + s
                ==> !#[trigger] cells[y * width + x],
        mark_square(cells, width, tlx, tly, s).len() == cells.len(),
        forall|x: int, y: int|
            0 <= x < width && 0 <= y < height ==> #[trigger] mark_square(cells, width, tlx, tly, s)[y * width + x]
                == (cells[y * width + x] || (tlx <= x < tlx + s && tly <= y < tly + s)),
{
    if square_fits(cells, width, tlx, tly, s) {
        assert forall|x: int, y: int|
            0 <= x < width && 0 <= y < height && tlx <= x < tlx + s && tly <= y < tly + s
                implies !#[trigger] cells[y * width + x] by {
            lemma_encode(width, height, x, y);
        }
    } else {
        let i = choose|i: int| 0 <= i < cells.len() && in_square(width, tlx, tly, s, i) && cells[i];
        lemma_decode(width, height, i);
        let x = i % width;
        let y = i / width;
        assert(cells[y * width + x]);
    }
    assert forall|x: int, y: int| 0 <= x < width && 0 <= y < height implies #[trigger] mark_square(cells, width, tlx, tly, s)[y * width + x]
        == (cells[y * width + x] || (tlx <= x < tlx + s && tly <= y < tly + s)) by {
        lemma_encode(width, height, x, y);
    }
}

} // verus!
