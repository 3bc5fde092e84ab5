//! Coverage analysis for rectangle claims: a dense 2-D grid counts, with
//! saturation, how many rectangles cover each unit cell, and answers which
//! cells are contested and which rectangles stand alone.

use vstd::prelude::*;

use vstd::math::max;
use vstd::slice::slice_to_vec;

use crate::rect::Rect;

verus! {

/// The dense counter storage, an `ndarray::Array2<u8>`. Verus sees the
/// array only through [`grid_cells`] and the trusted accessors below.
#[verifier::external_body]
pub struct CountGrid {
    inner: ndarray::Array2<u8>,
}

/// What the counting grid holds: the saturated counter of each in-bounds
/// cell, keyed by `(x, y)`.
pub uninterp spec fn grid_cells(g: CountGrid) -> Map<(int, int), u8>;

/// Relies on `ndarray::ArrayBase::zeros`: an array of the given shape with
/// every element zero. `zeros` panics when the product of the non-zero axis
/// lengths overflows `isize`, so each axis is kept under `isize::MAX` on its
/// own: a zero axis does not shrink that product.
#[verifier::external_body]
fn grid_zeros(w: usize, h: usize) -> (g: CountGrid)
    requires
        w * h <= isize::MAX,
        w <= isize::MAX,
        h <= isize::MAX,
    ensures
        grid_cells(g) == Map::new(
            |p: (int, int)| 0 <= p.0 < w && 0 <= p.1 < h,
            |p: (int, int)| 0u8,
        ),
{
    CountGrid { inner: ndarray::Array2::zeros((w, h)) }
}

/// Relies on `ndarray::ArrayRef::get`: `Some` of a reference to the element
/// at an in-bounds index.
#[verifier::external_body]
fn grid_get(g: &CountGrid, x: usize, y: usize) -> (c: u8)
    requires
        grid_cells(*g).dom().contains((x as int, y as int)),
    ensures
        c == grid_cells(*g)[(x as int, y as int)],
{
    *g.inner.get((x, y)).unwrap()
}

/// Relies on `ndarray::ArrayRef::get_mut`: `Some` of a mutable reference to
/// the element at an in-bounds index, through which that one element is
/// replaced.
#[verifier::external_body]
fn grid_set(g: &mut CountGrid, x: usize, y: usize, v: u8)
    requires
        grid_cells(*old(g)).dom().contains((x as int, y as int)),
    ensures
        grid_cells(*final(g)) == grid_cells(*old(g)).insert((x as int, y as int), v),
{
    *g.inner.get_mut((x, y)).unwrap() = v;
}

/// How many of the rectangles in `rs` cover the unit cell at `(px, py)`.
pub open spec fn coverage(rs: Seq<Rect>, px: int, py: int) -> nat
    decreases rs.len(),
{
    if rs.len() == 0 {
        0
    } else {
        coverage(rs.drop_last(), px, py) + if rs.last().covers(px, py) {
            1nat
        } else {
            0nat
        }
    }
}

/// A coverage count as a grid cell records it: clamped at the largest value
/// a cell can hold instead of wrapping.
pub open spec fn sat_count(n: nat) -> u8 {
    if n > 255 {
        255u8
    } else {
        n as u8
    }
}

/// The grid width every rectangle fits under: the largest inclusive
/// top-right x coordinate plus one, or zero for no rectangles at all.
pub open spec fn spec_grid_w(rs: Seq<Rect>) -> int
    decreases rs.len(),
{
    if rs.len() == 0 {
        0
    } else {
        max(spec_grid_w(rs.drop_last()), rs.last().spec_top_right().0 + 1)
    }
}

/// The grid height every rectangle fits under.
pub open spec fn spec_grid_h(rs: Seq<Rect>) -> int
    decreases rs.len(),
{
    if rs.len() == 0 {
        0
    } else {
        max(spec_grid_h(rs.drop_last()), rs.last().spec_top_right().1 + 1)
    }
}

/// How many cells `(px, py)` with `0 <= px < x` in row `y` are covered by
/// more than one rectangle.
pub open spec fn row_overlap_count(rs: Seq<Rect>, y: int, x: int) -> nat
    decreases x,
{
    if x <= 0 {
        0
    } else {
        row_overlap_count(rs, y, x - 1) + if coverage(rs, x - 1, y) > 1 {
            1nat
        } else {
            0nat
        }
    }
}

/// How many cells in the first `y` rows of a grid `w` wide are covered by
/// more than one rectangle.
pub open spec fn overlap_cell_count(rs: Seq<Rect>, w: int, y: int) -> nat
    decreases y,
{
    if y <= 0 {
        0
    } else {
        overlap_cell_count(rs, w, y - 1) + row_overlap_count(rs, y - 1, w)
    }
}

/// The rectangle is the sole claimant of every cell it covers. A rectangle
/// that covers no cells satisfies this vacuously.
pub open spec fn sole_claimant(rs: Seq<Rect>, r: Rect) -> bool {
    forall|px: int, py: int| #[trigger] r.covers(px, py) ==> coverage(rs, px, py) == 1
}

/// The first `i` rectangles that are sole claimants everywhere, in input
/// order.
pub open spec fn sole_claimants_upto(rs: Seq<Rect>, i: int) -> Seq<Rect> {
    rs.subrange(0, i).filter(|r: Rect| sole_claimant(rs, r))
}

/// The rectangles that overlap with no other rectangle, in input order.
pub open spec fn non_overlapping(rs: Seq<Rect>) -> Seq<Rect> {
    sole_claimants_upto(rs, rs.len() as int)
}

proof fn lemma_coverage_prefix_step(rs: Seq<Rect>, i: int, px: int, py: int)
    requires
        0 <= i < rs.len(),
    ensures
        coverage(rs.subrange(0, i + 1), px, py) == coverage(rs.subrange(0, i), px, py) + (
        if rs[i].covers(px, py) {
            1nat
        } else {
            0nat
        }),
{
    let s = rs.subrange(0, i + 1);
    assert(s.drop_last() =~= rs.subrange(0, i));
    assert(s.last() == rs[i]);
}

proof fn lemma_grid_dims_prefix_step(rs: Seq<Rect>, i: int)
    requires
        0 <= i < rs.len(),
    ensures
        spec_grid_w(rs.subrange(0, i + 1)) == max(
            spec_grid_w(rs.subrange(0, i)),
            rs[i].spec_top_right().0 + 1,
        ),
        spec_grid_h(rs.subrange(0, i + 1)) == max(
            spec_grid_h(rs.subrange(0, i)),
            rs[i].spec_top_right().1 + 1,
        ),
{
    let s = rs.subrange(0, i + 1);
    assert(s.drop_last() =~= rs.subrange(0, i));
    assert(s.last() == rs[i]);
}

proof fn lemma_grid_dims_nonneg(rs: Seq<Rect>)
    ensures
        spec_grid_w(rs) >= 0,
        spec_grid_h(rs) >= 0,
    decreases rs.len(),
{
    if rs.len() > 0 {
        lemma_grid_dims_nonneg(rs.drop_last());
    }
}

/// Every rectangle's inclusive corner lies inside the grid sized for the
/// whole sequence.
proof fn lemma_rect_within_grid(rs: Seq<Rect>, i: int)
    requires
        0 <= i < rs.len(),
    ensures
        rs[i].spec_top_right().0 + 1 <= spec_grid_w(rs),
        rs[i].spec_top_right().1 + 1 <= spec_grid_h(rs),
    decreases rs.len(),
{
    if i == rs.len() - 1 {
    } else {
        lemma_rect_within_grid(rs.drop_last(), i);
        assert(rs.drop_last()[i] == rs[i]);
    }
}

proof fn lemma_row_overlap_count_le(rs: Seq<Rect>, y: int, x: int)
    ensures
        row_overlap_count(rs, y, x) <= max(x, 0),
    decreases x,
{
    if x > 0 {
        lemma_row_overlap_count_le(rs, y, x - 1);
    }
}

proof fn lemma_overlap_cell_count_le(rs: Seq<Rect>, w: int, y: int)
    requires
        w >= 0,
        y >= 0,
    ensures
        overlap_cell_count(rs, w, y) <= y * w,
    decreases y,
{
    if y > 0 {
        lemma_overlap_cell_count_le(rs, w, y - 1);
        lemma_row_overlap_count_le(rs, y - 1, w);
        assert((y - 1) * w + w == y * w) by (nonlinear_arith);
    }
}

/// Which covered cells of `r` a row-major walk has already visited when it
/// stands at column `ix` of row `iy`.
spec fn stamped(r: Rect, ix: int, iy: int, px: int, py: int) -> bool {
    r.covers(px, py) && (py < iy || (py == iy && px < ix))
}

/// The dense coverage grid over a fixed sequence of rectangle claims,
/// ready to answer how contested the cells are.
pub struct Overlaps {
    pub count_grid: CountGrid,
    pub width: usize,
    pub height: usize,
    pub rects: Vec<Rect>,
}

impl Overlaps {
    /// The rectangles the grid was built from, in input order.
    pub open spec fn rects_seq(self) -> Seq<Rect> {
        self.rects@
    }

    pub open spec fn grid_w(self) -> int {
        self.width as int
    }

    pub open spec fn grid_h(self) -> int {
        self.height as int
    }

    /// The grid is exactly as large as its rectangles need, and each cell
    /// holds the saturated count of the rectangles covering it.
    pub open spec fn wf(self) -> bool {
        &&& self.width == spec_grid_w(self.rects@)
        &&& self.height == spec_grid_h(self.rects@)
        &&& self.width * self.height <= usize::MAX
        &&& forall|i: int|
            0 <= i < self.rects@.len() ==> (#[trigger] self.rects@[i]).coords_fit()
        &&& forall|p: (int, int)|
            #[trigger] grid_cells(self.count_grid).dom().contains(p) <==> (0 <= p.0 < self.width
                && 0 <= p.1 < self.height)
        &&& forall|p: (int, int)|
            0 <= p.0 < self.width && 0 <= p.1 < self.height ==> #[trigger] grid_cells(
                self.count_grid,
            )[p] == sat_count(coverage(self.rects@, p.0, p.1))
    }

    /// Builds the counting grid: sizes it to bound every rectangle, then
    /// stamps each rectangle's covered cells with a saturating increment.
    pub fn new(rects: &[Rect]) -> (r: Overlaps)
        requires
            forall|i: int| 0 <= i < rects@.len() ==> (#[trigger] rects@[i]).coords_fit(),
            spec_grid_w(rects@) <= usize::MAX,
            spec_grid_h(rects@) <= usize::MAX,
            spec_grid_w(rects@) * spec_grid_h(rects@) <= isize::MAX,
        ensures
            r.wf(),
            r.rects_seq() == rects@,
    {
        let n = rects.len();
        let mut gw: usize = 0;
        let mut gh: usize = 0;
        let mut i: usize = 0;
        while i < n
            invariant
                n == rects@.len(),
                i <= n,
                gw == spec_grid_w(rects@.subrange(0, i as int)),
                gh == spec_grid_h(rects@.subrange(0, i as int)),
                forall|k: int| 0 <= k < rects@.len() ==> (#[trigger] rects@[k]).coords_fit(),
                spec_grid_w(rects@) <= usize::MAX,
                spec_grid_h(rects@) <= usize::MAX,
            decreases n - i,
        {
            proof {
                lemma_grid_dims_prefix_step(rects@, i as int);
                lemma_rect_within_grid(rects@, i as int);
            }
            let r = rects[i];
            let (tx, ty) = r.top_right();
            let wcand = tx as usize + 1;
            if wcand > gw {
                gw = wcand;
            }
            let hcand = ty as usize + 1;
            if hcand > gh {
                gh = hcand;
            }
            i += 1;
        }
        proof {
            assert(rects@.subrange(0, n as int) =~= rects@);
            lemma_grid_dims_nonneg(rects@);
            if n > 0 {
                lemma_rect_within_grid(rects@, 0);
                assert(gw >= 1 && gh >= 1);
                assert(gw <= gw * gh && gh <= gw * gh) by (nonlinear_arith)
                    requires
                        gw >= 1,
                        gh >= 1,
                ;
            }
        }
        let mut grid = grid_zeros(gw, gh);
        fill_grid(&mut grid, rects, gw, gh);
        Overlaps { count_grid: grid, width: gw, height: gh, rects: slice_to_vec(rects) }
    }

    /// The total contested area: how many cells are covered by two or more
    /// rectangles.
    pub fn overlap_area(&self) -> (area: usize)
        requires
            self.wf(),
        ensures
            area == overlap_cell_count(self.rects_seq(), self.grid_w(), self.grid_h()),
    {
        let mut area: usize = 0;
        let mut y: usize = 0;
        while y < self.height
            invariant
                self.wf(),
                y <= self.height,
                area == overlap_cell_count(self.rects@, self.width as int, y as int),
            decreases self.height - y,
        {
            let mut x: usize = 0;
            while x < self.width
                invariant
                    self.wf(),
                    y < self.height,
                    x <= self.width,
                    area == overlap_cell_count(self.rects@, self.width as int, y as int)
                        + row_overlap_count(self.rects@, y as int, x as int),
                decreases self.width - x,
            {
                proof {
                    lemma_overlap_cell_count_le(self.rects@, self.width as int, y as int);
                    lemma_row_overlap_count_le(self.rects@, y as int, x as int);
                    assert((y as int) * (self.width as int) + (x as int) < (self.height as int) * (
                    self.width as int)) by (nonlinear_arith)
                        requires
                            0 <= (y as int) < (self.height as int),
                            0 <= (x as int) < (self.width as int),
                    ;
                    assert((self.height as int) * (self.width as int) == (self.width as int) * (
                    self.height as int)) by (nonlinear_arith);
                }
                let c = grid_get(&self.count_grid, x, y);
                if c > 1 {
                    area += 1;
                }
                x += 1;
            }
            y += 1;
        }
        area
    }

    /// The rectangles no other rectangle intrudes on, in original input
    /// order: every covered cell of each reported rectangle has coverage
    /// exactly one. A rectangle that covers no cells is always reported.
    pub fn iter_non_overlapping_rects(&self) -> (res: Vec<Rect>)
        requires
            self.wf(),
        ensures
            res@ == non_overlapping(self.rects_seq()),
    {
        let n = self.rects.len();
        let mut res: Vec<Rect> = Vec::new();
        let mut i: usize = 0;
        while i < n
            invariant
                self.wf(),
                n == self.rects@.len(),
                i <= n,
                res@ == sole_claimants_upto(self.rects@, i as int),
            decreases n - i,
        {
            let r = self.rects[i];
            let keep = self.all_cells_singly_covered(r, i);
            proof {
                lemma_claimants_upto_step(self.rects@, i as int);
            }
            if keep {
                res.push(r);
            }
            i += 1;
        }
        res
    }

    /// True exactly when every cell the rectangle covers has coverage one.
    fn all_cells_singly_covered(&self, r: Rect, i: usize) -> (b: bool)
        requires
            self.wf(),
            i < self.rects@.len(),
            r == self.rects@[i as int],
        ensures
            b == sole_claimant(self.rects_seq(), r),
    {
        if r.is_empty() {
            proof {
                assert forall|px: int, py: int| #[trigger] r.covers(px, py) implies coverage(
                    self.rects@,
                    px,
                    py,
                ) == 1 by {}
            }
            return true;
        }
        proof {
            lemma_rect_within_grid(self.rects@, i as int);
        }
        let (tx, ty) = r.top_right();
        let mut all_one = true;
        let mut iy: u64 = r.y as u64;
        while iy <= ty as u64
            invariant
                self.wf(),
                i < self.rects@.len(),
                r == self.rects@[i as int],
                !r.spec_is_empty(),
                r.coords_fit(),
                (tx as int, ty as int) == r.spec_top_right(),
                r.spec_top_right().0 + 1 <= self.width,
                r.spec_top_right().1 + 1 <= self.height,
                r.y <= iy <= ty as u64 + 1,
                all_one == (forall|px: int, py: int|
                    stamped(r, r.x as int, iy as int, px, py) ==> coverage(self.rects@, px, py)
                        == 1),
            decreases ty as int + 1 - iy,
        {
            let mut ix: u64 = r.x as u64;
            while ix <= tx as u64
                invariant
                    self.wf(),
                    i < self.rects@.len(),
                    r == self.rects@[i as int],
                    !r.spec_is_empty(),
                    r.coords_fit(),
                    (tx as int, ty as int) == r.spec_top_right(),
                    r.spec_top_right().0 + 1 <= self.width,
                    r.spec_top_right().1 + 1 <= self.height,
                    r.y <= iy <= ty as u64,
                    r.x <= ix <= tx as u64 + 1,
                    all_one == (forall|px: int, py: int|
                        stamped(r, ix as int, iy as int, px, py) ==> coverage(self.rects@, px, py)
                            == 1),
                decreases tx as int + 1 - ix,
            {
                assert(r.covers(ix as int, iy as int));
                let c = grid_get(&self.count_grid, ix as usize, iy as usize);
                proof {
                    let cov = coverage(self.rects@, ix as int, iy as int);
                    assert(c == sat_count(cov));
                    assert((c == 1) <==> (cov == 1));
                }
                let here_one = c == 1;
                proof {
                    assert forall|px: int, py: int|
                        stamped(r, ix as int + 1, iy as int, px, py) <==> (stamped(
                            r,
                            ix as int,
                            iy as int,
                            px,
                            py,
                        ) || (px == ix as int && py == iy as int && r.covers(px, py))) by {}
                }
                all_one = all_one && here_one;
                ix += 1;
            }
            proof {
                assert forall|px: int, py: int|
                    stamped(r, r.x as int, iy as int + 1, px, py) <==> stamped(
                        r,
                        ix as int,
                        iy as int,
                        px,
                        py,
                    ) by {}
            }
            iy += 1;
        }
        proof {
            assert forall|px: int, py: int|
                #[trigger] r.covers(px, py) <==> stamped(r, r.x as int, iy as int, px, py) by {}
        }
        all_one
    }
}

/// Stamps every covered cell of every rectangle into a grid of zeroes,
/// incrementing the cell counters with saturation.
fn fill_grid(grid: &mut CountGrid, rects: &[Rect], w: usize, h: usize)
    requires
        forall|p: (int, int)|
            #[trigger] grid_cells(*old(grid)).dom().contains(p) <==> (0 <= p.0 < w && 0 <= p.1 < h),
        forall|p: (int, int)|
            (0 <= p.0 < w && 0 <= p.1 < h) ==> #[trigger] grid_cells(*old(grid))[p] == 0u8,
        forall|i: int| 0 <= i < rects@.len() ==> (#[trigger] rects@[i]).coords_fit(),
        spec_grid_w(rects@) <= w,
        spec_grid_h(rects@) <= h,
    ensures
        forall|p: (int, int)|
            #[trigger] grid_cells(*final(grid)).dom().contains(p) <==> (0 <= p.0 < w && 0 <= p.1
                < h),
        forall|p: (int, int)|
            (0 <= p.0 < w && 0 <= p.1 < h) ==> #[trigger] grid_cells(*final(grid))[p] == sat_count(
                coverage(rects@, p.0, p.1),
            ),
{
    let n = rects.len();
    let mut i: usize = 0;
    while i < n
        invariant
            n == rects@.len(),
            i <= n,
            forall|k: int| 0 <= k < rects@.len() ==> (#[trigger] rects@[k]).coords_fit(),
            spec_grid_w(rects@) <= w,
            spec_grid_h(rects@) <= h,
            forall|p: (int, int)|
                #[trigger] grid_cells(*grid).dom().contains(p) <==> (0 <= p.0 < w && 0 <= p.1 < h),
            forall|p: (int, int)|
                (0 <= p.0 < w && 0 <= p.1 < h) ==> #[trigger] grid_cells(*grid)[p] == sat_count(
                    coverage(rects@.subrange(0, i as int), p.0, p.1),
                ),
        decreases n - i,
    {
        let r = rects[i];
        let ghost cov_i = |px: int, py: int| coverage(rects@.subrange(0, i as int), px, py);
        if !r.is_empty() {
            proof {
                lemma_rect_within_grid(rects@, i as int);
            }
            let (tx, ty) = r.top_right();
            let mut iy: u64 = r.y as u64;
            while iy <= ty as u64
                invariant
                    i < rects@.len(),
                    r == rects@[i as int],
                    !r.spec_is_empty(),
                    r.coords_fit(),
                    (tx as int, ty as int) == r.spec_top_right(),
                    r.spec_top_right().0 + 1 <= w,
                    r.spec_top_right().1 + 1 <= h,
                    r.y <= iy <= ty as u64 + 1,
                    cov_i == |px: int, py: int| coverage(rects@.subrange(0, i as int), px, py),
                    forall|p: (int, int)|
                        #[trigger] grid_cells(*grid).dom().contains(p) <==> (0 <= p.0 < w && 0
                            <= p.1 < h),
                    forall|p: (int, int)|
                        (0 <= p.0 < w && 0 <= p.1 < h) ==> #[trigger] grid_cells(*grid)[p]
                            == sat_count(
                            cov_i(p.0, p.1) + if stamped(r, r.x as int, iy as int, p.0, p.1) {
                                1nat
                            } else {
                                0nat
                            },
                        ),
                decreases ty as int + 1 - iy,
            {
                let mut ix: u64 = r.x as u64;
                while ix <= tx as u64
                    invariant
                        i < rects@.len(),
                        r == rects@[i as int],
                        !r.spec_is_empty(),
                        r.coords_fit(),
                        (tx as int, ty as int) == r.spec_top_right(),
                        r.spec_top_right().0 + 1 <= w,
                        r.spec_top_right().1 + 1 <= h,
                        r.y <= iy <= ty as u64,
                        r.x <= ix <= tx as u64 + 1,
                        cov_i == |px: int, py: int| coverage(rects@.subrange(0, i as int), px, py),
                        forall|p: (int, int)|
                            #[trigger] grid_cells(*grid).dom().contains(p) <==> (0 <= p.0 < w && 0
                                <= p.1 < h),
                        forall|p: (int, int)|
                            (0 <= p.0 < w && 0 <= p.1 < h) ==> #[trigger] grid_cells(*grid)[p]
                                == sat_count(
                                cov_i(p.0, p.1) + if stamped(r, ix as int, iy as int, p.0, p.1) {
                                    1nat
                                } else {
                                    0nat
                                },
                            ),
                    decreases tx as int + 1 - ix,
                {
                    assert(r.covers(ix as int, iy as int));
                    let c = grid_get(grid, ix as usize, iy as usize);
                    let c2 = if c == 255 {
                        255
                    } else {
                        c + 1
                    };
                    grid_set(grid, ix as usize, iy as usize, c2);
                    proof {
                        assert forall|px: int, py: int|
                            stamped(r, ix as int + 1, iy as int, px, py) <==> (stamped(
                                r,
                                ix as int,
                                iy as int,
                                px,
                                py,
                            ) || (px == ix as int && py == iy as int && r.covers(px, py))) by {}
                    }
                    ix += 1;
                }
                proof {
                    assert forall|px: int, py: int|
                        stamped(r, r.x as int, iy as int + 1, px, py) <==> stamped(
                            r,
                            ix as int,
                            iy as int,
                            px,
                            py,
                        ) by {}
                }
                iy += 1;
            }
            proof {
                assert forall|px: int, py: int|
                    #[trigger] r.covers(px, py) <==> stamped(r, r.x as int, iy as int, px, py) by {}
                assert forall|p: (int, int)| (0 <= p.0 < w && 0 <= p.1 < h) implies #[trigger] grid_cells(
                    *grid,
                )[p] == sat_count(coverage(rects@.subrange(0, i as int + 1), p.0, p.1)) by {
                    lemma_coverage_prefix_step(rects@, i as int, p.0, p.1);
                }
            }
        } else {
            proof {
                assert forall|p: (int, int)| (0 <= p.0 < w && 0 <= p.1 < h) implies #[trigger] grid_cells(
                    *grid,
                )[p] == sat_count(coverage(rects@.subrange(0, i as int + 1), p.0, p.1)) by {
                    lemma_coverage_prefix_step(rects@, i as int, p.0, p.1);
                }
            }
        }
        i += 1;
    }
    proof {
        assert(rects@.subrange(0, n as int) =~= rects@);
    }
}

/// One step of the non-overlapping report: the report over the first `i + 1`
/// rectangles extends the report over the first `i` with the rectangle at
/// `i` exactly when it is a sole claimant.
proof fn lemma_claimants_upto_step(rs: Seq<Rect>, i: int)
    requires
        0 <= i < rs.len(),
    ensures
        sole_claimants_upto(rs, i + 1) == if sole_claimant(rs, rs[i]) {
            sole_claimants_upto(rs, i).push(rs[i])
        } else {
            sole_claimants_upto(rs, i)
        },
{
    reveal(Seq::filter);
    let s = rs.subrange(0, i + 1);
    assert(s.drop_last() =~= rs.subrange(0, i));
    assert(s.last() == rs[i]);
    if sole_claimant(rs, rs[i]) {
        assert(sole_claimants_upto(rs, i + 1) =~= sole_claimants_upto(rs, i).push(rs[i]));
    }
}

/// A shorter report is a prefix of a longer one: walking more rectangles
/// only appends to the report.
proof fn lemma_claimants_upto_prefix(rs: Seq<Rect>, a: int, b: int)
    requires
        0 <= a <= b <= rs.len(),
    ensures
        sole_claimants_upto(rs, a).len() <= sole_claimants_upto(rs, b).len(),
        forall|t: int|
            0 <= t < sole_claimants_upto(rs, a).len() ==> #[trigger] sole_claimants_upto(rs, b)[t]
                == sole_claimants_upto(rs, a)[t],
    decreases b - a,
{
    if a < b {
        lemma_claimants_upto_prefix(rs, a, b - 1);
        lemma_claimants_upto_step(rs, b - 1);
    }
}

/// Law: with no rectangles at all, the grid is zero-sized, no cell is
/// contested, and no rectangle is reported.
pub proof fn lemma_empty_input(og: Overlaps)
    requires
        og.wf(),
        og.rects_seq().len() == 0,
    ensures
        og.grid_w() == 0,
        og.grid_h() == 0,
        overlap_cell_count(og.rects_seq(), og.grid_w(), og.grid_h()) == 0,
        non_overlapping(og.rects_seq()) =~= Seq::<Rect>::empty(),
{
    reveal(Seq::filter);
    assert(og.rects_seq().subrange(0, 0) =~= Seq::<Rect>::empty());
}

/// Law: a rectangle with zero width or height covers no cells, adds nothing
/// to any coverage count, and is always a sole claimant, so it is always
/// reported as non-overlapping.
pub proof fn lemma_degenerate_rect(rs: Seq<Rect>, r: Rect, px: int, py: int)
    requires
        r.spec_is_empty(),
    ensures
        !r.covers(px, py),
        coverage(rs.push(r), px, py) == coverage(rs, px, py),
        sole_claimant(rs, r),
        forall|i: int| 0 <= i < rs.len() && rs[i] == r ==> non_overlapping(rs).contains(r),
{
    assert(rs.push(r).drop_last() =~= rs);
    assert forall|i: int| 0 <= i < rs.len() && rs[i] == r implies non_overlapping(rs).contains(
        r,
    ) by {
        lemma_claimant_reported(rs, i);
    }
}

/// Law: every sole claimant appears in the non-overlapping report.
pub proof fn lemma_claimant_reported(rs: Seq<Rect>, i: int)
    requires
        0 <= i < rs.len(),
        sole_claimant(rs, rs[i]),
    ensures
        non_overlapping(rs).contains(rs[i]),
{
    lemma_claimants_upto_step(rs, i);
    let k = sole_claimants_upto(rs, i + 1).len() - 1;
    assert(sole_claimants_upto(rs, i + 1)[k] == rs[i]);
    lemma_claimants_upto_prefix(rs, i + 1, rs.len() as int);
    assert(non_overlapping(rs)[k] == rs[i]);
}

/// Law: the non-overlapping report keeps the original input order. Two sole
/// claimants appear in the report at positions ordered as their inputs were.
pub proof fn lemma_order_preserved(rs: Seq<Rect>, i: int, j: int)
    requires
        0 <= i < j < rs.len(),
        sole_claimant(rs, rs[i]),
        sole_claimant(rs, rs[j]),
    ensures
        exists|k1: int, k2: int|
            0 <= k1 < k2 < non_overlapping(rs).len() && non_overlapping(rs)[k1] == rs[i]
                && non_overlapping(rs)[k2] == rs[j],
{
    lemma_claimants_upto_step(rs, i);
    lemma_claimants_upto_step(rs, j);
    let k1 = sole_claimants_upto(rs, i + 1).len() - 1;
    let k2 = sole_claimants_upto(rs, j + 1).len() - 1;
    assert(sole_claimants_upto(rs, i + 1)[k1] == rs[i]);
    assert(sole_claimants_upto(rs, j + 1)[k2] == rs[j]);
    lemma_claimants_upto_prefix(rs, i + 1, j);
    lemma_claimants_upto_prefix(rs, j, j + 1);
    lemma_claimants_upto_prefix(rs, i + 1, rs.len() as int);
    lemma_claimants_upto_prefix(rs, j + 1, rs.len() as int);
    assert(non_overlapping(rs)[k1] == rs[i]);
    assert(non_overlapping(rs)[k2] == rs[j]);
    assert(k1 < k2);
}

/// Law: saturation never wraps a counter, and it keeps exactly the
/// distinctions the queries draw: a saturated count reads as one, or as more
/// than one, precisely when the true count does.
pub proof fn lemma_saturation(n: nat)
    ensures
        sat_count(n) <= 255,
        (sat_count(n) > 1) <==> (n > 1),
        (sat_count(n) == 1) <==> (n == 1),
        n <= 255 ==> sat_count(n) == n,
{
}

} // verus!
