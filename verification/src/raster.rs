use vstd::prelude::*;

use crate::geometry::{in_bounds, Color, Point, Site};
use crate::sites::GRID_LIMIT;
use crate::spatial::{lemma_single_point, nearest_idx, KdTree};

verus! {

/// Rasterization failure: the index answered a query with a position
/// that is not a valid index into the site sequence. This indicates a
/// broken index/site pairing and is reported, never masked.
#[derive(Clone, Copy, Debug, PartialEq, Eq, Structural)]
pub enum VoronoiError {
    SiteIndexOutOfRange,
}

/// The query point of the grid cell in column `x` of row `y`.
pub open spec fn cell_point(x: int, y: int) -> Point {
    Point { x: x as i64, y: y as i64 }
}

/// The color owed to a cell: the color of the site whose point is
/// nearest to the cell, under the lowest-index tie-break.
pub open spec fn cell_color(sites: Seq<Site>, ps: Seq<Point>, x: int, y: int) -> Color {
    sites[nearest_idx(ps, cell_point(x, y))].color
}

/// One full row of resolved cell colors.
pub open spec fn row_spec(sites: Seq<Site>, ps: Seq<Point>, width: int, y: int) -> Seq<Color> {
    Seq::new(width as nat, |x: int| cell_color(sites, ps, x, y))
}

/// The rows `y0 .. y1` of the diagram, in order.
pub open spec fn grid_spec(sites: Seq<Site>, ps: Seq<Point>, width: int, y0: int, y1: int) -> Seq<
    Seq<Color>,
> {
    Seq::new((y1 - y0) as nat, |k: int| row_spec(sites, ps, width, y0 + k))
}

/// Whether every cell of row `y` resolves to a valid position in the
/// site sequence. Always true when the index holds no more points
/// than there are sites.
pub open spec fn row_resolvable(sites: Seq<Site>, ps: Seq<Point>, width: int, y: int) -> bool {
    forall|x: int| 0 <= x < width ==> #[trigger] nearest_idx(ps, cell_point(x, y)) < sites.len()
}

/// Rasterizes the single row `y`: for each column, queries the index
/// at the cell's point and writes the resolved site's color. Fails
/// exactly when some cell of the row resolves outside the site
/// sequence, which cannot happen when the index holds no more points
/// than there are sites.
pub fn rasterize_row(width: usize, y: usize, sites: &Vec<Site>, tree: &KdTree) -> (r: Result<
    Vec<Color>,
    VoronoiError,
>)
    requires
        tree.wf(),
        width <= GRID_LIMIT,
        y < GRID_LIMIT,
    ensures
        r is Ok ==> r->Ok_0@ == row_spec(sites@, tree.points(), width as int, y as int),
        r is Ok <==> row_resolvable(sites@, tree.points(), width as int, y as int),
        tree.points().len() <= sites@.len() ==> r is Ok,
        r is Err ==> sites@.len() < tree.points().len(),
{
    let mut row: Vec<Color> = Vec::new();
    let mut x: usize = 0;
    while x < width
        invariant
            x <= width,
            tree.wf(),
            width <= GRID_LIMIT,
            y < GRID_LIMIT,
            row@.len() == x,
            forall|u: int|
                0 <= u < x ==> #[trigger] row@[u] == cell_color(
                    sites@,
                    tree.points(),
                    u,
                    y as int,
                ),
            forall|u: int|
                0 <= u < x ==> #[trigger] nearest_idx(tree.points(), cell_point(u, y as int))
                    < sites@.len(),
        decreases width - x,
    {
        let q = Point { x: x as i64, y: y as i64 };
        proof {
            assert(in_bounds(q));
            assert(q == cell_point(x as int, y as int));
        }
        let idx = tree.nearest_neighbor(q);
        if idx < sites.len() {
            let c = sites[idx].color;
            row.push(c);
        } else {
            proof {
                assert((idx as int) < tree.points().len());
                assert(nearest_idx(tree.points(), cell_point(x as int, y as int))
                    >= sites@.len());
            }
            return Err(VoronoiError::SiteIndexOutOfRange);
        }
        x = x + 1;
    }
    proof {
        assert(row@ =~= row_spec(sites@, tree.points(), width as int, y as int));
    }
    Ok(row)
}

/// Rasterizes the contiguous row range `y0 .. y1`. Row ranges are
/// independent: each row's content depends only on the row index, the
/// sites and the index, so disjoint ranges can be computed in any
/// order — or concurrently — and concatenated.
pub fn rasterize_rows(width: usize, y0: usize, y1: usize, sites: &Vec<Site>, tree: &KdTree) -> (r:
    Result<Vec<Vec<Color>>, VoronoiError>)
    requires
        tree.wf(),
        width <= GRID_LIMIT,
        y0 <= y1,
        y1 <= GRID_LIMIT,
    ensures
        r is Ok ==> r->Ok_0@.len() == y1 - y0 && forall|k: int|
            0 <= k < y1 - y0 ==> #[trigger] r->Ok_0@[k]@ == row_spec(
                sites@,
                tree.points(),
                width as int,
                y0 + k,
            ),
        r is Ok <==> forall|yy: int|
            y0 <= yy < y1 ==> #[trigger] row_resolvable(sites@, tree.points(), width as int, yy),
        tree.points().len() <= sites@.len() ==> r is Ok,
        r is Err ==> sites@.len() < tree.points().len(),
{
    let mut rows: Vec<Vec<Color>> = Vec::new();
    let mut y: usize = y0;
    while y < y1
        invariant
            y0 <= y <= y1,
            tree.wf(),
            width <= GRID_LIMIT,
            y1 <= GRID_LIMIT,
            rows@.len() == y - y0,
            forall|k: int|
                0 <= k < y - y0 ==> #[trigger] rows@[k]@ == row_spec(
                    sites@,
                    tree.points(),
                    width as int,
                    y0 + k,
                ),
            forall|yy: int|
                y0 <= yy < y ==> #[trigger] row_resolvable(sites@, tree.points(), width as int, yy),
        decreases y1 - y,
    {
        let row = match rasterize_row(width, y, sites, tree) {
            Ok(row) => row,
            Err(e) => {
                proof {
                    assert(!row_resolvable(sites@, tree.points(), width as int, y as int));
                }
                return Err(e);
            },
        };
        rows.push(row);
        y = y + 1;
    }
    Ok(rows)
}

/// Rasterizes the whole grid: a `height`-row, `width`-column buffer in
/// row-major order, each cell holding the color of the site nearest
/// to it.
pub fn generate_voronoi_pixels(width: usize, height: usize, sites: &Vec<Site>, tree: &KdTree) -> (r:
    Result<Vec<Vec<Color>>, VoronoiError>)
    requires
        tree.wf(),
        width <= GRID_LIMIT,
        height <= GRID_LIMIT,
    ensures
        r is Ok ==> r->Ok_0@.len() == height && forall|k: int|
            0 <= k < height ==> #[trigger] r->Ok_0@[k]@ == row_spec(
                sites@,
                tree.points(),
                width as int,
                k,
            ),
        r is Ok <==> forall|yy: int|
            0 <= yy < height ==> #[trigger] row_resolvable(sites@, tree.points(), width as int, yy),
        tree.points().len() <= sites@.len() ==> r is Ok,
        r is Err ==> sites@.len() < tree.points().len(),
{
    rasterize_rows(width, 0, height, sites, tree)
}

/// Partition independence: splitting the rows at any point `ym` and
/// rasterizing the two ranges independently yields, concatenated,
/// exactly the rows of a single whole pass.
pub proof fn lemma_partition_independence(
    sites: Seq<Site>,
    ps: Seq<Point>,
    width: int,
    y0: int,
    ym: int,
    y1: int,
)
    requires
        y0 <= ym <= y1,
    ensures
        grid_spec(sites, ps, width, y0, y1) == grid_spec(sites, ps, width, y0, ym) + grid_spec(
            sites,
            ps,
            width,
            ym,
            y1,
        ),
{
    let whole = grid_spec(sites, ps, width, y0, y1);
    let first = grid_spec(sites, ps, width, y0, ym);
    let second = grid_spec(sites, ps, width, ym, y1);
    assert forall|k: int| 0 <= k < y1 - y0 implies whole[k] == (first + second)[k] by {
        if k < ym - y0 {
            assert((first + second)[k] == first[k]);
        } else {
            assert((first + second)[k] == second[k - (ym - y0)]);
            assert(second[k - (ym - y0)] == row_spec(sites, ps, width, ym + (k - (ym - y0))));
        }
    }
    assert(whole =~= first + second);
}

/// The rows of a full pass are exactly `grid_spec` over `0 .. height`.
pub proof fn lemma_rows_are_grid(
    sites: Seq<Site>,
    ps: Seq<Point>,
    width: int,
    height: int,
    rows: Seq<Seq<Color>>,
)
    requires
        height >= 0,
        rows.len() == height,
        forall|k: int| 0 <= k < height ==> #[trigger] rows[k] == row_spec(sites, ps, width, k),
    ensures
        rows == grid_spec(sites, ps, width, 0, height),
{
    assert(rows =~= grid_spec(sites, ps, width, 0, height));
}

/// With a single site every cell resolves to that site's color.
pub proof fn lemma_single_site_covers(sites: Seq<Site>, ps: Seq<Point>, x: int, y: int)
    requires
        ps.len() == 1,
        sites.len() == 1,
    ensures
        cell_color(sites, ps, x, y) == sites[0].color,
{
    lemma_single_point(ps, cell_point(x, y));
}

} // verus!
