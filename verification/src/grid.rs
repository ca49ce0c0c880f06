use vstd::prelude::*;

use crate::adjacency::{compute_adjacencies, table_total, AdjacencyTable};
use crate::cell::{average_color_of, filtered, lemma_filtered_total, lemma_subdomain_refl, lemma_subdomain_trans, subdomain, Cell};
use crate::direction::Direction;
use crate::image::{lemma_row_major_index, Image};
use vstd::arithmetic::div_mod::{
    lemma_fundamental_div_mod, lemma_fundamental_div_mod_converse, lemma_mod_bound,
    lemma_multiply_divide_lt,
};

verus! {

/// The coordinate one step in `dir` from `(x, y)`, or none at the border.
pub open spec fn spec_neighbor(x: int, y: int, w: int, h: int, dir: Direction) -> Option<
    (int, int),
> {
    let off = dir.spec_offsets();
    if 0 <= x + off.0 < w && 0 <= y + off.1 < h {
        Some((x + off.0, y + off.1))
    } else {
        None
    }
}

fn neighbor_coord(x: usize, y: usize, w: usize, h: usize, dir: Direction) -> (r: Option<
    (usize, usize),
>)
    requires
        x < w,
        y < h,
    ensures
        r matches Some(p) ==> spec_neighbor(x as int, y as int, w as int, h as int, dir) == Some(
            (p.0 as int, p.1 as int),
        ) && p.0 < w && p.1 < h,
        r is None ==> spec_neighbor(x as int, y as int, w as int, h as int, dir) is None,
{
    match dir {
        Direction::North => if y >= 1 {
            Some((x, y - 1))
        } else {
            None
        },
        Direction::South => if y + 1 < h {
            Some((x, y + 1))
        } else {
            None
        },
        Direction::East => if x >= 1 {
            Some((x - 1, y))
        } else {
            None
        },
        Direction::West => if x + 1 < w {
            Some((x + 1, y))
        } else {
            None
        },
    }
}

/// What one `update` step did: the cell it selected and collapsed (none when
/// the run is complete or stuck), every coordinate at which a domain became
/// empty during propagation (a contradiction), and how many cells the
/// propagation pass visited.
pub struct StepReport {
    pub selected: Option<(usize, usize)>,
    pub contradictions: Vec<(usize, usize)>,
    pub visited: usize,
}

/// A cell the selection heuristic may pick: not yet collapsed, and with a
/// real choice left.
pub open spec fn eligible(c: Cell) -> bool {
    !c.spec_is_collapsed() && c.domain().len() > 1
}

/// Some entry of `report` names the coordinate whose row-major index over a
/// width-`w` grid is `k`.
pub open spec fn reported(report: Seq<(usize, usize)>, w: int, k: int) -> bool {
    exists|ri: int| 0 <= ri < report.len() && (#[trigger] report[ri]).1 * w + report[ri].0 == k
}

/// In direction `d` from the seed at `(sx, sy)`: either there is no neighbor
/// there, or it was already collapsed, or its domain (in `post`) is contained
/// in its old domain (in `pre`) reduced against the seed's domain.
pub open spec fn seed_neighbor_reduced(
    pre: Seq<Cell>,
    post: Seq<Cell>,
    sx: int,
    sy: int,
    w: int,
    h: int,
    d: Direction,
    seed_domain: Seq<usize>,
    table: AdjacencyTable,
) -> bool {
    match spec_neighbor(sx, sy, w, h, d) {
        Option::Some(p) => !pre[p.1 * w + p.0].spec_is_collapsed() ==> subdomain(
            post[p.1 * w + p.0].domain(),
            filtered(pre[p.1 * w + p.0].domain(), d, seed_domain, table),
        ),
        Option::None => true,
    }
}

/// Distinct in-bounds coordinates have distinct row-major indices.
proof fn lemma_row_major_distinct(x1: int, y1: int, x2: int, y2: int, w: int)
    requires
        0 <= x1 < w,
        0 <= x2 < w,
        0 <= y1,
        0 <= y2,
        !(x1 == x2 && y1 == y2),
    ensures
        y1 * w + x1 != y2 * w + x2,
{
    if y1 * w + x1 == y2 * w + x2 {
        lemma_fundamental_div_mod_converse(y1 * w + x1, w, y1, x1);
        lemma_fundamental_div_mod_converse(y2 * w + x2, w, y2, x2);
    }
}

/// An in-bounds neighbor's row-major index is in range, differs from the
/// cell's own index, and differs from the index of an in-bounds neighbor in
/// any other direction.
proof fn lemma_neighbor_index_facts(x: int, y: int, w: int, h: int, d1: Direction, d2: Direction)
    requires
        0 <= x < w,
        0 <= y < h,
    ensures
        spec_neighbor(x, y, w, h, d1) matches Some(p1) ==> 0 <= p1.1 * w + p1.0 < w * h && p1.1
            * w + p1.0 != y * w + x,
        d1 != d2 ==> (spec_neighbor(x, y, w, h, d1) matches Some(p1) ==> (spec_neighbor(
            x,
            y,
            w,
            h,
            d2,
        ) matches Some(p2) ==> p1.1 * w + p1.0 != p2.1 * w + p2.0)),
{
    let o1 = d1.spec_offsets();
    let p1x = x + o1.0;
    let p1y = y + o1.1;
    if 0 <= p1x < w && 0 <= p1y < h {
        lemma_row_major_index(p1x, p1y, w, h);
        assert(o1 != (0int, 0int));
        lemma_row_major_distinct(p1x, p1y, x, y, w);
        let o2 = d2.spec_offsets();
        let p2x = x + o2.0;
        let p2y = y + o2.1;
        if d1 != d2 && 0 <= p2x < w && 0 <= p2y < h {
            assert(o1 != o2);
            lemma_row_major_distinct(p1x, p1y, p2x, p2y, w);
        }
    }
}

/// How many cells carry the per-pass visited marker.
pub open spec fn num_checked(cells: Seq<Cell>) -> int
    decreases cells.len(),
{
    if cells.len() == 0 {
        0
    } else {
        num_checked(cells.drop_last()) + if cells.last().spec_checked() {
            1int
        } else {
            0int
        }
    }
}

pub proof fn lemma_num_checked_bounds(cells: Seq<Cell>)
    ensures
        0 <= num_checked(cells) <= cells.len(),
    decreases cells.len(),
{
    if cells.len() > 0 {
        lemma_num_checked_bounds(cells.drop_last());
    }
}

/// Counting the visited markers only looks at the markers.
pub proof fn lemma_num_checked_agree(a: Seq<Cell>, b: Seq<Cell>)
    requires
        a.len() == b.len(),
        forall|k: int| 0 <= k < a.len() ==> (#[trigger] a[k]).spec_checked() == b[k].spec_checked(),
    ensures
        num_checked(a) == num_checked(b),
    decreases a.len(),
{
    if a.len() > 0 {
        lemma_num_checked_agree(a.drop_last(), b.drop_last());
    }
}

pub proof fn lemma_num_checked_all_false(cells: Seq<Cell>)
    requires
        forall|k: int| 0 <= k < cells.len() ==> !(#[trigger] cells[k]).spec_checked(),
    ensures
        num_checked(cells) == 0,
    decreases cells.len(),
{
    if cells.len() > 0 {
        lemma_num_checked_all_false(cells.drop_last());
    }
}

/// Marking one unmarked cell raises the count by exactly one.
pub proof fn lemma_num_checked_update(cells: Seq<Cell>, i: int, c: Cell)
    requires
        0 <= i < cells.len(),
    ensures
        num_checked(cells.update(i, c)) == num_checked(cells) - (if cells[i].spec_checked() {
            1int
        } else {
            0int
        }) + (if c.spec_checked() {
            1int
        } else {
            0int
        }),
    decreases cells.len(),
{
    let upd = cells.update(i, c);
    if i == cells.len() - 1 {
        assert(upd.drop_last() =~= cells.drop_last());
    } else {
        assert(upd.drop_last() =~= cells.drop_last().update(i, c));
        lemma_num_checked_update(cells.drop_last(), i, c);
    }
}

/// The 2-D tile grid: the tile set cut from the source pattern, the
/// adjacency table computed from it, and one cell per grid position,
/// row-major.
pub struct Grid {
    tiles: Vec<Image>,
    width: usize,
    height: usize,
    cells: Vec<Cell>,
    adjacencies: AdjacencyTable,
}

impl Grid {
    pub closed spec fn spec_width(self) -> int {
        self.width as int
    }

    pub closed spec fn spec_height(self) -> int {
        self.height as int
    }

    pub closed spec fn spec_tiles(self) -> Seq<Image> {
        self.tiles@
    }

    pub closed spec fn spec_cells(self) -> Seq<Cell> {
        self.cells@
    }

    pub closed spec fn spec_table(self) -> AdjacencyTable {
        self.adjacencies
    }

    /// The grid's structural invariant: one cell per position, every cell
    /// well-formed against the tile set, the adjacency table sized to the
    /// tile set, uniform nonempty tile footprints, and the tile count small
    /// enough that color averaging cannot overflow.
    pub open spec fn wf(self) -> bool {
        &&& self.spec_cells().len() == self.spec_width() * self.spec_height()
        &&& self.spec_table().wf()
        &&& self.spec_table().spec_tile_count() == self.spec_tiles().len()
        &&& forall|k: int|
            0 <= k < self.spec_cells().len() ==> (#[trigger] self.spec_cells()[k]).wf(
                self.spec_tiles().len() as int,
            )
        &&& forall|t: int|
            0 <= t < self.spec_tiles().len() ==> (#[trigger] self.spec_tiles()[t]).wf()
                && self.spec_tiles()[t].width >= 1 && self.spec_tiles()[t].height >= 1
        &&& 255 * self.spec_tiles().len() <= u32::MAX
    }

    pub fn width(&self) -> (r: usize)
        ensures
            r as int == self.spec_width(),
    {
        self.width
    }

    pub fn height(&self) -> (r: usize)
        ensures
            r as int == self.spec_height(),
    {
        self.height
    }

    pub fn tile_count(&self) -> (r: usize)
        ensures
            r as int == self.spec_tiles().len(),
    {
        self.tiles.len()
    }

    /// Read-only view of the cell at `(x, y)`.
    pub fn cell_at(&self, x: usize, y: usize) -> (r: &Cell)
        requires
            self.wf(),
            x < self.spec_width(),
            y < self.spec_height(),
        ensures
            *r == self.spec_cells()[y * self.spec_width() + x],
    {
        // a Vec's length fits in usize, which bounds the index computation below
        let len = self.cells.len();
        proof {
            lemma_row_major_index(x as int, y as int, self.spec_width(), self.spec_height());
        }
        &self.cells[y * self.width + x]
    }

    /// Build a grid over a `width x height` board from a prepared tile set:
    /// compute the adjacency table and give every cell the full tile-index
    /// range as its starting domain.
    pub fn from_tiles(width: usize, height: usize, tiles: Vec<Image>) -> (r: Grid)
        requires
            width * height <= usize::MAX,
            4 * tiles@.len() * tiles@.len() <= usize::MAX,
            255 * tiles@.len() <= u32::MAX,
            forall|t: int|
                0 <= t < tiles@.len() ==> (#[trigger] tiles@[t]).wf() && tiles@[t].width >= 1
                    && tiles@[t].height >= 1,
            forall|t1: int, t2: int|
                0 <= t1 < tiles@.len() && 0 <= t2 < tiles@.len() ==> (
                #[trigger] tiles@[t1].same_dims(tiles@[t2])),
        ensures
            r.wf(),
            r.spec_width() == width,
            r.spec_height() == height,
            r.spec_cells().len() == width * height,
            r.spec_tiles() == tiles@,
            forall|i: int, dir: Direction, j: int|
                0 <= i < r.spec_tiles().len() && 0 <= j < r.spec_tiles().len()
                    ==> #[trigger] r.spec_table().spec_allows(i, dir, j) == r.spec_tiles()[i].spec_fits(
                    r.spec_tiles()[j],
                    dir.spec_offsets(),
                ),
            forall|k: int|
                0 <= k < r.spec_cells().len() ==> {
                    &&& !(#[trigger] r.spec_cells()[k]).spec_is_collapsed()
                    &&& r.spec_cells()[k].domain().len() == r.spec_tiles().len()
                    &&& forall|m: int|
                        0 <= m < r.spec_tiles().len() ==> (#[trigger] r.spec_cells()[k].domain()[m]) as int
                            == m
                },
    {
        let adjacencies = compute_adjacencies(&tiles);
        let tile_count = tiles.len();
        let n = width * height;
        let mut cells: Vec<Cell> = Vec::new();
        let mut i: usize = 0;
        while i < n
            invariant
                i <= n,
                cells@.len() == i,
                forall|k: int|
                    0 <= k < i ==> {
                        &&& !(#[trigger] cells@[k]).spec_is_collapsed()
                        &&& !cells@[k].spec_checked()
                        &&& cells@[k].wf(tile_count as int)
                        &&& cells@[k].domain().len() == tile_count
                        &&& forall|m: int|
                            0 <= m < tile_count ==> (#[trigger] cells@[k].domain()[m]) as int == m
                    },
            decreases n - i,
        {
            cells.push(Cell::new(tile_count));
            i += 1;
        }
        Grid { tiles, width, height, cells, adjacencies }
    }

    /// Build a grid from a source pattern, cutting one tile of the requested
    /// footprint per source position, with toroidal wraparound.
    pub fn with_tile_size(
        width: usize,
        height: usize,
        image: &Image,
        tile_width: usize,
        tile_height: usize,
    ) -> (r: Grid)
        requires
            image.wf(),
            image.width >= 1,
            image.height >= 1,
            tile_width >= 1,
            tile_height >= 1,
            tile_width * tile_height <= usize::MAX,
            width * height <= usize::MAX,
            image.width + tile_width <= usize::MAX,
            image.height + tile_height <= usize::MAX,
            4 * (image.width * image.height) * (image.width * image.height) <= usize::MAX,
            255 * (image.width * image.height) <= u32::MAX,
        ensures
            r.wf(),
            r.spec_width() == width,
            r.spec_height() == height,
            r.spec_cells().len() == width * height,
            r.spec_tiles().len() == image.width * image.height,
            forall|k: int|
                0 <= k < r.spec_tiles().len() ==> {
                    &&& (#[trigger] r.spec_tiles()[k]).width == tile_width
                    &&& r.spec_tiles()[k].height == tile_height
                    &&& r.spec_tiles()[k].is_slice_of(
                        *image,
                        k % (image.width as int),
                        k / (image.width as int),
                    )
                },
            forall|i: int, dir: Direction, j: int|
                0 <= i < r.spec_tiles().len() && 0 <= j < r.spec_tiles().len()
                    ==> #[trigger] r.spec_table().spec_allows(i, dir, j) == r.spec_tiles()[i].spec_fits(
                    r.spec_tiles()[j],
                    dir.spec_offsets(),
                ),
            forall|k: int|
                0 <= k < r.spec_cells().len() ==> {
                    &&& !(#[trigger] r.spec_cells()[k]).spec_is_collapsed()
                    &&& r.spec_cells()[k].domain().len() == r.spec_tiles().len()
                    &&& forall|m: int|
                        0 <= m < r.spec_tiles().len() ==> (#[trigger] r.spec_cells()[k].domain()[m]) as int
                            == m
                },
    {
        let tiles = image.slices(tile_width, tile_height);
        proof {
            assert forall|t1: int, t2: int|
                0 <= t1 < tiles@.len() && 0 <= t2 < tiles@.len() implies (
            #[trigger] tiles@[t1].same_dims(tiles@[t2])) by {}
        }
        Grid::from_tiles(width, height, tiles)
    }

    /// Build a grid over a `width x height` board from a source pattern:
    /// cut its 3 x 3 tiles, compute their adjacency table, and give every
    /// cell the full tile-index range as its starting domain.
    pub fn new(width: usize, height: usize, image: &Image) -> (r: Grid)
        requires
            image.wf(),
            image.width >= 1,
            image.height >= 1,
            width * height <= usize::MAX,
            image.width + 3 <= usize::MAX,
            image.height + 3 <= usize::MAX,
            4 * (image.width * image.height) * (image.width * image.height) <= usize::MAX,
            255 * (image.width * image.height) <= u32::MAX,
        ensures
            r.wf(),
            r.spec_width() == width,
            r.spec_height() == height,
            r.spec_cells().len() == width * height,
            r.spec_tiles().len() == image.width * image.height,
            forall|k: int|
                0 <= k < r.spec_tiles().len() ==> {
                    &&& (#[trigger] r.spec_tiles()[k]).width == 3
                    &&& r.spec_tiles()[k].height == 3
                    &&& r.spec_tiles()[k].is_slice_of(
                        *image,
                        k % (image.width as int),
                        k / (image.width as int),
                    )
                },
            forall|i: int, dir: Direction, j: int|
                0 <= i < r.spec_tiles().len() && 0 <= j < r.spec_tiles().len()
                    ==> #[trigger] r.spec_table().spec_allows(i, dir, j) == r.spec_tiles()[i].spec_fits(
                    r.spec_tiles()[j],
                    dir.spec_offsets(),
                ),
            forall|k: int|
                0 <= k < r.spec_cells().len() ==> {
                    &&& !(#[trigger] r.spec_cells()[k]).spec_is_collapsed()
                    &&& r.spec_cells()[k].domain().len() == r.spec_tiles().len()
                    &&& forall|m: int|
                        0 <= m < r.spec_tiles().len() ==> (#[trigger] r.spec_cells()[k].domain()[m]) as int
                            == m
                },
    {
        Grid::with_tile_size(width, height, image, 3, 3)
    }

    /// The lowest-entropy-first heuristic: scan the cells row-major and pick
    /// the first cell attaining the minimum domain size among cells that are
    /// not collapsed and still have more than one option. None when no such
    /// cell exists (the run is complete or stuck).
    fn find_next_uncollapsed(&self) -> (r: Option<(usize, usize)>)
        requires
            self.wf(),
        ensures
            r is None ==> forall|k: int|
                0 <= k < self.spec_cells().len() ==> !eligible(#[trigger] self.spec_cells()[k]),
            r matches Some(p) ==> {
                let idx = p.1 * self.spec_width() + p.0;
                &&& p.0 < self.spec_width()
                &&& p.1 < self.spec_height()
                &&& eligible(self.spec_cells()[idx])
                &&& forall|k: int|
                    0 <= k < self.spec_cells().len() && eligible(#[trigger] self.spec_cells()[k])
                        ==> self.spec_cells()[k].domain().len()
                        >= self.spec_cells()[idx].domain().len()
                &&& forall|k: int|
                    0 <= k < idx ==> !eligible(#[trigger] self.spec_cells()[k])
                        || self.spec_cells()[k].domain().len()
                        > self.spec_cells()[idx].domain().len()
            },
    {
        let n = self.cells.len();
        let mut found = false;
        let mut min_k: usize = 0;
        let mut min_options: usize = 0;
        let mut k: usize = 0;
        while k < n
            invariant
                self.wf(),
                n == self.spec_cells().len(),
                k <= n,
                found ==> min_k < k && eligible(self.spec_cells()[min_k as int]) && min_options
                    == self.spec_cells()[min_k as int].domain().len(),
                found ==> forall|k2: int|
                    0 <= k2 < k && eligible(#[trigger] self.spec_cells()[k2])
                        ==> self.spec_cells()[k2].domain().len() >= min_options,
                found ==> forall|k2: int|
                    0 <= k2 < min_k ==> !eligible(#[trigger] self.spec_cells()[k2])
                        || self.spec_cells()[k2].domain().len() > min_options,
                !found ==> forall|k2: int|
                    0 <= k2 < k ==> !eligible(#[trigger] self.spec_cells()[k2]),
            decreases n - k,
        {
            let c = &self.cells[k];
            if !c.is_collapsed() {
                let nopts = c.option_count();
                if nopts > 1 && (!found || nopts < min_options) {
                    found = true;
                    min_k = k;
                    min_options = nopts;
                }
            }
            k += 1;
        }
        if found {
            proof {
                assert(self.spec_width() >= 1) by (nonlinear_arith)
                    requires
                        (min_k as int) < self.spec_width() * self.spec_height(),
                        min_k >= 0,
                        self.spec_width() >= 0,
                        self.spec_height() >= 0,
                ;
                lemma_mod_bound(min_k as int, self.spec_width());
                assert((min_k as int) < self.spec_width() * self.spec_height());
                lemma_multiply_divide_lt(min_k as int, self.spec_width(), self.spec_height());
                lemma_fundamental_div_mod(min_k as int, self.spec_width());
            }
            let x = min_k % self.width;
            let y = min_k / self.width;
            proof {
                assert(self.spec_width() * (y as int) == (y as int) * self.spec_width())
                    by (nonlinear_arith);
                assert((y as int) * self.spec_width() + x == min_k as int);
            }
            Some((x, y))
        } else {
            None
        }
    }

    /// Collapse the cell at `(x, y)` to one randomly drawn surviving index.
    fn collapse(&mut self, min_x: usize, min_y: usize, rng: &mut rand::rngs::StdRng)
        requires
            old(self).wf(),
            min_x < old(self).spec_width(),
            min_y < old(self).spec_height(),
            old(self).spec_cells()[min_y * old(self).spec_width() + min_x].spec_is_collapsed()
                || old(self).spec_cells()[min_y * old(self).spec_width()
                + min_x].domain().len() >= 1,
        ensures
            final(self).wf(),
            final(self).spec_width() == old(self).spec_width(),
            final(self).spec_height() == old(self).spec_height(),
            final(self).spec_tiles() == old(self).spec_tiles(),
            final(self).spec_table() == old(self).spec_table(),
            final(self).spec_cells().len() == old(self).spec_cells().len(),
            forall|k: int|
                0 <= k < old(self).spec_cells().len() && k != min_y * old(self).spec_width()
                    + min_x ==> #[trigger] final(self).spec_cells()[k] == old(self).spec_cells()[k],
            forall|k: int|
                0 <= k < old(self).spec_cells().len() ==> (#[trigger] final(self).spec_cells()[k]).domain().len() <= old(self).spec_cells()[k].domain().len(),
            forall|k: int|
                0 <= k < old(self).spec_cells().len() ==> #[trigger] subdomain(
                    final(self).spec_cells()[k].domain(),
                    old(self).spec_cells()[k].domain(),
                ),
            ({
                let idx = min_y * old(self).spec_width() + min_x;
                let before = old(self).spec_cells()[idx];
                let after = final(self).spec_cells()[idx];
                &&& before.spec_is_collapsed() ==> after == before
                &&& !before.spec_is_collapsed() ==> after.spec_is_collapsed()
                    && after.domain().len() == 1 && before.domain().contains(after.domain()[0])
                    && after.spec_checked() == before.spec_checked()
            }),
    {
        // a Vec's length fits in usize, which bounds the index computation below
        let len = self.cells.len();
        proof {
            lemma_row_major_index(
                min_x as int,
                min_y as int,
                self.spec_width(),
                self.spec_height(),
            );
        }
        let idx = min_y * self.width + min_x;
        let c = &mut self.cells[idx];
        c.collapse(rng);
        proof {
            assert forall|k: int| 0 <= k < old(self).spec_cells().len() implies #[trigger] subdomain(
                self.spec_cells()[k].domain(),
                old(self).spec_cells()[k].domain(),
            ) by {
                if k != idx {
                    lemma_subdomain_refl(self.spec_cells()[k].domain());
                }
            }
        }
    }

    /// Reduce the neighbor of `(x, y)` in direction `dir` against `snap`,
    /// the domain snapshot of the cell at `(x, y)`. A neighbor outside the
    /// grid, already visited this pass, or already collapsed is skipped;
    /// otherwise its domain ends exactly filtered against `snap`'s domain,
    /// and no other cell changes. A neighbor whose domain becomes empty is
    /// appended to `report`; one whose domain shrank is appended to `queue`.
    /// The ghost `orig` is the cell state at the start of the whole
    /// propagation pass; the contract carries the pass-wide invariants
    /// across this one reduction.
    fn reduce_neighbor(
        &mut self,
        x: usize,
        y: usize,
        dir: Direction,
        snap: &Cell,
        queue: &mut Vec<(usize, usize)>,
        report: &mut Vec<(usize, usize)>,
        orig: Ghost<Seq<Cell>>,
    )
        requires
            old(self).wf(),
            x < old(self).spec_width(),
            y < old(self).spec_height(),
            orig@.len() == old(self).spec_cells().len(),
            forall|k: int|
                0 <= k < orig@.len() ==> (#[trigger] old(self).spec_cells()[k]).domain().len()
                    <= orig@[k].domain().len(),
            forall|k: int|
                0 <= k < orig@.len() ==> #[trigger] subdomain(
                    old(self).spec_cells()[k].domain(),
                    orig@[k].domain(),
                ),
            forall|k: int|
                0 <= k < orig@.len() && (#[trigger] orig@[k]).spec_is_collapsed() ==> old(
                    self,
                ).spec_cells()[k].domain() == orig@[k].domain()
                    && old(self).spec_cells()[k].spec_is_collapsed(),
            forall|qi: int|
                0 <= qi < old(queue)@.len() ==> (#[trigger] old(queue)@[qi]).0 < old(
                    self,
                ).spec_width() && old(queue)@[qi].1 < old(self).spec_height(),
            forall|ri: int|
                0 <= ri < old(report)@.len() ==> {
                    let p = #[trigger] old(report)@[ri];
                    &&& p.0 < old(self).spec_width()
                    &&& p.1 < old(self).spec_height()
                    &&& p.1 * old(self).spec_width() + p.0 < old(self).spec_cells().len()
                    &&& old(self).spec_cells()[p.1 * old(self).spec_width()
                        + p.0].domain().len() == 0
                },
            forall|k: int|
                0 <= k < orig@.len() && (#[trigger] old(self).spec_cells()[k]).domain().len() == 0
                    && orig@[k].domain().len() > 0 ==> reported(
                    old(report)@,
                    old(self).spec_width(),
                    k,
                ),
        ensures
            final(self).wf(),
            final(self).spec_width() == old(self).spec_width(),
            final(self).spec_height() == old(self).spec_height(),
            final(self).spec_tiles() == old(self).spec_tiles(),
            final(self).spec_table() == old(self).spec_table(),
            final(self).spec_cells().len() == old(self).spec_cells().len(),
            forall|k: int|
                0 <= k < old(self).spec_cells().len() ==> (#[trigger] final(self).spec_cells()[k]).spec_checked() == old(self).spec_cells()[k].spec_checked(),
            forall|k: int|
                0 <= k < old(self).spec_cells().len() ==> #[trigger] subdomain(
                    final(self).spec_cells()[k].domain(),
                    old(self).spec_cells()[k].domain(),
                ),
            spec_neighbor(
                x as int,
                y as int,
                old(self).spec_width(),
                old(self).spec_height(),
                dir,
            ) is None ==> final(self).spec_cells() == old(self).spec_cells(),
            spec_neighbor(
                x as int,
                y as int,
                old(self).spec_width(),
                old(self).spec_height(),
                dir,
            ) matches Some(p) ==> {
                let pidx = p.1 * old(self).spec_width() + p.0;
                &&& forall|k: int|
                    0 <= k < old(self).spec_cells().len() && k != pidx
                        ==> #[trigger] final(self).spec_cells()[k] == old(self).spec_cells()[k]
                &&& (!old(self).spec_cells()[pidx].spec_is_collapsed() && !old(
                    self,
                ).spec_cells()[pidx].spec_checked()) ==> final(self).spec_cells()[pidx].domain()
                    == filtered(
                    old(self).spec_cells()[pidx].domain(),
                    dir,
                    snap.domain(),
                    old(self).spec_table(),
                )
            },
            (table_total(old(self).spec_table()) && snap.domain().len() >= 1 && (forall|m: int|
                0 <= m < snap.domain().len() ==> ((#[trigger] snap.domain()[m]) as int) < old(
                    self,
                ).spec_table().spec_tile_count())) ==> forall|k: int|
                0 <= k < old(self).spec_cells().len() ==> (#[trigger] final(self).spec_cells()[k]).domain()
                    == old(self).spec_cells()[k].domain() && (old(
                    self,
                ).spec_cells()[k].domain().len() != 1 ==> final(self).spec_cells()[k].spec_is_collapsed()
                    == old(self).spec_cells()[k].spec_is_collapsed()),
            forall|k: int|
                0 <= k < orig@.len() ==> (#[trigger] final(self).spec_cells()[k]).domain().len()
                    <= orig@[k].domain().len(),
            forall|k: int|
                0 <= k < orig@.len() ==> #[trigger] subdomain(
                    final(self).spec_cells()[k].domain(),
                    orig@[k].domain(),
                ),
            forall|k: int|
                0 <= k < orig@.len() && (#[trigger] orig@[k]).spec_is_collapsed() ==> final(self).spec_cells()[k].domain() == orig@[k].domain()
                    && final(self).spec_cells()[k].spec_is_collapsed(),
            old(queue)@.len() <= final(queue)@.len() <= old(queue)@.len() + 1,
            forall|qi: int|
                0 <= qi < final(queue)@.len() ==> (#[trigger] final(queue)@[qi]).0 < old(
                    self,
                ).spec_width() && final(queue)@[qi].1 < old(self).spec_height(),
            forall|ri: int|
                0 <= ri < final(report)@.len() ==> {
                    let p = #[trigger] final(report)@[ri];
                    &&& p.0 < old(self).spec_width()
                    &&& p.1 < old(self).spec_height()
                    &&& p.1 * old(self).spec_width() + p.0 < final(self).spec_cells().len()
                    &&& final(self).spec_cells()[p.1 * old(self).spec_width()
                        + p.0].domain().len() == 0
                },
            forall|k: int|
                0 <= k < orig@.len() && (#[trigger] final(self).spec_cells()[k]).domain().len()
                    == 0 && orig@[k].domain().len() > 0 ==> reported(
                    final(report)@,
                    old(self).spec_width(),
                    k,
                ),
    {
        let nco = neighbor_coord(x, y, self.width, self.height, dir);
        match nco {
            None => {},
            Some((nx, ny)) => {
                // a Vec's length fits in usize, which bounds the index computation below
                let len = self.cells.len();
                proof {
                    lemma_row_major_index(
                        nx as int,
                        ny as int,
                        self.spec_width(),
                        self.spec_height(),
                    );
                }
                let nidx = ny * self.width + nx;
                if !self.cells[nidx].checked() && !self.cells[nidx].is_collapsed() {
                    let ghost cells_before = self.spec_cells();
                    let before = self.cells[nidx].option_count();
                    let c = &mut self.cells[nidx];
                    c.reduce_options(snap, dir, &self.adjacencies);
                    let after = self.cells[nidx].option_count();
                    proof {
                        assert(forall|k: int|
                            0 <= k < cells_before.len() && k != nidx ==> self.spec_cells()[k]
                                == #[trigger] cells_before[k]);
                    }
                    if after == 0 {
                        report.push((nx, ny));
                        proof {
                            assert(report@[report@.len() - 1] == (nx, ny));
                        }
                    }
                    if after < before {
                        queue.push((nx, ny));
                        proof {
                            assert(queue@[queue@.len() - 1] == (nx, ny));
                        }
                    }
                }
            },
        }
        proof {
            let w = old(self).spec_width();
            assert forall|k: int|
                0 <= k < old(self).spec_cells().len() implies #[trigger] subdomain(
                self.spec_cells()[k].domain(),
                old(self).spec_cells()[k].domain(),
            ) by {
                if self.spec_cells()[k].domain() == old(self).spec_cells()[k].domain() {
                    lemma_subdomain_refl(self.spec_cells()[k].domain());
                }
            }
            assert forall|k: int| 0 <= k < orig@.len() implies #[trigger] subdomain(
                self.spec_cells()[k].domain(),
                orig@[k].domain(),
            ) by {
                assert(subdomain(old(self).spec_cells()[k].domain(), orig@[k].domain()));
                if self.spec_cells()[k].domain() != old(self).spec_cells()[k].domain() {
                    lemma_subdomain_trans(
                        self.spec_cells()[k].domain(),
                        old(self).spec_cells()[k].domain(),
                        orig@[k].domain(),
                    );
                }
            }
            if table_total(old(self).spec_table()) && snap.domain().len() >= 1 && (forall|m: int|
                0 <= m < snap.domain().len() ==> ((#[trigger] snap.domain()[m]) as int) < old(
                    self,
                ).spec_table().spec_tile_count()) {
                assert forall|k: int|
                    0 <= k < old(self).spec_cells().len() implies (#[trigger] self.spec_cells()[k]).domain()
                    == old(self).spec_cells()[k].domain() && (old(
                    self,
                ).spec_cells()[k].domain().len() != 1 ==> self.spec_cells()[k].spec_is_collapsed()
                    == old(self).spec_cells()[k].spec_is_collapsed()) by {
                    assert(old(self).spec_cells()[k].wf(old(self).spec_tiles().len() as int));
                    lemma_filtered_total(
                        old(self).spec_cells()[k].domain(),
                        dir,
                        snap.domain(),
                        old(self).spec_table(),
                    );
                }
            }
            assert forall|k: int|
                0 <= k < orig@.len() && (#[trigger] self.spec_cells()[k]).domain().len() == 0
                    && orig@[k].domain().len() > 0 implies reported(report@, w, k) by {
                if old(self).spec_cells()[k].domain().len() == 0 {
                    assert(reported(old(report)@, w, k));
                    let ri0 = choose|ri: int|
                        0 <= ri < old(report)@.len() && (#[trigger] old(report)@[ri]).1 * w + old(
                            report,
                        )@[ri].0 == k;
                    assert(report@[ri0] == old(report)@[ri0]);
                    assert(report@[ri0].1 * w + report@[ri0].0 == k);
                } else {
                    assert(report@[report@.len() - 1].1 * w + report@[report@.len() - 1].0 == k);
                }
            }
        }
    }

    /// One breadth-first constraint-propagation pass seeded at `(x, y)`.
    /// The seed's in-bounds, not-yet-collapsed neighbors end reduced against
    /// the seed's domain; whatever propagation does beyond that only removes
    /// further domain members. Returns the coordinates at which a domain
    /// became empty and the number of cells visited: each cell is visited at
    /// most once per pass, and the seed itself always is.
    fn propagate(&mut self, min_x: usize, min_y: usize) -> (r: (Vec<(usize, usize)>, usize))
        requires
            old(self).wf(),
            min_x < old(self).spec_width(),
            min_y < old(self).spec_height(),
        ensures
            final(self).wf(),
            final(self).spec_width() == old(self).spec_width(),
            final(self).spec_height() == old(self).spec_height(),
            final(self).spec_tiles() == old(self).spec_tiles(),
            final(self).spec_table() == old(self).spec_table(),
            final(self).spec_cells().len() == old(self).spec_cells().len(),
            forall|k: int|
                0 <= k < old(self).spec_cells().len() ==> (#[trigger] final(self).spec_cells()[k]).domain().len() <= old(self).spec_cells()[k].domain().len(),
            forall|k: int|
                0 <= k < old(self).spec_cells().len() && (#[trigger] old(
                    self,
                ).spec_cells()[k]).spec_is_collapsed() ==> final(self).spec_cells()[k].domain()
                    == old(self).spec_cells()[k].domain()
                    && final(self).spec_cells()[k].spec_is_collapsed(),
            forall|k: int|
                0 <= k < old(self).spec_cells().len() ==> #[trigger] subdomain(
                    final(self).spec_cells()[k].domain(),
                    old(self).spec_cells()[k].domain(),
                ),
            1 <= r.1 as int <= old(self).spec_cells().len(),
            forall|d: Direction| #[trigger] seed_neighbor_reduced(
                old(self).spec_cells(),
                final(self).spec_cells(),
                min_x as int,
                min_y as int,
                old(self).spec_width(),
                old(self).spec_height(),
                d,
                old(self).spec_cells()[min_y * old(self).spec_width() + min_x].domain(),
                old(self).spec_table(),
            ),
            (table_total(old(self).spec_table()) && (forall|k: int|
                0 <= k < old(self).spec_cells().len() ==> (#[trigger] old(self).spec_cells()[k]).spec_is_collapsed()
                    || old(self).spec_cells()[k].domain().len() > 1)) ==> forall|k: int|
                0 <= k < old(self).spec_cells().len() ==> (#[trigger] final(self).spec_cells()[k]).domain()
                    == old(self).spec_cells()[k].domain() && final(self).spec_cells()[k].spec_is_collapsed()
                    == old(self).spec_cells()[k].spec_is_collapsed(),
            forall|ri: int|
                0 <= ri < r.0@.len() ==> {
                    let p = #[trigger] r.0@[ri];
                    &&& p.0 < old(self).spec_width()
                    &&& p.1 < old(self).spec_height()
                    &&& p.1 * old(self).spec_width() + p.0 < final(self).spec_cells().len()
                    &&& final(self).spec_cells()[p.1 * old(self).spec_width()
                        + p.0].domain().len() == 0
                },
            forall|k: int|
                0 <= k < old(self).spec_cells().len() && (#[trigger] final(self).spec_cells()[k]).domain().len() == 0 && old(self).spec_cells()[k].domain().len()
                    > 0 ==> reported(r.0@, old(self).spec_width(), k),
    {
        // Reset the per-pass visited markers.
        let n = self.cells.len();
        let mut i: usize = 0;
        while i < n
            invariant
                self.wf(),
                self.spec_width() == old(self).spec_width(),
                self.spec_height() == old(self).spec_height(),
                self.spec_tiles() == old(self).spec_tiles(),
                self.spec_table() == old(self).spec_table(),
                n == self.spec_cells().len(),
                self.spec_cells().len() == old(self).spec_cells().len(),
                i <= n,
                forall|k: int|
                    0 <= k < i ==> !(#[trigger] self.spec_cells()[k]).spec_checked(),
                forall|k: int|
                    0 <= k < n ==> (#[trigger] self.spec_cells()[k]).domain() == old(
                        self,
                    ).spec_cells()[k].domain() && self.spec_cells()[k].spec_is_collapsed() == old(
                        self,
                    ).spec_cells()[k].spec_is_collapsed(),
            decreases n - i,
        {
            let c = &mut self.cells[i];
            c.set_checked(false);
            i += 1;
        }
        proof {
            lemma_num_checked_all_false(self.spec_cells());
            assert forall|k: int|
                0 <= k < old(self).spec_cells().len() implies #[trigger] subdomain(
                self.spec_cells()[k].domain(),
                old(self).spec_cells()[k].domain(),
            ) by {
                lemma_subdomain_refl(self.spec_cells()[k].domain());
            }
        }
        // Expand the seed first: it is always the first coordinate the
        // breadth-first pass dequeues, and at that moment no cell carries the
        // visited marker yet.
        let mut queue: Vec<(usize, usize)> = Vec::new();
        let mut report: Vec<(usize, usize)> = Vec::new();
        // a Vec's length fits in usize, which bounds the index computation below
        let len = self.cells.len();
        proof {
            lemma_row_major_index(
                min_x as int,
                min_y as int,
                old(self).spec_width(),
                old(self).spec_height(),
            );
        }
        let seed_idx = min_y * self.width + min_x;
        let ghost cells_start = self.spec_cells();
        let c = &mut self.cells[seed_idx];
        c.set_checked(true);
        proof {
            lemma_num_checked_update(
                cells_start,
                seed_idx as int,
                self.spec_cells()[seed_idx as int],
            );
            lemma_num_checked_bounds(self.spec_cells());
            assert forall|k: int|
                0 <= k < old(self).spec_cells().len() implies #[trigger] subdomain(
                self.spec_cells()[k].domain(),
                old(self).spec_cells()[k].domain(),
            ) by {
                assert(self.spec_cells()[k].domain() == old(self).spec_cells()[k].domain());
                lemma_subdomain_refl(self.spec_cells()[k].domain());
            }
        }
        let mut visits: usize = 1;
        let snap = self.cells[seed_idx].snapshot();
        let ghost ps0 = self.spec_cells();
        self.reduce_neighbor(min_x, min_y, Direction::North, &snap, &mut queue, &mut report, Ghost(old(self).spec_cells()));
        let ghost ps1 = self.spec_cells();
        self.reduce_neighbor(min_x, min_y, Direction::East, &snap, &mut queue, &mut report, Ghost(old(self).spec_cells()));
        let ghost ps2 = self.spec_cells();
        self.reduce_neighbor(min_x, min_y, Direction::South, &snap, &mut queue, &mut report, Ghost(old(self).spec_cells()));
        let ghost ps3 = self.spec_cells();
        self.reduce_neighbor(min_x, min_y, Direction::West, &snap, &mut queue, &mut report, Ghost(old(self).spec_cells()));
        proof {
            lemma_num_checked_agree(self.spec_cells(), ps0);
            lemma_num_checked_bounds(self.spec_cells());
            let w = old(self).spec_width();
            let h = old(self).spec_height();
            let seed_dom = old(self).spec_cells()[min_y * w + min_x].domain();
            let tbl = old(self).spec_table();
            assert(snap.domain() == seed_dom);
            assert forall|d: Direction| #[trigger] seed_neighbor_reduced(
                old(self).spec_cells(),
                self.spec_cells(),
                min_x as int,
                min_y as int,
                w,
                h,
                d,
                seed_dom,
                tbl,
            ) by {
                let off = d.spec_offsets();
                let px = min_x + off.0;
                let py = min_y + off.1;
                if 0 <= px < w && 0 <= py < h && !old(self).spec_cells()[py * w
                    + px].spec_is_collapsed() {
                    let pidx = py * w + px;
                    lemma_neighbor_index_facts(
                        min_x as int,
                        min_y as int,
                        w,
                        h,
                        d,
                        Direction::North,
                    );
                    lemma_neighbor_index_facts(min_x as int, min_y as int, w, h, d, Direction::East);
                    lemma_neighbor_index_facts(
                        min_x as int,
                        min_y as int,
                        w,
                        h,
                        d,
                        Direction::South,
                    );
                    lemma_neighbor_index_facts(min_x as int, min_y as int, w, h, d, Direction::West);
                    assert(ps0[pidx].domain() == old(self).spec_cells()[pidx].domain());
                    assert(!ps0[pidx].spec_checked());
                    assert(!ps0[pidx].spec_is_collapsed());
                    match d {
                        Direction::North => {
                            assert(ps1[pidx].domain() == filtered(
                                ps0[pidx].domain(),
                                d,
                                snap.domain(),
                                tbl,
                            ));
                            assert(ps2[pidx] == ps1[pidx]);
                            assert(ps3[pidx] == ps2[pidx]);
                            assert(self.spec_cells()[pidx] == ps3[pidx]);
                        },
                        Direction::East => {
                            assert(ps1[pidx] == ps0[pidx]);
                            assert(ps2[pidx].domain() == filtered(
                                ps1[pidx].domain(),
                                d,
                                snap.domain(),
                                tbl,
                            ));
                            assert(ps3[pidx] == ps2[pidx]);
                            assert(self.spec_cells()[pidx] == ps3[pidx]);
                        },
                        Direction::South => {
                            assert(ps1[pidx] == ps0[pidx]);
                            assert(ps2[pidx] == ps1[pidx]);
                            assert(ps3[pidx].domain() == filtered(
                                ps2[pidx].domain(),
                                d,
                                snap.domain(),
                                tbl,
                            ));
                            assert(self.spec_cells()[pidx] == ps3[pidx]);
                        },
                        Direction::West => {
                            assert(ps1[pidx] == ps0[pidx]);
                            assert(ps2[pidx] == ps1[pidx]);
                            assert(ps3[pidx] == ps2[pidx]);
                            assert(self.spec_cells()[pidx].domain() == filtered(
                                ps3[pidx].domain(),
                                d,
                                snap.domain(),
                                tbl,
                            ));
                        },
                    }
                    lemma_subdomain_refl(self.spec_cells()[pidx].domain());
                }
            }
            if table_total(old(self).spec_table()) && (forall|k: int|
                0 <= k < old(self).spec_cells().len() ==> (#[trigger] old(self).spec_cells()[k]).spec_is_collapsed()
                    || old(self).spec_cells()[k].domain().len() > 1) {
                let sidx = min_y * w + min_x;
                assert(old(self).spec_cells()[sidx].wf(old(self).spec_tiles().len() as int));
                assert(snap.domain() == old(self).spec_cells()[sidx].domain());
                assert(snap.domain().len() >= 1);
                assert forall|m: int|
                    0 <= m < snap.domain().len() implies ((#[trigger] snap.domain()[m]) as int)
                    < old(self).spec_table().spec_tile_count() by {
                    assert(snap.domain()[m] == old(self).spec_cells()[sidx].domain()[m]);
                }
                assert forall|k: int|
                    0 <= k < old(self).spec_cells().len() implies (#[trigger] self.spec_cells()[k]).domain()
                    == old(self).spec_cells()[k].domain() && self.spec_cells()[k].spec_is_collapsed()
                    == old(self).spec_cells()[k].spec_is_collapsed() by {
                    if old(self).spec_cells()[k].domain().len() == 1 {
                        assert(old(self).spec_cells()[k].spec_is_collapsed());
                    } else {
                        assert(ps0[k].domain() == old(self).spec_cells()[k].domain());
                        assert(ps0[k].spec_is_collapsed() == old(
                            self,
                        ).spec_cells()[k].spec_is_collapsed());
                        assert(ps1[k].domain() == ps0[k].domain());
                        assert(ps2[k].domain() == ps1[k].domain());
                        assert(ps3[k].domain() == ps2[k].domain());
                        assert(self.spec_cells()[k].domain() == ps3[k].domain());
                    }
                }
            }
        }
        let mut head: usize = 0;
        while head < queue.len()
            invariant
                self.wf(),
                self.spec_width() == old(self).spec_width(),
                self.spec_height() == old(self).spec_height(),
                self.spec_tiles() == old(self).spec_tiles(),
                self.spec_table() == old(self).spec_table(),
                self.spec_cells().len() == old(self).spec_cells().len(),
                min_x < old(self).spec_width(),
                min_y < old(self).spec_height(),
                head <= queue@.len(),
                forall|qi: int|
                    0 <= qi < queue@.len() ==> (#[trigger] queue@[qi]).0 < self.spec_width()
                        && queue@[qi].1 < self.spec_height(),
                visits >= 1,
                visits as int == num_checked(self.spec_cells()),
                0 <= num_checked(self.spec_cells()) <= self.spec_cells().len(),
                forall|k: int|
                    0 <= k < old(self).spec_cells().len() ==> (#[trigger] self.spec_cells()[k]).domain().len()
                        <= old(self).spec_cells()[k].domain().len(),
                forall|k: int|
                    0 <= k < old(self).spec_cells().len() ==> #[trigger] subdomain(
                        self.spec_cells()[k].domain(),
                        old(self).spec_cells()[k].domain(),
                    ),
                forall|k: int|
                    0 <= k < old(self).spec_cells().len() && (#[trigger] old(
                        self,
                    ).spec_cells()[k]).spec_is_collapsed() ==> self.spec_cells()[k].domain() == old(
                        self,
                    ).spec_cells()[k].domain() && self.spec_cells()[k].spec_is_collapsed(),
                forall|d: Direction| #[trigger] seed_neighbor_reduced(
                    old(self).spec_cells(),
                    self.spec_cells(),
                    min_x as int,
                    min_y as int,
                    old(self).spec_width(),
                    old(self).spec_height(),
                    d,
                    old(self).spec_cells()[min_y * old(self).spec_width() + min_x].domain(),
                    old(self).spec_table(),
                ),
                (table_total(old(self).spec_table()) && (forall|k: int|
                    0 <= k < old(self).spec_cells().len() ==> (#[trigger] old(self).spec_cells()[k]).spec_is_collapsed()
                        || old(self).spec_cells()[k].domain().len() > 1)) ==> forall|k: int|
                    0 <= k < old(self).spec_cells().len() ==> (#[trigger] self.spec_cells()[k]).domain()
                        == old(self).spec_cells()[k].domain() && self.spec_cells()[k].spec_is_collapsed()
                        == old(self).spec_cells()[k].spec_is_collapsed(),
                forall|ri: int|
                    0 <= ri < report@.len() ==> {
                        let p = #[trigger] report@[ri];
                        &&& p.0 < self.spec_width()
                        &&& p.1 < self.spec_height()
                        &&& p.1 * self.spec_width() + p.0 < self.spec_cells().len()
                        &&& self.spec_cells()[p.1 * self.spec_width() + p.0].domain().len() == 0
                    },
                forall|k: int|
                    0 <= k < old(self).spec_cells().len() && (#[trigger] self.spec_cells()[k]).domain().len()
                        == 0 && old(self).spec_cells()[k].domain().len() > 0 ==> reported(
                        report@,
                        old(self).spec_width(),
                        k,
                    ),
            decreases 5 * (self.spec_cells().len() - num_checked(self.spec_cells())) + queue@.len()
                - head,
        {
            let p = queue[head];
            let x = p.0;
            let y = p.1;
            head += 1;
            // a Vec's length fits in usize, which bounds the index computation below
            let len = self.cells.len();
            proof {
                lemma_row_major_index(x as int, y as int, self.spec_width(), self.spec_height());
            }
            let idx = y * self.width + x;
            if !self.cells[idx].checked() {
                let ghost cells_before = self.spec_cells();
                let c = &mut self.cells[idx];
                c.set_checked(true);
                proof {
                    lemma_num_checked_update(
                        cells_before,
                        idx as int,
                        self.spec_cells()[idx as int],
                    );
                    lemma_num_checked_bounds(self.spec_cells());
                    assert forall|k: int|
                        0 <= k < old(self).spec_cells().len() implies #[trigger] subdomain(
                        self.spec_cells()[k].domain(),
                        old(self).spec_cells()[k].domain(),
                    ) by {
                        assert(subdomain(
                            cells_before[k].domain(),
                            old(self).spec_cells()[k].domain(),
                        ));
                        assert(self.spec_cells()[k].domain() == cells_before[k].domain());
                    }
                }
                visits += 1;
                let inner_snap = self.cells[idx].snapshot();
                let ghost ls0 = self.spec_cells();
                self.reduce_neighbor(x, y, Direction::North, &inner_snap, &mut queue, &mut report, Ghost(old(self).spec_cells()));
                let ghost ls1 = self.spec_cells();
                self.reduce_neighbor(x, y, Direction::East, &inner_snap, &mut queue, &mut report, Ghost(old(self).spec_cells()));
                let ghost ls2 = self.spec_cells();
                self.reduce_neighbor(x, y, Direction::South, &inner_snap, &mut queue, &mut report, Ghost(old(self).spec_cells()));
                let ghost ls3 = self.spec_cells();
                self.reduce_neighbor(x, y, Direction::West, &inner_snap, &mut queue, &mut report, Ghost(old(self).spec_cells()));
                proof {
                    lemma_num_checked_agree(self.spec_cells(), ls0);
                    lemma_num_checked_bounds(self.spec_cells());
                    assert forall|k: int|
                        0 <= k < cells_before.len() implies #[trigger] subdomain(
                        self.spec_cells()[k].domain(),
                        cells_before[k].domain(),
                    ) by {
                        assert(subdomain(ls1[k].domain(), ls0[k].domain()));
                        assert(subdomain(ls2[k].domain(), ls1[k].domain()));
                        assert(subdomain(ls3[k].domain(), ls2[k].domain()));
                        assert(subdomain(self.spec_cells()[k].domain(), ls3[k].domain()));
                        lemma_subdomain_trans(ls2[k].domain(), ls1[k].domain(), ls0[k].domain());
                        lemma_subdomain_trans(ls3[k].domain(), ls2[k].domain(), ls0[k].domain());
                        lemma_subdomain_trans(
                            self.spec_cells()[k].domain(),
                            ls3[k].domain(),
                            ls0[k].domain(),
                        );
                        assert(ls0[k].domain() == cells_before[k].domain());
                    }
                    let w = old(self).spec_width();
                    let h = old(self).spec_height();
                    let seed_dom = old(self).spec_cells()[min_y * w + min_x].domain();
                    let tbl = old(self).spec_table();
                    assert forall|d: Direction| #[trigger] seed_neighbor_reduced(
                        old(self).spec_cells(),
                        self.spec_cells(),
                        min_x as int,
                        min_y as int,
                        w,
                        h,
                        d,
                        seed_dom,
                        tbl,
                    ) by {
                        assert(seed_neighbor_reduced(
                            old(self).spec_cells(),
                            cells_before,
                            min_x as int,
                            min_y as int,
                            w,
                            h,
                            d,
                            seed_dom,
                            tbl,
                        ));
                        let off = d.spec_offsets();
                        let px = min_x + off.0;
                        let py = min_y + off.1;
                        if 0 <= px < w && 0 <= py < h && !old(self).spec_cells()[py * w
                            + px].spec_is_collapsed() {
                            let pidx = py * w + px;
                            lemma_neighbor_index_facts(min_x as int, min_y as int, w, h, d, d);
                            assert(subdomain(
                                self.spec_cells()[pidx].domain(),
                                cells_before[pidx].domain(),
                            ));
                            lemma_subdomain_trans(
                                self.spec_cells()[pidx].domain(),
                                cells_before[pidx].domain(),
                                filtered(
                                    old(self).spec_cells()[pidx].domain(),
                                    d,
                                    seed_dom,
                                    tbl,
                                ),
                            );
                        }
                    }
                    if table_total(old(self).spec_table()) && (forall|k: int|
                        0 <= k < old(self).spec_cells().len() ==> (#[trigger] old(self).spec_cells()[k]).spec_is_collapsed()
                            || old(self).spec_cells()[k].domain().len() > 1) {
                        assert(inner_snap.domain() == cells_before[idx as int].domain());
                        assert(cells_before[idx as int].domain() == old(
                            self,
                        ).spec_cells()[idx as int].domain());
                        assert(old(self).spec_cells()[idx as int].wf(
                            old(self).spec_tiles().len() as int,
                        ));
                        assert(inner_snap.domain().len() >= 1);
                        assert forall|m: int|
                            0 <= m < inner_snap.domain().len() implies ((
                        #[trigger] inner_snap.domain()[m]) as int) < old(
                            self,
                        ).spec_table().spec_tile_count() by {
                            assert(inner_snap.domain()[m] == old(
                                self,
                            ).spec_cells()[idx as int].domain()[m]);
                        }
                        assert forall|k: int|
                            0 <= k < old(self).spec_cells().len() implies (
                        #[trigger] self.spec_cells()[k]).domain() == old(
                            self,
                        ).spec_cells()[k].domain() && self.spec_cells()[k].spec_is_collapsed()
                            == old(self).spec_cells()[k].spec_is_collapsed() by {
                            if old(self).spec_cells()[k].domain().len() == 1 {
                                assert(old(self).spec_cells()[k].spec_is_collapsed());
                            } else {
                                assert(ls0[k].domain() == cells_before[k].domain());
                                assert(ls0[k].spec_is_collapsed()
                                    == cells_before[k].spec_is_collapsed());
                                assert(cells_before[k].domain() == old(
                                    self,
                                ).spec_cells()[k].domain());
                                assert(ls1[k].domain() == ls0[k].domain());
                                assert(ls2[k].domain() == ls1[k].domain());
                                assert(ls3[k].domain() == ls2[k].domain());
                                assert(self.spec_cells()[k].domain() == ls3[k].domain());
                            }
                        }
                    }
                }
            }
        }
        (report, visits)
    }

    /// One discrete unit of work: select the first lowest-entropy cell,
    /// collapse it, propagate the consequences breadth-first, and recompute
    /// every cell's derived color. A no-op when no cell is eligible.
    /// Collapsed cells never revert and keep their domains; the selected
    /// cell's neighbors end reduced against its collapsed domain; and when
    /// every tile pair is legal, nothing but the selected cell changes.
    pub fn update(&mut self, rng: &mut rand::rngs::StdRng) -> (r: StepReport)
        requires
            old(self).wf(),
        ensures
            final(self).wf(),
            final(self).spec_width() == old(self).spec_width(),
            final(self).spec_height() == old(self).spec_height(),
            final(self).spec_tiles() == old(self).spec_tiles(),
            final(self).spec_table() == old(self).spec_table(),
            final(self).spec_cells().len() == old(self).spec_cells().len(),
            forall|k: int|
                0 <= k < old(self).spec_cells().len() ==> (#[trigger] final(self).spec_cells()[k]).domain().len() <= old(self).spec_cells()[k].domain().len(),
            forall|k: int|
                0 <= k < old(self).spec_cells().len() ==> #[trigger] subdomain(
                    final(self).spec_cells()[k].domain(),
                    old(self).spec_cells()[k].domain(),
                ),
            forall|k: int|
                0 <= k < old(self).spec_cells().len() && (#[trigger] old(self).spec_cells()[k]).spec_is_collapsed() ==> final(self).spec_cells()[k].spec_is_collapsed()
                    && final(self).spec_cells()[k].domain() == old(self).spec_cells()[k].domain(),
            r.visited as int <= old(self).spec_cells().len(),
            r.selected is Some ==> r.visited >= 1,
            (r.selected is None) <==> (forall|k: int|
                0 <= k < old(self).spec_cells().len() ==> !eligible(
                    #[trigger] old(self).spec_cells()[k],
                )),
            r.selected is None ==> *final(self) == *old(self) && r.contradictions@.len() == 0
                && r.visited == 0,
            r.selected matches Some(p) ==> {
                let idx = p.1 * old(self).spec_width() + p.0;
                &&& p.0 < old(self).spec_width()
                &&& p.1 < old(self).spec_height()
                &&& eligible(old(self).spec_cells()[idx])
                &&& forall|k: int|
                    0 <= k < old(self).spec_cells().len() && eligible(
                        #[trigger] old(self).spec_cells()[k],
                    ) ==> old(self).spec_cells()[k].domain().len()
                        >= old(self).spec_cells()[idx].domain().len()
                &&& forall|k: int|
                    0 <= k < idx ==> !eligible(#[trigger] old(self).spec_cells()[k]) || old(
                        self,
                    ).spec_cells()[k].domain().len() > old(self).spec_cells()[idx].domain().len()
                &&& final(self).spec_cells()[idx].spec_is_collapsed()
                &&& final(self).spec_cells()[idx].domain().len() == 1
                &&& old(self).spec_cells()[idx].domain().contains(
                    final(self).spec_cells()[idx].domain()[0],
                )
            },
            r.selected is Some ==> forall|k: int|
                0 <= k < final(self).spec_cells().len() ==> (#[trigger] final(self).spec_cells()[k]).color_spec() == average_color_of(
                    final(self).spec_cells()[k].domain(),
                    final(self).spec_tiles(),
                ),
            r.selected matches Some(p) ==> forall|d: Direction| #[trigger] seed_neighbor_reduced(
                old(self).spec_cells(),
                final(self).spec_cells(),
                p.0 as int,
                p.1 as int,
                old(self).spec_width(),
                old(self).spec_height(),
                d,
                final(self).spec_cells()[p.1 * old(self).spec_width() + p.0].domain(),
                old(self).spec_table(),
            ),
            (table_total(old(self).spec_table()) && (forall|k: int|
                0 <= k < old(self).spec_cells().len() ==> (#[trigger] old(self).spec_cells()[k]).spec_is_collapsed()
                    || old(self).spec_cells()[k].domain().len() > 1)) ==> (r.selected matches Some(p) ==> forall|k: int|
                0 <= k < old(self).spec_cells().len() && k != p.1 * old(self).spec_width() + p.0
                    ==> (#[trigger] final(self).spec_cells()[k]).domain() == old(
                    self,
                ).spec_cells()[k].domain() && final(self).spec_cells()[k].spec_is_collapsed()
                    == old(self).spec_cells()[k].spec_is_collapsed()),
            forall|ri: int|
                0 <= ri < r.contradictions@.len() ==> {
                    let p = #[trigger] r.contradictions@[ri];
                    &&& p.0 < old(self).spec_width()
                    &&& p.1 < old(self).spec_height()
                    &&& p.1 * old(self).spec_width() + p.0 < final(self).spec_cells().len()
                    &&& final(self).spec_cells()[p.1 * old(self).spec_width()
                        + p.0].domain().len() == 0
                },
            forall|k: int|
                0 <= k < old(self).spec_cells().len() && (#[trigger] final(self).spec_cells()[k]).domain().len() == 0 && old(self).spec_cells()[k].domain().len()
                    > 0 ==> reported(r.contradictions@, old(self).spec_width(), k),
    {
        let sel = self.find_next_uncollapsed();
        match sel {
            None => {
                proof {
                    assert forall|k: int|
                        0 <= k < old(self).spec_cells().len() implies #[trigger] subdomain(
                        self.spec_cells()[k].domain(),
                        old(self).spec_cells()[k].domain(),
                    ) by {
                        lemma_subdomain_refl(self.spec_cells()[k].domain());
                    }
                }
                StepReport { selected: None, contradictions: Vec::new(), visited: 0 }
            },
            Some((x, y)) => {
                proof {
                    lemma_row_major_index(
                        x as int,
                        y as int,
                        self.spec_width(),
                        self.spec_height(),
                    );
                }
                self.collapse(x, y, rng);
                let ghost after_collapse = self.spec_cells();
                let (contradictions, visited) = self.propagate(x, y);
                let n = self.cells.len();
                let ghost mid = *self;
                let mut i: usize = 0;
                while i < n
                    invariant
                        self.wf(),
                        self.spec_width() == mid.spec_width(),
                        self.spec_height() == mid.spec_height(),
                        self.spec_tiles() == mid.spec_tiles(),
                        self.spec_table() == mid.spec_table(),
                        n == self.spec_cells().len(),
                        self.spec_cells().len() == mid.spec_cells().len(),
                        i <= n,
                        forall|k: int|
                            0 <= k < n ==> (#[trigger] self.spec_cells()[k]).domain()
                                == mid.spec_cells()[k].domain()
                                && self.spec_cells()[k].spec_is_collapsed()
                                == mid.spec_cells()[k].spec_is_collapsed(),
                        forall|k: int|
                            0 <= k < i ==> (#[trigger] self.spec_cells()[k]).color_spec()
                                == average_color_of(
                                self.spec_cells()[k].domain(),
                                self.spec_tiles(),
                            ),
                    decreases n - i,
                {
                    let c = &mut self.cells[i];
                    c.update_color(&self.tiles);
                    i += 1;
                }
                proof {
                    assert forall|k: int|
                        0 <= k < old(self).spec_cells().len() implies #[trigger] subdomain(
                        self.spec_cells()[k].domain(),
                        old(self).spec_cells()[k].domain(),
                    ) by {
                        lemma_subdomain_trans(
                            mid.spec_cells()[k].domain(),
                            after_collapse[k].domain(),
                            old(self).spec_cells()[k].domain(),
                        );
                        assert(self.spec_cells()[k].domain() == mid.spec_cells()[k].domain());
                    }
                    assert forall|k: int|
                        0 <= k < old(self).spec_cells().len() && (#[trigger] old(
                        self,
                    ).spec_cells()[k]).spec_is_collapsed() implies self.spec_cells()[k].spec_is_collapsed()
                        && self.spec_cells()[k].domain() == old(self).spec_cells()[k].domain() by {
                        assert(after_collapse[k] == old(self).spec_cells()[k]);
                        assert(self.spec_cells()[k].domain() == mid.spec_cells()[k].domain());
                    }
                    let w = old(self).spec_width();
                    let h = old(self).spec_height();
                    let sidx = y * w + x;
                    assert forall|d: Direction| #[trigger] seed_neighbor_reduced(
                        old(self).spec_cells(),
                        self.spec_cells(),
                        x as int,
                        y as int,
                        w,
                        h,
                        d,
                        self.spec_cells()[sidx].domain(),
                        old(self).spec_table(),
                    ) by {
                        assert(seed_neighbor_reduced(
                            after_collapse,
                            mid.spec_cells(),
                            x as int,
                            y as int,
                            w,
                            h,
                            d,
                            after_collapse[sidx].domain(),
                            old(self).spec_table(),
                        ));
                        let off = d.spec_offsets();
                        let px = x + off.0;
                        let py = y + off.1;
                        if 0 <= px < w && 0 <= py < h && !old(self).spec_cells()[py * w
                            + px].spec_is_collapsed() {
                            let pidx = py * w + px;
                            lemma_neighbor_index_facts(x as int, y as int, w, h, d, d);
                            assert(after_collapse[pidx] == old(self).spec_cells()[pidx]);
                            assert(self.spec_cells()[pidx].domain()
                                == mid.spec_cells()[pidx].domain());
                            assert(after_collapse[sidx].domain() == mid.spec_cells()[sidx].domain());
                            assert(self.spec_cells()[sidx].domain()
                                == mid.spec_cells()[sidx].domain());
                        }
                    }
                    if table_total(old(self).spec_table()) && (forall|k: int|
                    0 <= k < old(self).spec_cells().len() ==> (#[trigger] old(self).spec_cells()[k]).spec_is_collapsed()
                        || old(self).spec_cells()[k].domain().len() > 1) {
                        assert forall|k: int|
                            0 <= k < old(self).spec_cells().len() && k != sidx implies (
                        #[trigger] self.spec_cells()[k]).domain() == old(
                            self,
                        ).spec_cells()[k].domain() && self.spec_cells()[k].spec_is_collapsed()
                            == old(self).spec_cells()[k].spec_is_collapsed() by {
                            assert(after_collapse[k] == old(self).spec_cells()[k]);
                            assert(mid.spec_cells()[k].domain() == after_collapse[k].domain()
                                && mid.spec_cells()[k].spec_is_collapsed()
                                == after_collapse[k].spec_is_collapsed());
                            assert(self.spec_cells()[k].domain() == mid.spec_cells()[k].domain());
                        }
                    }
                }
                StepReport { selected: Some((x, y)), contradictions, visited }
            },
        }
    }
}

} // verus!
