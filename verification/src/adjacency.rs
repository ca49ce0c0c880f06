use vstd::prelude::*;

use crate::direction::Direction;
use crate::image::Image;
use vstd::arithmetic::div_mod::{
    lemma_fundamental_div_mod_converse, lemma_mod_bound, lemma_multiply_divide_lt,
};

verus! {

/// For every ordered pair of tile indices and every direction, whether the
/// second tile may legally stand next to the first in that direction.
/// Built once from a tile set; read-only afterward. A lookup outside the
/// tile range counts as "never legal".
pub struct AdjacencyTable {
    tile_count: usize,
    entries: Vec<bool>,
}

/// Entry `e` of a table under construction records the edge-overlap test of
/// the tile pair and direction that `e` decodes to.
pub open spec fn entry_ok(entries: Seq<bool>, tiles: Seq<Image>, e: int) -> bool {
    let tc = tiles.len() as int;
    let j = e % tc;
    let t = e / tc;
    entries[e] == tiles[t / 4].spec_fits(
        tiles[j],
        Direction::spec_from_index(t % 4).spec_offsets(),
    )
}

impl AdjacencyTable {
    pub closed spec fn spec_tile_count(self) -> int {
        self.tile_count as int
    }

    pub closed spec fn wf(self) -> bool {
        self.entries@.len() == 4 * self.tile_count * self.tile_count
    }

    /// Whether tile `j` may be placed in direction `dir` from tile `i`.
    /// The entry for `(i, dir, j)` sits at slot `(i * 4 + dir) * tile_count + j`.
    pub closed spec fn spec_allows(self, i: int, dir: Direction, j: int) -> bool {
        &&& 0 <= i < self.tile_count
        &&& 0 <= j < self.tile_count
        &&& self.entries@[(i * 4 + dir.spec_dir_index()) * self.tile_count + j]
    }

    pub fn tile_count(&self) -> (r: usize)
        ensures
            r as int == self.spec_tile_count(),
    {
        self.tile_count
    }

    pub fn allows(&self, i: usize, dir: Direction, j: usize) -> (r: bool)
        requires
            self.wf(),
        ensures
            r == self.spec_allows(i as int, dir, j as int),
    {
        if i < self.tile_count && j < self.tile_count {
            // a Vec's length fits in usize, which bounds the index computation below
            let len = self.entries.len();
            let d = dir.dir_index();
            proof {
                let tc = self.tile_count as int;
                assert((i * 4 + d) * tc + j < 4 * tc * tc && 0 <= (i * 4 + d) * tc + j && i * 4 + d
                    < 4 * tc && 4 * tc <= 4 * tc * tc) by (nonlinear_arith)
                    requires
                        0 <= (i as int) && (i as int) < tc,
                        0 <= (j as int) && (j as int) < tc,
                        0 <= d < 4,
                ;
            }
            self.entries[(i * 4 + d) * self.tile_count + j]
        } else {
            false
        }
    }
}

/// Every in-range pair of tiles is legal in every direction.
pub open spec fn table_total(table: AdjacencyTable) -> bool {
    forall|i: int, d: Direction, j: int|
        0 <= i < table.spec_tile_count() && 0 <= j < table.spec_tile_count()
            ==> #[trigger] table.spec_allows(i, d, j)
}

/// Compute the whole adjacency table: entry `(i, dir, j)` holds the result of
/// the edge-overlap test for placing tile `j` in direction `dir` from tile `i`.
pub fn compute_adjacencies(tiles: &Vec<Image>) -> (r: AdjacencyTable)
    requires
        4 * tiles@.len() * tiles@.len() <= usize::MAX,
        forall|t: int|
            0 <= t < tiles@.len() ==> (#[trigger] tiles@[t]).wf() && tiles@[t].width >= 1
                && tiles@[t].height >= 1,
        forall|t1: int, t2: int|
            0 <= t1 < tiles@.len() && 0 <= t2 < tiles@.len() ==> (#[trigger] tiles@[t1].same_dims(
                tiles@[t2],
            )),
    ensures
        r.wf(),
        r.spec_tile_count() == tiles@.len(),
        forall|i: int, dir: Direction, j: int|
            0 <= i < tiles@.len() && 0 <= j < tiles@.len() ==> #[trigger] r.spec_allows(i, dir, j)
                == tiles@[i].spec_fits(tiles@[j], dir.spec_offsets()),
        forall|i: int, dir: Direction, j: int|
            #[trigger] r.spec_allows(i, dir, j) ==> 0 <= i < tiles@.len() && 0 <= j < tiles@.len(),
{
    let tc = tiles.len();
    proof {
        assert((tc as int) * (tc as int) <= 4 * (tc as int) * (tc as int) && 4 * ((tc as int) * (
        tc as int)) == 4 * (tc as int) * (tc as int)) by (nonlinear_arith)
            requires
                0 <= (tc as int),
        ;
    }
    let total = 4 * (tc * tc);
    let mut entries: Vec<bool> = Vec::new();
    let mut e: usize = 0;
    while e < total
        invariant
            total == 4 * (tc as int) * (tc as int),
            tc == tiles@.len(),
            forall|t: int|
                0 <= t < tiles@.len() ==> (#[trigger] tiles@[t]).wf() && tiles@[t].width >= 1
                    && tiles@[t].height >= 1,
            forall|t1: int, t2: int|
                0 <= t1 < tiles@.len() && 0 <= t2 < tiles@.len() ==> (
                #[trigger] tiles@[t1].same_dims(tiles@[t2])),
            e <= total,
            entries@.len() == e,
            forall|e2: int| 0 <= e2 < e ==> entry_ok(entries@, tiles@, e2),
        decreases total - e,
    {
        proof {
            assert(tc >= 1) by (nonlinear_arith)
                requires
                    4 * (tc as int) * (tc as int) >= 1,
            ;
            lemma_mod_bound(e as int, tc as int);
            assert((e as int) < (tc as int) * (4 * (tc as int))) by (nonlinear_arith)
                requires
                    (e as int) < 4 * (tc as int) * (tc as int),
            ;
            lemma_multiply_divide_lt(e as int, tc as int, 4 * (tc as int));
            lemma_mod_bound((e as int) / (tc as int), 4);
            assert(((e as int) / (tc as int)) / 4 < (tc as int)) by (nonlinear_arith)
                requires
                    (e as int) / (tc as int) < 4 * (tc as int),
                    (e as int) / (tc as int) >= 0,
            ;
        }
        let j = e % tc;
        let t = e / tc;
        let d = t % 4;
        let i = t / 4;
        let dir = Direction::from_index(d);
        let fit = tiles[i].fits(&tiles[j], dir.offsets());
        let ghost old_entries = entries@;
        entries.push(fit);
        proof {
            assert forall|e2: int| 0 <= e2 < e + 1 implies entry_ok(entries@, tiles@, e2) by {
                if e2 < e {
                    assert(entries@[e2] == old_entries[e2]);
                    assert(entry_ok(old_entries, tiles@, e2));
                }
            }
        }
        e += 1;
    }
    let r = AdjacencyTable { tile_count: tc, entries };
    proof {
        assert forall|i: int, dir: Direction, j: int|
            0 <= i < tiles@.len() && 0 <= j < tiles@.len() implies #[trigger] r.spec_allows(
            i,
            dir,
            j,
        ) == tiles@[i].spec_fits(tiles@[j], dir.spec_offsets()) by {
            let tci = tc as int;
            let sd = dir.spec_dir_index();
            let t = i * 4 + sd;
            let slot = t * tci + j;
            assert(0 <= sd < 4);
            assert(0 <= slot < 4 * tci * tci && 0 <= t < 4 * tci) by (nonlinear_arith)
                requires
                    0 <= i < tci,
                    0 <= j < tci,
                    0 <= sd < 4,
                    t == i * 4 + sd,
                    slot == t * tci + j,
            ;
            lemma_fundamental_div_mod_converse(slot, tci, t, j);
            lemma_fundamental_div_mod_converse(t, 4, i, sd);
            assert(entry_ok(r.entries@, tiles@, slot));
            assert(Direction::spec_from_index(sd) == dir);
        }
    }
    r
}

} // verus!
