use vstd::prelude::*;

use crate::adjacency::AdjacencyTable;
use crate::color::{magenta, peach, Rgba};
use crate::direction::Direction;
use crate::image::Image;
use crate::rng::gen_index;

verus! {

/// One grid position: the set of tile indices still possible there (its
/// "domain"), a collapsed flag, a per-propagation-pass visited marker, and a
/// derived display color.
pub struct Cell {
    options: Vec<usize>,
    collapsed: bool,
    checked: bool,
    color: Rgba,
}

/// Tile index `x` survives a reduction against a neighbor's domain iff some
/// surviving neighbor tile accepts it in the given direction.
pub open spec fn keeps(
    x: usize,
    dir: Direction,
    neighbor: Seq<usize>,
    table: AdjacencyTable,
) -> bool {
    exists|k: int|
        0 <= k < neighbor.len() && #[trigger] table.spec_allows(x as int, dir, neighbor[k] as int)
}

/// The domain members that survive a reduction against `neighbor`, in order.
pub open spec fn filtered(
    domain: Seq<usize>,
    dir: Direction,
    neighbor: Seq<usize>,
    table: AdjacencyTable,
) -> Seq<usize> {
    domain.filter(|x: usize| keeps(x, dir, neighbor, table))
}

/// Every member of domain `a` also occurs in domain `b`: reductions only
/// ever remove tiles, they never add one back.
pub open spec fn subdomain(a: Seq<usize>, b: Seq<usize>) -> bool {
    forall|m: int| 0 <= m < a.len() ==> b.contains(#[trigger] a[m])
}

pub proof fn lemma_subdomain_refl(a: Seq<usize>)
    ensures
        subdomain(a, a),
{
    assert forall|m: int| 0 <= m < a.len() implies a.contains(#[trigger] a[m]) by {
        assert(a[m] == a[m]);
    }
}

/// Monotonicity composes: across any sequence of reductions and collapses,
/// a domain only ever loses members, never regains one.
pub proof fn lemma_subdomain_trans(a: Seq<usize>, b: Seq<usize>, c: Seq<usize>)
    requires
        subdomain(a, b),
        subdomain(b, c),
    ensures
        subdomain(a, c),
{
    assert forall|m: int| 0 <= m < a.len() implies c.contains(#[trigger] a[m]) by {
        assert(b.contains(a[m]));
        let w = choose|w: int| 0 <= w < b.len() && b[w] == a[m];
        assert(c.contains(b[w]));
    }
}

/// Every element of a filtered sequence occurs in the original.
pub proof fn lemma_filter_subset<A>(s: Seq<A>, pred: spec_fn(A) -> bool)
    ensures
        forall|k: int| 0 <= k < s.filter(pred).len() ==> s.contains(#[trigger] s.filter(pred)[k]),
    decreases s.len(),
{
    reveal(Seq::filter);
    if s.len() > 0 {
        lemma_filter_subset(s.drop_last(), pred);
        let f = s.filter(pred);
        let fd = s.drop_last().filter(pred);
        assert forall|k: int| 0 <= k < f.len() implies s.contains(#[trigger] f[k]) by {
            if k < fd.len() {
                assert(s.drop_last().contains(fd[k]));
                let w = choose|w: int|
                    0 <= w < s.drop_last().len() && s.drop_last()[w] == fd[k];
                assert(s[w] == f[k]);
            } else {
                assert(f[k] == s.last());
                assert(s[s.len() - 1] == f[k]);
            }
        }
    }
}

/// Filtering keeps a sequence whole when every element passes.
pub proof fn lemma_filter_all_kept<A>(s: Seq<A>, pred: spec_fn(A) -> bool)
    requires
        forall|i: int| 0 <= i < s.len() ==> pred(#[trigger] s[i]),
    ensures
        s.filter(pred) == s,
    decreases s.len(),
{
    reveal(Seq::filter);
    if s.len() > 0 {
        lemma_filter_all_kept(s.drop_last(), pred);
        assert(s.filter(pred) =~= s);
    }
}

/// Against a total adjacency table, a reduction removes nothing: any
/// nonempty neighbor domain accepts every domain member.
pub proof fn lemma_filtered_total(
    domain: Seq<usize>,
    dir: Direction,
    neighbor: Seq<usize>,
    table: AdjacencyTable,
)
    requires
        crate::adjacency::table_total(table),
        neighbor.len() >= 1,
        forall|m: int|
            0 <= m < neighbor.len() ==> ((#[trigger] neighbor[m]) as int)
                < table.spec_tile_count(),
        forall|m: int|
            0 <= m < domain.len() ==> ((#[trigger] domain[m]) as int) < table.spec_tile_count(),
    ensures
        filtered(domain, dir, neighbor, table) == domain,
{
    let pred = |x: usize| keeps(x, dir, neighbor, table);
    assert forall|i: int| 0 <= i < domain.len() implies pred(#[trigger] domain[i]) by {
        assert(table.spec_allows(domain[i] as int, dir, neighbor[0] as int));
    }
    lemma_filter_all_kept(domain, pred);
}

/// Filtering never introduces a duplicate.
pub proof fn lemma_filter_unique<A>(s: Seq<A>, pred: spec_fn(A) -> bool)
    requires
        forall|i: int, j: int| 0 <= i < j < s.len() ==> s[i] != s[j],
    ensures
        forall|i: int, j: int|
            0 <= i < j < s.filter(pred).len() ==> s.filter(pred)[i] != s.filter(pred)[j],
    decreases s.len(),
{
    reveal(Seq::filter);
    if s.len() > 0 {
        lemma_filter_unique(s.drop_last(), pred);
        let f = s.filter(pred);
        let fd = s.drop_last().filter(pred);
        if pred(s.last()) {
            lemma_filter_subset(s.drop_last(), pred);
            assert forall|i: int, j: int| 0 <= i < j < f.len() implies f[i] != f[j] by {
                if j == fd.len() {
                    assert(f[j] == s.last());
                    assert(s.drop_last().contains(fd[i]));
                    let w = choose|w: int|
                        0 <= w < s.drop_last().len() && s.drop_last()[w] == fd[i];
                    assert(s[w] == fd[i]);
                    assert(s[w] != s[s.len() - 1]);
                }
            }
        }
    }
}

/// Sum of the red channel of the representative (center) colors of the tiles
/// a domain names.
pub open spec fn sum_r(domain: Seq<usize>, tiles: Seq<Image>) -> int
    decreases domain.len(),
{
    if domain.len() == 0 {
        0
    } else {
        sum_r(domain.drop_last(), tiles) + tiles[domain.last() as int].center_color().r
    }
}

/// Sum of the green channel, as `sum_r`.
pub open spec fn sum_g(domain: Seq<usize>, tiles: Seq<Image>) -> int
    decreases domain.len(),
{
    if domain.len() == 0 {
        0
    } else {
        sum_g(domain.drop_last(), tiles) + tiles[domain.last() as int].center_color().g
    }
}

/// Sum of the blue channel, as `sum_r`.
pub open spec fn sum_b(domain: Seq<usize>, tiles: Seq<Image>) -> int
    decreases domain.len(),
{
    if domain.len() == 0 {
        0
    } else {
        sum_b(domain.drop_last(), tiles) + tiles[domain.last() as int].center_color().b
    }
}

/// The derived display color of a domain: the channel-wise mean of the
/// representative colors of its surviving tiles, or the sentinel color when
/// the domain is empty (a contradiction).
pub open spec fn average_color_of(domain: Seq<usize>, tiles: Seq<Image>) -> Rgba {
    if domain.len() == 0 {
        magenta()
    } else {
        let n = domain.len() as int;
        Rgba {
            r: (sum_r(domain, tiles) / n) as u8,
            g: (sum_g(domain, tiles) / n) as u8,
            b: (sum_b(domain, tiles) / n) as u8,
            a: 255,
        }
    }
}

impl Cell {
    /// The surviving tile indices, in their retained order.
    pub closed spec fn domain(self) -> Seq<usize> {
        self.options@
    }

    pub closed spec fn spec_is_collapsed(self) -> bool {
        self.collapsed
    }

    pub closed spec fn color_spec(self) -> Rgba {
        self.color
    }

    /// The per-propagation-pass visited marker.
    pub closed spec fn spec_checked(self) -> bool {
        self.checked
    }

    /// Well-formed against a tile set of `tile_count` tiles: every surviving
    /// index names a tile and occurs once, the domain never exceeds the tile
    /// set, and a collapsed cell holds exactly one index.
    pub open spec fn wf(self, tile_count: int) -> bool {
        &&& self.domain().len() <= tile_count
        &&& forall|k: int| 0 <= k < self.domain().len() ==> (#[trigger] self.domain()[k]) < tile_count
        &&& forall|i: int, j: int|
            0 <= i < j < self.domain().len() ==> self.domain()[i] != self.domain()[j]
        &&& self.spec_is_collapsed() ==> self.domain().len() == 1
    }

    /// A collapsed cell always holds exactly one surviving tile index.
    pub proof fn lemma_collapsed_singleton(self, tile_count: int)
        requires
            self.wf(tile_count),
            self.spec_is_collapsed(),
        ensures
            self.domain().len() == 1,
    {
    }

    /// A fresh cell whose domain is the full tile-index range, in order.
    pub fn new(option_count: usize) -> (c: Cell)
        ensures
            c.wf(option_count as int),
            c.domain().len() == option_count,
            forall|k: int| 0 <= k < option_count ==> (#[trigger] c.domain()[k]) as int == k,
            !c.spec_is_collapsed(),
            !c.spec_checked(),
            c.color_spec() == peach(),
    {
        let mut options: Vec<usize> = Vec::new();
        let mut i: usize = 0;
        while i < option_count
            invariant
                i <= option_count,
                options@.len() == i,
                forall|k: int| 0 <= k < i ==> (#[trigger] options@[k]) as int == k,
            decreases option_count - i,
        {
            options.push(i);
            i += 1;
        }
        Cell { options, collapsed: false, checked: false, color: Rgba { r: 255, g: 218, b: 185, a: 255 } }
    }

    pub fn checked(&self) -> (r: bool)
        ensures
            r == self.spec_checked(),
    {
        self.checked
    }

    pub fn set_checked(&mut self, v: bool)
        ensures
            final(self).spec_checked() == v,
            final(self).domain() == old(self).domain(),
            final(self).spec_is_collapsed() == old(self).spec_is_collapsed(),
            final(self).color_spec() == old(self).color_spec(),
    {
        self.checked = v;
    }

    pub fn is_collapsed(&self) -> (r: bool)
        ensures
            r == self.spec_is_collapsed(),
    {
        self.collapsed
    }

    pub fn option_count(&self) -> (r: usize)
        ensures
            r as int == self.domain().len(),
    {
        self.options.len()
    }

    /// The surviving tile indices, for callers that need to inspect them.
    pub fn options(&self) -> (r: &Vec<usize>)
        ensures
            r@ == self.domain(),
    {
        &self.options
    }

    /// The current derived display color.
    pub fn average_color(&self) -> (r: Rgba)
        ensures
            r == self.color_spec(),
    {
        self.color
    }

    /// An owned copy of this cell, so that a neighbor can be reduced against
    /// it while the grid is borrowed mutably.
    pub fn snapshot(&self) -> (c: Cell)
        ensures
            c.domain() == self.domain(),
            c.spec_is_collapsed() == self.spec_is_collapsed(),
            c.spec_checked() == self.spec_checked(),
            c.color_spec() == self.color_spec(),
    {
        let mut options: Vec<usize> = Vec::new();
        let n = self.options.len();
        let mut i: usize = 0;
        while i < n
            invariant
                i <= n,
                n == self.options@.len(),
                options@.len() == i,
                forall|k: int| 0 <= k < i ==> options@[k] == self.options@[k],
            decreases n - i,
        {
            options.push(self.options[i]);
            i += 1;
        }
        proof {
            assert(options@ =~= self.options@);
        }
        Cell { options, collapsed: self.collapsed, checked: self.checked, color: self.color }
    }

    /// Recompute the derived display color from the tiles the domain still
    /// names: the sentinel color for an empty domain, otherwise the mean of
    /// the surviving tiles' center pixels.
    pub fn update_color(&mut self, tiles: &Vec<Image>)
        requires
            forall|k: int|
                0 <= k < old(self).domain().len() ==> ((#[trigger] old(self).domain()[k]) as int)
                    < tiles@.len(),
            forall|t: int|
                0 <= t < tiles@.len() ==> (#[trigger] tiles@[t]).wf() && tiles@[t].width >= 1
                    && tiles@[t].height >= 1,
            255 * old(self).domain().len() <= u32::MAX,
        ensures
            final(self).domain() == old(self).domain(),
            final(self).spec_is_collapsed() == old(self).spec_is_collapsed(),
            final(self).spec_checked() == old(self).spec_checked(),
            final(self).color_spec() == average_color_of(old(self).domain(), tiles@),
    {
        let n = self.options.len();
        if n == 0 {
            self.color = Rgba { r: 255, g: 0, b: 255, a: 255 };
            return ;
        }
        let mut r: u32 = 0;
        let mut g: u32 = 0;
        let mut b: u32 = 0;
        let mut i: usize = 0;
        while i < n
            invariant
                *self == *old(self),
                forall|k: int|
                    0 <= k < old(self).domain().len() ==> ((#[trigger] old(self).domain()[k]) as int)
                        < tiles@.len(),
                forall|t: int|
                    0 <= t < tiles@.len() ==> (#[trigger] tiles@[t]).wf() && tiles@[t].width >= 1
                        && tiles@[t].height >= 1,
                255 * old(self).domain().len() <= u32::MAX,
                n == self.options@.len(),
                i <= n,
                r as int == sum_r(self.options@.take(i as int), tiles@),
                g as int == sum_g(self.options@.take(i as int), tiles@),
                b as int == sum_b(self.options@.take(i as int), tiles@),
                r <= 255 * i,
                g <= 255 * i,
                b <= 255 * i,
            decreases n - i,
        {
            let idx = self.options[i];
            let tile = &tiles[idx];
            let mx = tile.width / 2;
            let my = tile.height / 2;
            let c = tile.pixel_at(mx, my);
            r = r + c.r as u32;
            g = g + c.g as u32;
            b = b + c.b as u32;
            proof {
                let opts = self.options@;
                assert(opts.take(i + 1).drop_last() =~= opts.take(i as int));
                assert(opts.take(i + 1).last() == opts[i as int]);
                assert(c == tiles@[idx as int].center_color());
            }
            i += 1;
        }
        proof {
            assert(self.options@.take(n as int) =~= self.options@);
        }
        let nn = n as u32;
        proof {
            assert((r as int) / (nn as int) <= 255 && (g as int) / (nn as int) <= 255 && (
            b as int) / (nn as int) <= 255 && (r as int) / (nn as int) >= 0 && (g as int) / (
            nn as int) >= 0 && (b as int) / (nn as int) >= 0) by (nonlinear_arith)
                requires
                    (r as int) <= 255 * (nn as int),
                    (g as int) <= 255 * (nn as int),
                    (b as int) <= 255 * (nn as int),
                    r >= 0,
                    g >= 0,
                    b >= 0,
                    nn >= 1,
            ;
        }
        self.color = Rgba { r: (r / nn) as u8, g: (g / nn) as u8, b: (b / nn) as u8, a: 255 };
    }

    /// Force the domain to one surviving index, drawn from the generator.
    /// A collapsed cell is left untouched, so a second collapse is a no-op.
    pub fn collapse(&mut self, rng: &mut rand::rngs::StdRng)
        requires
            old(self).spec_is_collapsed() || old(self).domain().len() >= 1,
        ensures
            final(self).domain().len() <= old(self).domain().len(),
            subdomain(final(self).domain(), old(self).domain()),
            old(self).spec_is_collapsed() ==> *final(self) == *old(self),
            !old(self).spec_is_collapsed() ==> final(self).spec_is_collapsed()
                && final(self).domain().len() == 1 && old(self).domain().contains(
                final(self).domain()[0],
            ) && final(self).spec_checked() == old(self).spec_checked() && final(self).color_spec() == old(
                self,
            ).color_spec(),
            forall|tc: int| #![all_triggers] old(self).wf(tc) ==> final(self).wf(tc),
    {
        if self.collapsed {
            proof {
                lemma_subdomain_refl(self.domain());
            }
            return ;
        }
        let idx = gen_index(rng, self.options.len());
        let chosen = self.options[idx];
        let mut single: Vec<usize> = Vec::new();
        single.push(chosen);
        self.options = single;
        self.collapsed = true;
        proof {
            assert(old(self).domain()[idx as int] == chosen);
            assert forall|m: int|
                0 <= m < self.domain().len() implies old(self).domain().contains(
                #[trigger] self.domain()[m],
            ) by {
                assert(old(self).domain()[idx as int] == self.domain()[m]);
            }
        }
    }

    /// Keep only the domain members that some surviving member of the
    /// neighbor's domain accepts in direction `dir`. A collapsed cell is
    /// immutable; a cell whose domain shrinks to one becomes collapsed.
    pub fn reduce_options(&mut self, other: &Cell, dir: Direction, adjacencies: &AdjacencyTable)
        requires
            adjacencies.wf(),
        ensures
            final(self).domain().len() <= old(self).domain().len(),
            old(self).spec_is_collapsed() ==> *final(self) == *old(self),
            !old(self).spec_is_collapsed() ==> final(self).domain() == filtered(
                old(self).domain(),
                dir,
                other.domain(),
                *adjacencies,
            ) && (final(self).spec_is_collapsed() <==> final(self).domain().len() == 1),
            final(self).spec_checked() == old(self).spec_checked(),
            final(self).color_spec() == old(self).color_spec(),
            subdomain(final(self).domain(), old(self).domain()),
            forall|tc: int| #![all_triggers] old(self).wf(tc) ==> final(self).wf(tc),
    {
        if self.collapsed {
            proof {
                lemma_subdomain_refl(self.domain());
            }
            return ;
        }
        let n = self.options.len();
        let mut kept: Vec<usize> = Vec::new();
        let mut i: usize = 0;
        while i < n
            invariant
                adjacencies.wf(),
                *self == *old(self),
                !self.spec_is_collapsed(),
                n == self.options@.len(),
                i <= n,
                kept@ == filtered(self.options@.take(i as int), dir, other.domain(), *adjacencies),
            decreases n - i,
        {
            let x = self.options[i];
            let keep = any_compatible(x, other, dir, adjacencies);
            proof {
                let opts = self.options@;
                let pred = |xx: usize| keeps(xx, dir, other.domain(), *adjacencies);
                opts.lemma_take_succ_push(i as int);
                Seq::lemma_filter_push(opts.take(i as int), x, pred);
            }
            if keep {
                kept.push(x);
            }
            i += 1;
        }
        proof {
            assert(self.options@.take(n as int) =~= self.options@);
            let pred = |xx: usize| keeps(xx, dir, other.domain(), *adjacencies);
            self.options@.lemma_filter_len(pred);
            lemma_filter_subset(self.options@, pred);
            if forall|i: int, j: int|
                0 <= i < j < self.options@.len() ==> self.options@[i] != self.options@[j] {
                lemma_filter_unique(self.options@, pred);
            }
        }
        self.options = kept;
        if self.options.len() == 1 {
            self.collapsed = true;
        }
    }
}

/// Whether some member of the neighbor cell's domain accepts tile `x` in
/// direction `dir`.
fn any_compatible(x: usize, other: &Cell, dir: Direction, table: &AdjacencyTable) -> (r: bool)
    requires
        table.wf(),
    ensures
        r == keeps(x, dir, other.domain(), *table),
{
    let n = other.options.len();
    let mut k: usize = 0;
    while k < n
        invariant
            table.wf(),
            n == other.options@.len(),
            k <= n,
            forall|k2: int|
                0 <= k2 < k ==> !table.spec_allows(x as int, dir, (#[trigger] other.options@[k2]) as int),
        decreases n - k,
    {
        if table.allows(x, dir, other.options[k]) {
            return true;
        }
        k += 1;
    }
    false
}

} // verus!
