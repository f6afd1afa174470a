//! The grid and its collapse/propagate engine.
//!
//! A `World` owns a `width x height` grid of cells, the tile-type registry,
//! a seedable random source, and the open set: the positions still eligible
//! for collapse. `step` pops a random open position, collapses it, propagates
//! the adjacency constraints outward until the grid is consistent again, and
//! queues the collapsed cell's uncollapsed neighbors.

use vstd::prelude::*;

use crate::bits::bit128;
use crate::bits::count_bits;
use crate::bits::full_wave;
use crate::bits::lemma_full_wave;
use crate::bits::wave_in_range;
use crate::bits::wave_subset;
use crate::tile::allowed_spec;
use crate::tile::Tile;
use crate::tile::TileType;

verus! {

/// A grid position.
#[derive(Clone, Copy, PartialEq, Eq, Structural)]
pub struct Point {
    pub x: usize,
    pub y: usize,
}

/// The errors the engine can report.
#[derive(Clone, Copy, Debug, PartialEq, Eq, Structural)]
pub enum GridError {
    /// The tile-type count lies outside `1 ..= 128`.
    Config,
    /// Propagation emptied a cell's wave: the rule set is unsatisfiable here.
    Contradiction,
}

/// Number of collapsed cells among the first `n` of `s`.
pub open spec fn collapsed_count_rec(s: Seq<Tile>, n: int) -> int
    decreases n,
{
    if n <= 0 {
        0
    } else {
        collapsed_count_rec(s, n - 1) + (if s[n - 1].collapsed {
            1int
        } else {
            0int
        })
    }
}

proof fn lemma_cc_bounds(s: Seq<Tile>, n: int)
    requires
        n >= 0,
    ensures
        0 <= collapsed_count_rec(s, n) <= n,
    decreases n,
{
    if n > 0 {
        lemma_cc_bounds(s, n - 1);
    }
}

proof fn lemma_cc_pointwise(s1: Seq<Tile>, s2: Seq<Tile>, n: int)
    requires
        forall|j: int| 0 <= j < n ==> s1[j].collapsed == s2[j].collapsed,
    ensures
        collapsed_count_rec(s1, n) == collapsed_count_rec(s2, n),
    decreases n,
{
    if n > 0 {
        lemma_cc_pointwise(s1, s2, n - 1);
    }
}

proof fn lemma_cc_update(s: Seq<Tile>, j: int, t: Tile, n: int)
    requires
        0 <= j < n <= s.len(),
        t.collapsed,
        !s[j].collapsed,
    ensures
        collapsed_count_rec(s.update(j, t), n) == collapsed_count_rec(s, n) + 1,
    decreases n,
{
    if n - 1 == j {
        lemma_cc_pointwise(s.update(j, t), s, n - 1);
    } else {
        lemma_cc_update(s, j, t, n - 1);
    }
}

proof fn lemma_cc_zero(s: Seq<Tile>, n: int)
    requires
        forall|j: int| 0 <= j < n ==> !s[j].collapsed,
    ensures
        collapsed_count_rec(s, n) == 0,
    decreases n,
{
    if n > 0 {
        lemma_cc_zero(s, n - 1);
    }
}

proof fn lemma_idx_bounds(x: int, y: int, w: int, h: int)
    by (nonlinear_arith)
    requires
        0 <= x < w,
        0 <= y < h,
    ensures
        0 <= x * h + y < w * h,
{
}

proof fn lemma_idx_injective(x1: int, y1: int, x2: int, y2: int, h: int)
    by (nonlinear_arith)
    requires
        0 <= y1 < h,
        0 <= y2 < h,
        x1 >= 0,
        x2 >= 0,
        x1 * h + y1 == x2 * h + y2,
    ensures
        x1 == x2,
        y1 == y2,
{
}

proof fn lemma_multiple_gap(a: int, b: int, s: int)
    requires
        s >= 1,
        a % s == 0,
        b % s == 0,
        a < b,
    ensures
        a + s <= b,
{
    let qa = a / s;
    let qb = b / s;
    vstd::arithmetic::div_mod::lemma_fundamental_div_mod(a, s);
    vstd::arithmetic::div_mod::lemma_fundamental_div_mod(b, s);
    assert(qa < qb) by (nonlinear_arith)
        requires
            s >= 1,
            a == s * qa,
            b == s * qb,
            a < b,
    ;
    assert(s * qa + s <= s * qb) by (nonlinear_arith)
        requires
            s >= 1,
            qa < qb,
    ;
}

/// Orthogonal adjacency of two grid positions.
pub open spec fn orth_adjacent(ax: int, ay: int, bx: int, by: int) -> bool {
    (ax == bx && (ay == by + 1 || by == ay + 1)) || (ay == by && (ax == bx + 1 || bx == ax + 1))
}

/// A lattice seed point: in bounds, both coordinates multiples of `stride`.
pub open spec fn lattice_pt(p: Point, size: (usize, usize), stride: usize) -> bool {
    &&& (p.x as int) < size.0
    &&& (p.y as int) < size.1
    &&& p.x as int % (stride as int) == 0
    &&& p.y as int % (stride as int) == 0
}

/// The grid: its cells, the tile-type registry, the random source, and the
/// open set of positions eligible for collapse.
pub struct World {
    size: (usize, usize),
    tiles: Vec<Tile>,
    tile_types: Vec<TileType>,
    types: u8,
    rng: rand::rngs::StdRng,
    collapse_options: Vec<Point>,
}

impl World {
    pub closed spec fn spec_width(self) -> int {
        self.size.0 as int
    }

    pub closed spec fn spec_height(self) -> int {
        self.size.1 as int
    }

    pub closed spec fn spec_types(self) -> Seq<TileType> {
        self.tile_types@
    }

    /// The `types` field caches the registry's length.
    pub closed spec fn types_ok(self) -> bool {
        self.types == self.spec_types().len()
    }

    /// The state of the random source, as an opaque value: contracts use it
    /// only to say that an operation left the random stream alone.
    pub closed spec fn rng_state(self) -> rand::rngs::StdRng {
        self.rng
    }

    pub open spec fn type_count(self) -> int {
        self.spec_types().len() as int
    }

    pub open spec fn idx_of(self, x: int, y: int) -> int {
        x * self.spec_height() + y
    }

    pub closed spec fn tile_seq(self) -> Seq<Tile> {
        self.tiles@
    }

    pub open spec fn tile_at(self, x: int, y: int) -> Tile {
        self.tile_seq()[self.idx_of(x, y)]
    }

    pub open spec fn wave_of(self, x: int, y: int) -> u128 {
        self.tile_at(x, y).wave
    }

    pub open spec fn collapsed_of(self, x: int, y: int) -> bool {
        self.tile_at(x, y).collapsed
    }

    pub open spec fn in_bounds(self, x: int, y: int) -> bool {
        0 <= x < self.spec_width() && 0 <= y < self.spec_height()
    }

    pub closed spec fn open_set(self) -> Seq<Point> {
        self.collapse_options@
    }

    pub open spec fn open_len(self) -> int {
        self.open_set().len() as int
    }

    /// The cell an open-set entry points at.
    pub open spec fn open_tile(self, k: int) -> Tile {
        self.tile_at(self.open_set()[k].x as int, self.open_set()[k].y as int)
    }

    /// How many cells are collapsed.
    pub open spec fn collapsed_count(self) -> int {
        collapsed_count_rec(self.tile_seq(), self.tile_seq().len() as int)
    }

    /// A well-formed cell: a nonempty wave within the tile-type range,
    /// a singleton wave once collapsed.
    pub open spec fn tile_wf(t: Tile, types: int) -> bool {
        &&& count_bits(t.wave) >= 1
        &&& (t.collapsed ==> count_bits(t.wave) == 1)
        &&& wave_in_range(t.wave, types)
    }

    /// An open-set entry: in bounds and not yet collapsed.
    pub open spec fn open_ok(self, p: Point) -> bool {
        &&& self.in_bounds(p.x as int, p.y as int)
        &&& !self.collapsed_of(p.x as int, p.y as int)
    }

    /// Well-formedness of the whole grid.
    pub open spec fn wf(self) -> bool {
        &&& self.spec_width() >= 1
        &&& self.spec_height() >= 1
        &&& self.spec_width() * self.spec_height() <= usize::MAX
        &&& self.tile_seq().len() == self.spec_width() * self.spec_height()
        &&& 1 <= self.type_count() <= 128
        &&& self.types_ok()
        &&& forall|j: int|
            0 <= j < self.tile_seq().len() ==> Self::tile_wf(
                #[trigger] self.tile_seq()[j],
                self.type_count(),
            )
        &&& forall|k: int| 0 <= k < self.open_len() ==> self.open_ok(#[trigger] self.open_set()[k])
        &&& forall|k1: int, k2: int|
            0 <= k1 < k2 < self.open_len() ==> self.open_set()[k1] != self.open_set()[k2]
    }

    /// The allowed-neighbor mask of the cell at `(x, y)`.
    pub open spec fn allowed_of(self, x: int, y: int) -> u128 {
        allowed_spec(self.wave_of(x, y), self.spec_types())
    }

    /// The edge from `(x, y)` to `(nx, ny)` is stable: the neighbor's wave
    /// already lies inside the mask allowed by `(x, y)`.
    pub open spec fn edge_stable(self, x: int, y: int, nx: int, ny: int) -> bool {
        self.wave_of(nx, ny) & self.allowed_of(x, y) == self.wave_of(nx, ny)
    }

    /// All edges out of `(x, y)` are stable.
    pub open spec fn stable_at(self, x: int, y: int) -> bool {
        &&& (x > 0 ==> self.edge_stable(x, y, x - 1, y))
        &&& (x < self.spec_width() - 1 ==> self.edge_stable(x, y, x + 1, y))
        &&& (y > 0 ==> self.edge_stable(x, y, x, y - 1))
        &&& (y < self.spec_height() - 1 ==> self.edge_stable(x, y, x, y + 1))
    }

    /// Every edge of the grid is stable: propagation has nothing to do.
    pub open spec fn stabilized(self) -> bool {
        forall|x: int, y: int| self.in_bounds(x, y) ==> #[trigger] self.stable_at(x, y)
    }

    pub fn width(&self) -> (r: usize)
        ensures
            r == self.spec_width(),
    {
        self.size.0
    }

    pub fn height(&self) -> (r: usize)
        ensures
            r == self.spec_height(),
    {
        self.size.1
    }

    pub fn tile_count(&self) -> (r: usize)
        ensures
            r == self.type_count(),
    {
        self.tile_types.len()
    }

    /// The registry's color for tile type `i`.
    pub fn type_color(&self, i: usize) -> (r: (u8, u8, u8))
        requires
            i < self.type_count(),
        ensures
            r == self.spec_types()[i as int].color,
    {
        self.tile_types[i].color
    }

    /// The registry's allowed-neighbor mask for tile type `i`.
    pub fn type_mask(&self, i: usize) -> (r: u128)
        requires
            i < self.type_count(),
        ensures
            r == self.spec_types()[i as int].neighbors,
    {
        self.tile_types[i].neighbors
    }

    pub fn open_count(&self) -> (r: usize)
        ensures
            r == self.open_len(),
    {
        self.collapse_options.len()
    }

    pub fn is_collapsed(&self, x: usize, y: usize) -> (r: bool)
        requires
            self.wf(),
            self.in_bounds(x as int, y as int),
        ensures
            r == self.collapsed_of(x as int, y as int),
    {
        proof {
            lemma_idx_bounds(x as int, y as int, self.spec_width(), self.spec_height());
        }
        self.tiles[x * self.size.1 + y].collapsed
    }

    pub fn wave_at(&self, x: usize, y: usize) -> (r: u128)
        requires
            self.wf(),
            self.in_bounds(x as int, y as int),
        ensures
            r == self.wave_of(x as int, y as int),
    {
        proof {
            lemma_idx_bounds(x as int, y as int, self.spec_width(), self.spec_height());
        }
        self.tiles[x * self.size.1 + y].wave
    }

    /// Build a grid: every cell starts with all tile types possible, and the
    /// open set seeds a lattice of every in-bounds position whose coordinates
    /// are multiples of `stride`. A tile-type count outside `1 ..= 128` is a
    /// configuration error and nothing is built.
    pub fn new(size: (usize, usize), tile_types: Vec<TileType>, stride: usize, seed: u64) -> (res:
        Result<World, GridError>)
        requires
            size.0 >= 1,
            size.1 >= 1,
            size.0 * size.1 <= usize::MAX,
            stride >= 1,
        ensures
            res is Ok <==> 1 <= tile_types@.len() <= 128,
            res matches Err(e) ==> e == GridError::Config,
            res matches Ok(w) ==> {
                &&& w.wf()
                &&& w.spec_width() == size.0
                &&& w.spec_height() == size.1
                &&& w.spec_types() == tile_types@
                &&& w.collapsed_count() == 0
                &&& forall|x: int, y: int|
                    w.in_bounds(x, y) ==> !w.collapsed_of(x, y) && w.wave_of(x, y) == full_wave(
                        tile_types@.len() as u8)
                &&& forall|p: Point| #[trigger]
                    w.open_set().contains(p) <==> lattice_pt(p, size, stride)
                &&& w.open_len() >= 1
            },
    {
        let tcount = tile_types.len();
        if tcount == 0 || tcount > 128 {
            return Err(GridError::Config);
        }
        let total = size.0 * size.1;
        let mut tiles: Vec<Tile> = Vec::new();
        while tiles.len() < total
            invariant
                1 <= tcount <= 128,
                tiles@.len() <= total,
                forall|j: int|
                    0 <= j < tiles@.len() ==> (#[trigger] tiles@[j]).wave == full_wave(tcount as u8)
                        && !tiles@[j].collapsed,
            decreases total - tiles@.len(),
        {
            tiles.push(Tile::new(tcount as u8));
        }
        let opts = seed_lattice(size, stride);
        proof {
            lemma_full_wave(tcount as u8);
            lemma_cc_zero(tiles@, tiles@.len() as int);
        }
        let w = World {
            size,
            tiles,
            tile_types,
            types: tcount as u8,
            rng: crate::rng::rng_from_seed(seed),
            collapse_options: opts,
        };
        proof {
            assert forall|k: int| 0 <= k < w.open_len() implies w.open_ok(#[trigger] w.open_set()[k])
            by {
                let p = w.open_set()[k];
                assert(opts@[k] == p);
                assert(opts@.contains(p));
                lemma_idx_bounds(p.x as int, p.y as int, w.spec_width(), w.spec_height());
            }
            assert forall|x: int, y: int| w.in_bounds(x, y) implies !w.collapsed_of(x, y)
                && w.wave_of(x, y) == full_wave(w.type_count() as u8) by {
                lemma_idx_bounds(x, y, w.spec_width(), w.spec_height());
            }
            assert(w.open_set().contains(Point { x: 0, y: 0 }));
        }
        Ok(w)
    }
}

/// Every in-bounds position whose coordinates are both multiples of `stride`,
/// each exactly once.
fn seed_lattice(size: (usize, usize), stride: usize) -> (opts: Vec<Point>)
    requires
        size.0 >= 1,
        size.1 >= 1,
        stride >= 1,
    ensures
        forall|p: Point| #[trigger] opts@.contains(p) <==> lattice_pt(p, size, stride),
        forall|k1: int, k2: int| 0 <= k1 < k2 < opts@.len() ==> opts@[k1] != opts@[k2],
        opts@.contains(Point { x: 0, y: 0 }),
{
    let mut opts: Vec<Point> = Vec::new();
    let mut x: usize = 0;
    loop
        invariant_except_break
            size.0 >= 1,
            size.1 >= 1,
            stride >= 1,
            x < size.0,
            x % stride == 0,
            forall|k: int|
                0 <= k < opts@.len() ==> lattice_pt(#[trigger] opts@[k], size, stride) && (
                opts@[k].x as int) < x,
            forall|p: Point|
                lattice_pt(p, size, stride) && (p.x as int) < x ==> #[trigger] opts@.contains(p),
            forall|k1: int, k2: int| 0 <= k1 < k2 < opts@.len() ==> opts@[k1] != opts@[k2],
        ensures
            forall|p: Point| #[trigger] opts@.contains(p) <==> lattice_pt(p, size, stride),
            forall|k1: int, k2: int| 0 <= k1 < k2 < opts@.len() ==> opts@[k1] != opts@[k2],
        decreases size.0 - x,
    {
        let mut y: usize = 0;
        loop
            invariant_except_break
                size.0 >= 1,
                size.1 >= 1,
                stride >= 1,
                x < size.0,
                x % stride == 0,
                y < size.1,
                y % stride == 0,
                forall|k: int|
                    0 <= k < opts@.len() ==> lattice_pt(#[trigger] opts@[k], size, stride) && ((
                    opts@[k].x as int) < x || ((opts@[k].x as int) == x && (opts@[k].y as int)
                        < y)),
                forall|p: Point|
                    lattice_pt(p, size, stride) && ((p.x as int) < x || ((p.x as int) == x && (
                    p.y as int) < y)) ==> #[trigger] opts@.contains(p),
                forall|k1: int, k2: int| 0 <= k1 < k2 < opts@.len() ==> opts@[k1] != opts@[k2],
            ensures
                size.0 >= 1,
                size.1 >= 1,
                stride >= 1,
                x < size.0,
                x % stride == 0,
                forall|k: int|
                    0 <= k < opts@.len() ==> lattice_pt(#[trigger] opts@[k], size, stride) && (
                    opts@[k].x as int) <= x,
                forall|p: Point|
                    lattice_pt(p, size, stride) && (p.x as int) <= x ==> #[trigger] opts@.contains(
                        p),
                forall|k1: int, k2: int| 0 <= k1 < k2 < opts@.len() ==> opts@[k1] != opts@[k2],
            decreases size.1 - y,
        {
            let np = Point { x, y };
            let ghost pre = opts@;
            proof {
                assert(forall|k: int| 0 <= k < pre.len() ==> #[trigger] pre[k] != np);
            }
            opts.push(np);
            proof {
                assert(opts@ == pre.push(np));
                assert forall|p: Point| pre.contains(p) implies #[trigger] opts@.contains(p) by {
                    let k = choose|k: int| 0 <= k < pre.len() && pre[k] == p;
                    assert(opts@[k] == p);
                }
                assert(opts@[opts@.len() - 1] == np);
                assert(opts@.contains(np));
            }
            if size.1 - y <= stride {
                proof {
                    assert forall|p: Point|
                        lattice_pt(p, size, stride) && (p.x as int) <= x implies #[trigger] opts@
                        .contains(p) by {
                        if (p.x as int) < x || ((p.x as int) == x && (p.y as int) < y) {
                            assert(pre.contains(p));
                        } else if (p.y as int) > y {
                            lemma_multiple_gap(y as int, p.y as int, stride as int);
                            assert(false);
                        } else {
                            assert(p.x == x && p.y == y);
                            assert(p == np);
                        }
                    }
                }
                break ;
            }
            proof {
                assert((y + stride) % (stride as int) == 0) by (nonlinear_arith)
                    requires
                        stride >= 1,
                        y % stride == 0,
                ;
                assert forall|p: Point|
                    lattice_pt(p, size, stride) && ((p.x as int) < x || ((p.x as int) == x && (
                    p.y as int) < y + stride)) implies #[trigger] opts@.contains(p) by {
                    if (p.x as int) < x || ((p.x as int) == x && (p.y as int) < y) {
                        assert(pre.contains(p));
                    } else if (p.y as int) > y {
                        lemma_multiple_gap(y as int, p.y as int, stride as int);
                        assert((p.y as int) >= y + stride);
                        assert(false);
                    } else {
                        assert(p.x == x && p.y == y);
                        assert(p == np);
                    }
                }
            }
            y = y + stride;
        }
        if size.0 - x <= stride {
            proof {
                assert forall|p: Point| #[trigger]
                    opts@.contains(p) implies lattice_pt(p, size, stride) by {}
                assert forall|p: Point| lattice_pt(p, size, stride) implies #[trigger] opts@.contains(
                    p) by {
                    if (p.x as int) > x {
                        lemma_multiple_gap(x as int, p.x as int, stride as int);
                    }
                }
            }
            break ;
        }
        proof {
            assert((x + stride) % (stride as int) == 0) by (nonlinear_arith)
                requires
                    stride >= 1,
                    x % stride == 0,
            ;
            assert forall|p: Point|
                lattice_pt(p, size, stride) && (p.x as int) < x + stride implies #[trigger] opts@
                .contains(p) by {
                if (p.x as int) > x {
                    lemma_multiple_gap(x as int, p.x as int, stride as int);
                }
            }
        }
        x = x + stride;
    }
    proof {
        assert(lattice_pt(Point { x: 0, y: 0 }, size, stride));
    }
    opts
}

/// Sum of the wave counts of the first `n` cells: the propagation measure.
pub open spec fn total_count_rec(s: Seq<Tile>, n: int) -> int
    decreases n,
{
    if n <= 0 {
        0
    } else {
        total_count_rec(s, n - 1) + count_bits(s[n - 1].wave)
    }
}

proof fn lemma_tc_nonneg(s: Seq<Tile>, n: int)
    ensures
        total_count_rec(s, n) >= 0,
    decreases n,
{
    if n > 0 {
        lemma_tc_nonneg(s, n - 1);
    }
}

proof fn lemma_tc_update(s: Seq<Tile>, j: int, t: Tile, n: int)
    requires
        0 <= j < n <= s.len(),
    ensures
        total_count_rec(s.update(j, t), n) == total_count_rec(s, n) - count_bits(s[j].wave)
            + count_bits(t.wave),
    decreases n,
{
    if n - 1 == j {
        lemma_tc_same(s.update(j, t), s, n - 1);
    } else {
        lemma_tc_update(s, j, t, n - 1);
    }
}

proof fn lemma_tc_same(s1: Seq<Tile>, s2: Seq<Tile>, n: int)
    requires
        forall|j: int| 0 <= j < n ==> s1[j].wave == s2[j].wave,
    ensures
        total_count_rec(s1, n) == total_count_rec(s2, n),
    decreases n,
{
    if n > 0 {
        lemma_tc_same(s1, s2, n - 1);
    }
}

/// What propagation may do to a grid: the shape, registry and open set stay,
/// collapsed flags stay, and every wave only loses bits.
pub open spec fn propagation_frame(pre: World, post: World) -> bool {
    &&& post.spec_width() == pre.spec_width()
    &&& post.spec_height() == pre.spec_height()
    &&& post.spec_types() == pre.spec_types()
    &&& post.open_set() == pre.open_set()
    &&& post.rng_state() == pre.rng_state()
    &&& post.tile_seq().len() == pre.tile_seq().len()
    &&& forall|j: int|
        0 <= j < pre.tile_seq().len() ==> wave_subset(
            (#[trigger] post.tile_seq()[j]).wave,
            pre.tile_seq()[j].wave,
        ) && post.tile_seq()[j].collapsed == pre.tile_seq()[j].collapsed && (
        pre.tile_seq()[j].collapsed ==> post.tile_seq()[j].wave == pre.tile_seq()[j].wave)
}

proof fn lemma_frame_refl(a: World)
    ensures
        propagation_frame(a, a),
{
    assert forall|j: int| 0 <= j < a.tile_seq().len() implies wave_subset(
        (#[trigger] a.tile_seq()[j]).wave,
        a.tile_seq()[j].wave,
    ) by {
        crate::bits::lemma_subset_refl(a.tile_seq()[j].wave);
    }
}

proof fn lemma_frame_trans(a: World, b: World, c: World)
    requires
        propagation_frame(a, b),
        propagation_frame(b, c),
    ensures
        propagation_frame(a, c),
{
    assert forall|j: int| 0 <= j < a.tile_seq().len() implies wave_subset(
        (#[trigger] c.tile_seq()[j]).wave,
        a.tile_seq()[j].wave,
    ) && c.tile_seq()[j].collapsed == a.tile_seq()[j].collapsed && (
    a.tile_seq()[j].collapsed ==> c.tile_seq()[j].wave == a.tile_seq()[j].wave) by {
        crate::bits::lemma_subset_trans(
            c.tile_seq()[j].wave,
            b.tile_seq()[j].wave,
            a.tile_seq()[j].wave,
        );
    }
}

impl World {
    /// The wave the cell at `(nx, ny)` would be left with after one
    /// restriction from `(qx, qy)`.
    pub open spec fn prop_new_wave(self, qx: int, qy: int, nx: int, ny: int) -> u128 {
        self.wave_of(nx, ny) & self.allowed_of(qx, qy)
    }

    /// Some adjacent pair whose intersection would come out empty: the
    /// witness that a reported contradiction is real.
    pub open spec fn has_contradiction(self) -> bool {
        exists|ax: int, ay: int, nx: int, ny: int|
            self.in_bounds(ax, ay) && self.in_bounds(nx, ny) && orth_adjacent(ax, ay, nx, ny)
                && #[trigger] self.prop_new_wave(ax, ay, nx, ny) != self.wave_of(nx, ny)
                && count_bits(self.prop_new_wave(ax, ay, nx, ny)) == 0
    }

    /// One restriction along one edge: intersect the neighbor's wave with
    /// what the origin cell allows; on a change, queue the neighbor for
    /// another pass; on an emptied wave, report a contradiction and leave
    /// the grid untouched.
    #[verifier::rlimit(50)]
    fn propagate_to(
        &mut self,
        qx: usize,
        qy: usize,
        nx: usize,
        ny: usize,
        pending: &mut Vec<Point>,
    ) -> (res: Result<(), GridError>)
        requires
            old(self).wf(),
            old(self).in_bounds(qx as int, qy as int),
            old(self).in_bounds(nx as int, ny as int),
            orth_adjacent(qx as int, qy as int, nx as int, ny as int),
        ensures
            final(self).wf(),
            propagation_frame(*old(self), *final(self)),
            res is Err ==> res == Err::<(), GridError>(GridError::Contradiction),
            res is Err ==> final(self).has_contradiction(),
            old(self).prop_new_wave(qx as int, qy as int, nx as int, ny as int) == old(self).wave_of(
                nx as int,
                ny as int,
            ) ==> (*final(self) == *old(self) && final(pending)@ == old(pending)@ && res is Ok),
            old(self).prop_new_wave(qx as int, qy as int, nx as int, ny as int) != old(self).wave_of(
                nx as int,
                ny as int,
            ) && count_bits(old(self).prop_new_wave(qx as int, qy as int, nx as int, ny as int))
                == 0 ==> (*final(self) == *old(self) && final(pending)@ == old(pending)@ && res
                == Err::<(), GridError>(GridError::Contradiction)),
            old(self).prop_new_wave(qx as int, qy as int, nx as int, ny as int) != old(self).wave_of(
                nx as int,
                ny as int,
            ) && count_bits(old(self).prop_new_wave(qx as int, qy as int, nx as int, ny as int))
                >= 1 ==> (res is Ok && final(self).tile_seq() == old(self).tile_seq().update(
                old(self).idx_of(nx as int, ny as int),
                (Tile {
                    wave: old(self).prop_new_wave(qx as int, qy as int, nx as int, ny as int),
                    collapsed: old(self).collapsed_of(nx as int, ny as int),
                }),
            ) && final(pending)@ == old(pending)@.push(Point { x: nx, y: ny })),
    {
        proof {
            lemma_idx_bounds(qx as int, qy as int, self.spec_width(), self.spec_height());
            lemma_idx_bounds(nx as int, ny as int, self.spec_width(), self.spec_height());
        }
        let h = self.size.1;
        let qidx = qx * h + qy;
        let nidx = nx * h + ny;
        let qt = self.tiles[qidx];
        let allowed = qt.allowed_neighbors(&self.tile_types);
        let t = self.tiles[nidx];
        let nw = t.wave & allowed;
        if nw == t.wave {
            proof {
                lemma_frame_refl(*self);
            }
            return Ok(());
        }
        if crate::bits::popcount(nw) == 0 {
            proof {
                lemma_frame_refl(*self);
                crate::bits::lemma_count_bits_zero(nw);
                assert(self.prop_new_wave(qx as int, qy as int, nx as int, ny as int) != self.wave_of(
                    nx as int,
                    ny as int,
                ) && count_bits(self.prop_new_wave(qx as int, qy as int, nx as int, ny as int))
                    == 0);
                assert(self.has_contradiction());
            }
            return Err(GridError::Contradiction);
        }
        let nt = Tile { wave: nw, collapsed: t.collapsed };
        self.tiles[nidx] = nt;
        pending.push(Point { x: nx, y: ny });
        proof {
            let pre = *old(self);
            let post = *self;
            crate::bits::lemma_and_subset(t.wave, allowed);
            assert(!t.collapsed) by {
                if t.collapsed {
                    crate::bits::lemma_subset_count(nw, t.wave);
                    crate::bits::lemma_subset_equal_count(nw, t.wave);
                }
            }
            assert forall|j: int| 0 <= j < pre.tile_seq().len() implies wave_subset(
                (#[trigger] post.tile_seq()[j]).wave,
                pre.tile_seq()[j].wave,
            ) && post.tile_seq()[j].collapsed == pre.tile_seq()[j].collapsed && (
            pre.tile_seq()[j].collapsed ==> post.tile_seq()[j].wave == pre.tile_seq()[j].wave) by {
                if j != nidx {
                    crate::bits::lemma_subset_refl(pre.tile_seq()[j].wave);
                }
            }
            assert forall|j: int| 0 <= j < post.tile_seq().len() implies Self::tile_wf(
                #[trigger] post.tile_seq()[j],
                post.type_count(),
            ) by {
                if j == nidx {
                    crate::bits::lemma_subset_in_range(nw, t.wave, pre.type_count());
                    if t.collapsed {
                        crate::bits::lemma_subset_count(nw, t.wave);
                    }
                }
            }
            assert forall|k: int| 0 <= k < post.open_len() implies post.open_ok(
                #[trigger] post.open_set()[k],
            ) by {
                let p = post.open_set()[k];
                assert(pre.open_ok(pre.open_set()[k]));
                lemma_idx_bounds(p.x as int, p.y as int, pre.spec_width(), pre.spec_height());
            }
            assert forall|k1: int, k2: int| 0 <= k1 < k2 < post.open_len() implies post.open_set()[k1]
                != post.open_set()[k2] by {
                assert(post.open_set()[k1] == pre.open_set()[k1]);
                assert(post.open_set()[k2] == pre.open_set()[k2]);
            }
        }
        Ok(())
    }

    /// Restrict all four orthogonal neighbors of `q` once, queueing every
    /// neighbor whose wave shrank for another pass.
/// A cell with an unchanged wave keeps its stability when the grid only
/// shrinks elsewhere: its mask is unchanged and its neighbors only refine.
proof fn lemma_stable_preserved(pre: World, post: World, ax: int, ay: int)
    requires
        pre.wf(),
        propagation_frame(pre, post),
        pre.in_bounds(ax, ay),
        post.wave_of(ax, ay) == pre.wave_of(ax, ay),
        pre.stable_at(ax, ay),
    ensures
        post.stable_at(ax, ay),
{
    lemma_idx_bounds(ax, ay, pre.spec_width(), pre.spec_height());
    assert(post.allowed_of(ax, ay) == pre.allowed_of(ax, ay));
    if ax > 0 {
        lemma_idx_bounds(ax - 1, ay, pre.spec_width(), pre.spec_height());
        assert(wave_subset(post.tile_seq()[pre.idx_of(ax - 1, ay)].wave, pre.tile_seq()[pre.idx_of(ax - 1, ay)].wave));
        crate::bits::lemma_subset_trans(
            post.wave_of(ax - 1, ay),
            pre.wave_of(ax - 1, ay),
            pre.allowed_of(ax, ay),
        );
    }
    if ax < pre.spec_width() - 1 {
        lemma_idx_bounds(ax + 1, ay, pre.spec_width(), pre.spec_height());
        assert(wave_subset(post.tile_seq()[pre.idx_of(ax + 1, ay)].wave, pre.tile_seq()[pre.idx_of(ax + 1, ay)].wave));
        crate::bits::lemma_subset_trans(
            post.wave_of(ax + 1, ay),
            pre.wave_of(ax + 1, ay),
            pre.allowed_of(ax, ay),
        );
    }
    if ay > 0 {
        lemma_idx_bounds(ax, ay - 1, pre.spec_width(), pre.spec_height());
        assert(wave_subset(post.tile_seq()[pre.idx_of(ax, ay - 1)].wave, pre.tile_seq()[pre.idx_of(ax, ay - 1)].wave));
        crate::bits::lemma_subset_trans(
            post.wave_of(ax, ay - 1),
            pre.wave_of(ax, ay - 1),
            pre.allowed_of(ax, ay),
        );
    }
    if ay < pre.spec_height() - 1 {
        lemma_idx_bounds(ax, ay + 1, pre.spec_width(), pre.spec_height());
        assert(wave_subset(post.tile_seq()[pre.idx_of(ax, ay + 1)].wave, pre.tile_seq()[pre.idx_of(ax, ay + 1)].wave));
        crate::bits::lemma_subset_trans(
            post.wave_of(ax, ay + 1),
            pre.wave_of(ax, ay + 1),
            pre.allowed_of(ax, ay),
        );
    }
}

/// One processed edge is stable afterwards: either nothing needed doing, or
/// the neighbor's wave was replaced by exactly the intersection.
proof fn lemma_edge_established(pre: World, post: World, qx: int, qy: int, nx: int, ny: int, t: Tile)
    requires
        pre.wf(),
        pre.in_bounds(qx, qy),
        pre.in_bounds(nx, ny),
        qx != nx || qy != ny,
        post.spec_width() == pre.spec_width(),
        post.spec_height() == pre.spec_height(),
        post.spec_types() == pre.spec_types(),
        post.tile_seq().len() == pre.tile_seq().len(),
        (post == pre && pre.prop_new_wave(qx, qy, nx, ny) == pre.wave_of(nx, ny)) || (t.wave
            == pre.prop_new_wave(qx, qy, nx, ny) && post.tile_seq() == pre.tile_seq().update(
            pre.idx_of(nx, ny),
            t,
        )),
    ensures
        post.edge_stable(qx, qy, nx, ny),
{
    lemma_idx_bounds(qx, qy, pre.spec_width(), pre.spec_height());
    lemma_idx_bounds(nx, ny, pre.spec_width(), pre.spec_height());
    if post == pre {
    } else {
        if pre.idx_of(qx, qy) == pre.idx_of(nx, ny) {
            lemma_idx_injective(qx, qy, nx, ny, pre.spec_height());
        }
        assert(post.wave_of(nx, ny) == pre.prop_new_wave(qx, qy, nx, ny));
        assert(post.wave_of(qx, qy) == pre.wave_of(qx, qy));
        assert(post.allowed_of(qx, qy) == pre.allowed_of(qx, qy));
        crate::bits::lemma_and_subset(pre.wave_of(nx, ny), pre.allowed_of(qx, qy));
    }
}

/// A stable edge stays stable when a write lands on a cell that is neither
/// its source nor its target.
proof fn lemma_edge_carried(a: World, b: World, qx: int, qy: int, nx: int, ny: int, ux: int, uy: int, t: Tile)
    requires
        a.wf(),
        a.in_bounds(qx, qy),
        a.in_bounds(nx, ny),
        a.in_bounds(ux, uy),
        ux != nx || uy != ny,
        ux != qx || uy != qy,
        a.edge_stable(qx, qy, nx, ny),
        b.spec_width() == a.spec_width(),
        b.spec_height() == a.spec_height(),
        b.spec_types() == a.spec_types(),
        b.tile_seq().len() == a.tile_seq().len(),
        b == a || b.tile_seq() == a.tile_seq().update(a.idx_of(ux, uy), t),
    ensures
        b.edge_stable(qx, qy, nx, ny),
{
    if b != a {
        lemma_idx_bounds(qx, qy, a.spec_width(), a.spec_height());
        lemma_idx_bounds(nx, ny, a.spec_width(), a.spec_height());
        lemma_idx_bounds(ux, uy, a.spec_width(), a.spec_height());
        if a.idx_of(ux, uy) == a.idx_of(nx, ny) {
            lemma_idx_injective(ux, uy, nx, ny, a.spec_height());
        }
        if a.idx_of(ux, uy) == a.idx_of(qx, qy) {
            lemma_idx_injective(ux, uy, qx, qy, a.spec_height());
        }
        assert(b.wave_of(nx, ny) == a.wave_of(nx, ny));
        assert(b.wave_of(qx, qy) == a.wave_of(qx, qy));
        assert(b.allowed_of(qx, qy) == a.allowed_of(qx, qy));
    }
}

/// Every cell whose wave differs from the starting state stays queued for
/// another pass: a write queues its cell, and the queue only grows.
proof fn lemma_changed_pending_step(
    s0: World,
    a: World,
    b: World,
    pa: Seq<Point>,
    pb: Seq<Point>,
    ux: int,
    uy: int,
    t: Tile,
)
    requires
        s0.wf(),
        a.spec_width() == s0.spec_width(),
        a.spec_height() == s0.spec_height(),
        a.tile_seq().len() == s0.tile_seq().len(),
        b.spec_width() == s0.spec_width(),
        b.spec_height() == s0.spec_height(),
        b.tile_seq().len() == s0.tile_seq().len(),
        forall|ax: int, ay: int|
            s0.in_bounds(ax, ay) && a.wave_of(ax, ay) != s0.wave_of(ax, ay) ==> pa.contains(
                (Point { x: ax as usize, y: ay as usize }),
            ),
        (b == a && pb == pa) || (s0.in_bounds(ux, uy) && b.tile_seq() == a.tile_seq().update(
            a.idx_of(ux, uy),
            t,
        ) && pb == pa.push((Point { x: ux as usize, y: uy as usize }))),
    ensures
        forall|ax: int, ay: int|
            s0.in_bounds(ax, ay) && b.wave_of(ax, ay) != s0.wave_of(ax, ay) ==> pb.contains(
                (Point { x: ax as usize, y: ay as usize }),
            ),
{
    assert forall|ax: int, ay: int|
        s0.in_bounds(ax, ay) && b.wave_of(ax, ay) != s0.wave_of(ax, ay) implies pb.contains(
        (Point { x: ax as usize, y: ay as usize }),
    ) by {
        let pt = Point { x: ax as usize, y: ay as usize };
        lemma_idx_bounds(ax, ay, s0.spec_width(), s0.spec_height());
        if b == a && pb == pa {
            assert(pa.contains(pt));
        } else {
            lemma_idx_bounds(ux, uy, s0.spec_width(), s0.spec_height());
            if b.wave_of(ax, ay) != a.wave_of(ax, ay) {
                lemma_idx_injective(ax, ay, ux, uy, s0.spec_height());
                assert(pb[pb.len() - 1] == pt);
                assert(pb.contains(pt));
            } else {
                assert(pa.contains(pt));
                let k = choose|k: int| 0 <= k < pa.len() && pa[k] == pt;
                assert(pb[k] == pt);
                assert(pb.contains(pt));
            }
        }
    }
}

    #[verifier::rlimit(100)]
    fn propagate_from(&mut self, q: Point, pending: &mut Vec<Point>) -> (res: Result<(),
        GridError>)
        requires
            old(self).wf(),
            old(self).in_bounds(q.x as int, q.y as int),
        ensures
            final(self).wf(),
            propagation_frame(*old(self), *final(self)),
            res is Err ==> res == Err::<(), GridError>(GridError::Contradiction),
            res is Err ==> final(self).has_contradiction(),
            final(pending)@.len() >= old(pending)@.len(),
            forall|k: int|
                0 <= k < old(pending)@.len() ==> final(pending)@[k] == old(pending)@[k],
            forall|k: int|
                old(pending)@.len() <= k < final(pending)@.len() ==> final(self).in_bounds(
                    (#[trigger] final(pending)@[k]).x as int,
                    final(pending)@[k].y as int,
                ),
            total_count_rec(final(self).tile_seq(), final(self).tile_seq().len() as int)
                + final(pending)@.len() <= total_count_rec(
                old(self).tile_seq(),
                old(self).tile_seq().len() as int,
            ) + old(pending)@.len(),
            old(self).stable_at(q.x as int, q.y as int) ==> (*final(self) == *old(self)
                && final(pending)@ == old(pending)@ && res is Ok),
            res is Ok ==> final(self).stable_at(q.x as int, q.y as int),
            forall|ax: int, ay: int|
                old(self).in_bounds(ax, ay) && final(self).wave_of(ax, ay) != old(self).wave_of(
                    ax,
                    ay,
                ) ==> final(pending)@.contains((Point { x: ax as usize, y: ay as usize })),
    {
        proof {
            lemma_frame_refl(*old(self));
        }
        let w = self.size.0;
        let hh = self.size.1;
        let ghost s0 = *old(self);
        let ghost qx = q.x as int;
        let ghost qy = q.y as int;
        if q.x > 0 {
            let ghost pre = *self;
            let ghost prep = pending@;
            let r = self.propagate_to(q.x, q.y, q.x - 1, q.y, pending);
            proof {
                lemma_frame_trans(*old(self), pre, *self);
                if pending@ != prep {
                    lemma_edge_progress(pre, *self, qx, qy, qx - 1, qy);
                }
                assert(total_count_rec(self.tile_seq(), self.tile_seq().len() as int)
                    + pending@.len() <= total_count_rec(pre.tile_seq(), pre.tile_seq().len() as int)
                    + prep.len());
            }
            if let Err(e) = r {
                return Err(e);
            }
        }
        let ghost s1 = *self;
        let ghost p1 = pending@;
        proof {
            let t1 = (Tile { wave: s0.prop_new_wave(qx, qy, qx - 1, qy), collapsed: s0.collapsed_of(qx - 1, qy) });
            if qx > 0 {
                Self::lemma_edge_established(s0, s1, qx, qy, qx - 1, qy, t1);
                Self::lemma_changed_pending_step(s0, s0, s1, old(pending)@, p1, qx - 1, qy, t1);
            } else {
                Self::lemma_changed_pending_step(s0, s0, s1, old(pending)@, p1, 0, 0, t1);
            }
        }
        if q.x + 1 < w {
            let ghost pre = *self;
            let ghost prep = pending@;
            let r = self.propagate_to(q.x, q.y, q.x + 1, q.y, pending);
            proof {
                lemma_frame_trans(*old(self), pre, *self);
                if pending@ != prep {
                    lemma_edge_progress(pre, *self, qx, qy, qx + 1, qy);
                }
                assert(total_count_rec(self.tile_seq(), self.tile_seq().len() as int)
                    + pending@.len() <= total_count_rec(pre.tile_seq(), pre.tile_seq().len() as int)
                    + prep.len());
            }
            if let Err(e) = r {
                return Err(e);
            }
        }
        let ghost s2 = *self;
        let ghost p2 = pending@;
        proof {
            let t2 = (Tile { wave: s1.prop_new_wave(qx, qy, qx + 1, qy), collapsed: s1.collapsed_of(qx + 1, qy) });
            if qx + 1 < s0.spec_width() {
                Self::lemma_edge_established(s1, s2, qx, qy, qx + 1, qy, t2);
                if qx > 0 {
                    Self::lemma_edge_carried(s1, s2, qx, qy, qx - 1, qy, qx + 1, qy, t2);
                }
                Self::lemma_changed_pending_step(s0, s1, s2, p1, p2, qx + 1, qy, t2);
            } else {
                Self::lemma_changed_pending_step(s0, s1, s2, p1, p2, 0, 0, t2);
            }
        }
        if q.y > 0 {
            let ghost pre = *self;
            let ghost prep = pending@;
            let r = self.propagate_to(q.x, q.y, q.x, q.y - 1, pending);
            proof {
                lemma_frame_trans(*old(self), pre, *self);
                if pending@ != prep {
                    lemma_edge_progress(pre, *self, qx, qy, qx, qy - 1);
                }
                assert(total_count_rec(self.tile_seq(), self.tile_seq().len() as int)
                    + pending@.len() <= total_count_rec(pre.tile_seq(), pre.tile_seq().len() as int)
                    + prep.len());
            }
            if let Err(e) = r {
                return Err(e);
            }
        }
        let ghost s3 = *self;
        let ghost p3 = pending@;
        proof {
            let t3 = (Tile { wave: s2.prop_new_wave(qx, qy, qx, qy - 1), collapsed: s2.collapsed_of(qx, qy - 1) });
            if qy > 0 {
                Self::lemma_edge_established(s2, s3, qx, qy, qx, qy - 1, t3);
                if qx > 0 {
                    Self::lemma_edge_carried(s2, s3, qx, qy, qx - 1, qy, qx, qy - 1, t3);
                }
                if qx + 1 < s0.spec_width() {
                    Self::lemma_edge_carried(s2, s3, qx, qy, qx + 1, qy, qx, qy - 1, t3);
                }
                Self::lemma_changed_pending_step(s0, s2, s3, p2, p3, qx, qy - 1, t3);
            } else {
                Self::lemma_changed_pending_step(s0, s2, s3, p2, p3, 0, 0, t3);
            }
        }
        if q.y + 1 < hh {
            let ghost pre = *self;
            let ghost prep = pending@;
            let r = self.propagate_to(q.x, q.y, q.x, q.y + 1, pending);
            proof {
                lemma_frame_trans(*old(self), pre, *self);
                if pending@ != prep {
                    lemma_edge_progress(pre, *self, qx, qy, qx, qy + 1);
                }
                assert(total_count_rec(self.tile_seq(), self.tile_seq().len() as int)
                    + pending@.len() <= total_count_rec(pre.tile_seq(), pre.tile_seq().len() as int)
                    + prep.len());
            }
            if let Err(e) = r {
                return Err(e);
            }
        }
        let ghost s4 = *self;
        let ghost p4 = pending@;
        proof {
            let t4 = (Tile { wave: s3.prop_new_wave(qx, qy, qx, qy + 1), collapsed: s3.collapsed_of(qx, qy + 1) });
            if qy + 1 < s0.spec_height() {
                Self::lemma_edge_established(s3, s4, qx, qy, qx, qy + 1, t4);
                if qx > 0 {
                    Self::lemma_edge_carried(s3, s4, qx, qy, qx - 1, qy, qx, qy + 1, t4);
                }
                if qx + 1 < s0.spec_width() {
                    Self::lemma_edge_carried(s3, s4, qx, qy, qx + 1, qy, qx, qy + 1, t4);
                }
                if qy > 0 {
                    Self::lemma_edge_carried(s3, s4, qx, qy, qx, qy - 1, qx, qy + 1, t4);
                }
                Self::lemma_changed_pending_step(s0, s3, s4, p3, p4, qx, qy + 1, t4);
            } else {
                Self::lemma_changed_pending_step(s0, s3, s4, p3, p4, 0, 0, t4);
            }
            assert(self.stable_at(qx, qy));
        }
        Ok(())
    }

    /// Propagate constraints outward from `(px, py)` with an explicit work
    /// list, until every edge that the wavefront touched is stable again.
    ///
    /// On success the origin and every cell whose wave changed end with all
    /// their edges stable; waves only ever lose bits and collapsed flags do
    /// not move. On a grid where every edge out of `(px, py)` is already
    /// stable the call mutates nothing and succeeds. An emptied wave is a
    /// contradiction: it is reported, the emptying write is not performed,
    /// and the returned grid still shows an adjacent pair whose intersection
    /// is empty.
    #[verifier::rlimit(100)]
    pub fn propagate(&mut self, px: usize, py: usize) -> (res: Result<(), GridError>)
        requires
            old(self).wf(),
            old(self).in_bounds(px as int, py as int),
        ensures
            final(self).wf(),
            propagation_frame(*old(self), *final(self)),
            res is Err ==> res == Err::<(), GridError>(GridError::Contradiction),
            res is Err ==> final(self).has_contradiction(),
            res is Ok ==> forall|ax: int, ay: int|
                old(self).in_bounds(ax, ay) && ((ax == px as int && ay == py as int)
                    || final(self).wave_of(ax, ay) != old(self).wave_of(ax, ay))
                    ==> #[trigger] final(self).stable_at(ax, ay),
            old(self).stable_at(px as int, py as int) ==> (*final(self) == *old(self) && res
                is Ok),
            old(self).stabilized() ==> (*final(self) == *old(self) && res is Ok),
    {
        let origin = Point { x: px, y: py };
        let mut pending: Vec<Point> = Vec::new();
        pending.push(origin);
        proof {
            lemma_frame_refl(*old(self));
            assert(pending@[0] == origin);
        }
        loop
            invariant
                self.wf(),
                old(self).in_bounds(px as int, py as int),
                origin == (Point { x: px, y: py }),
                propagation_frame(*old(self), *self),
                forall|k: int|
                    0 <= k < pending@.len() ==> self.in_bounds(
                        (#[trigger] pending@[k]).x as int,
                        pending@[k].y as int,
                    ),
                forall|ax: int, ay: int|
                    old(self).in_bounds(ax, ay) && ((ax == px as int && ay == py as int)
                        || self.wave_of(ax, ay) != old(self).wave_of(ax, ay)) && !pending@.contains(
                        (Point { x: ax as usize, y: ay as usize }),
                    ) ==> #[trigger] self.stable_at(ax, ay),
                old(self).stable_at(px as int, py as int) ==> (*self == *old(self) && (pending@
                    =~= Seq::<Point>::empty() || pending@ =~= seq![origin])),
            ensures
                pending@.len() == 0,
            decreases total_count_rec(self.tile_seq(), self.tile_seq().len() as int)
                + pending@.len(),
        {
            if pending.len() == 0 {
                break ;
            }
            let ghost pend_before = pending@;
            let q = match pending.pop() {
                Some(q) => q,
                None => {
                    proof {
                        assert(false);
                    }
                    origin
                },
            };
            let ghost pend_popped = pending@;
            proof {
                lemma_tc_nonneg(self.tile_seq(), self.tile_seq().len() as int);
            }
            let ghost pre = *self;
            let r = self.propagate_from(q, &mut pending);
            proof {
                lemma_frame_trans(*old(self), pre, *self);
                lemma_tc_nonneg(self.tile_seq(), self.tile_seq().len() as int);
                lemma_contains_extend(pend_popped, pending@);
            }
            if let Err(e) = r {
                return Err(e);
            }
            proof {
                assert forall|ax: int, ay: int|
                    old(self).in_bounds(ax, ay) && ((ax == px as int && ay == py as int)
                        || self.wave_of(ax, ay) != old(self).wave_of(ax, ay)) && !pending@.contains(
                        (Point { x: ax as usize, y: ay as usize }),
                    ) implies #[trigger] self.stable_at(ax, ay) by {
                    let pt = Point { x: ax as usize, y: ay as usize };
                    if ax == q.x as int && ay == q.y as int {
                        assert(self.stable_at(q.x as int, q.y as int));
                    } else if self.wave_of(ax, ay) != pre.wave_of(ax, ay) {
                        assert(pending@.contains(pt));
                        assert(false);
                    } else {
                        assert(!pend_popped.contains(pt));
                        if pend_before.contains(pt) {
                            let k = choose|k: int|
                                0 <= k < pend_before.len() && pend_before[k] == pt;
                            if k < pend_before.len() - 1 {
                                assert(pend_popped[k] == pt);
                                assert(false);
                            } else {
                                assert(pt == q);
                                assert(false);
                            }
                        }
                        assert(pre.stable_at(ax, ay));
                        Self::lemma_stable_preserved(pre, *self, ax, ay);
                    }
                }
            }
        }
        proof {
            assert forall|ax: int, ay: int|
                old(self).in_bounds(ax, ay) && ((ax == px as int && ay == py as int)
                    || self.wave_of(ax, ay) != old(self).wave_of(ax, ay)) implies #[trigger] self
                .stable_at(ax, ay) by {
                let pt = Point { x: ax as usize, y: ay as usize };
                assert(!pending@.contains(pt));
            }
        }
        Ok(())
    }
}

/// A restriction that changed a wave strictly lowered the grid's total
/// wave-bit count: the propagation measure drops with every queued re-check.
proof fn lemma_edge_progress(pre: World, post: World, qx: int, qy: int, nx: int, ny: int)
    requires
        pre.wf(),
        pre.in_bounds(qx, qy),
        pre.in_bounds(nx, ny),
        pre.prop_new_wave(qx, qy, nx, ny) != pre.wave_of(nx, ny),
        count_bits(pre.prop_new_wave(qx, qy, nx, ny)) >= 1,
        post.tile_seq() == pre.tile_seq().update(
            pre.idx_of(nx, ny),
            (Tile {
                wave: pre.prop_new_wave(qx, qy, nx, ny),
                collapsed: pre.collapsed_of(nx, ny),
            }),
        ),
    ensures
        total_count_rec(post.tile_seq(), post.tile_seq().len() as int) < total_count_rec(
            pre.tile_seq(),
            pre.tile_seq().len() as int,
        ),
{
    let nwv = pre.prop_new_wave(qx, qy, nx, ny);
    let ow = pre.wave_of(nx, ny);
    let idx = pre.idx_of(nx, ny);
    lemma_idx_bounds(nx, ny, pre.spec_width(), pre.spec_height());
    crate::bits::lemma_and_subset(ow, pre.allowed_of(qx, qy));
    crate::bits::lemma_subset_count(nwv, ow);
    if count_bits(nwv) == count_bits(ow) {
        crate::bits::lemma_subset_equal_count(nwv, ow);
    }
    lemma_tc_update(
        pre.tile_seq(),
        idx,
        (Tile { wave: nwv, collapsed: pre.collapsed_of(nx, ny) }),
        pre.tile_seq().len() as int,
    );
}

/// What one collapse step may do to the open set: an entry can appear only
/// as an orthogonal neighbor of the collapsed position, and an old entry can
/// disappear only by being the collapsed position itself.
pub open spec fn open_delta_ok(pre: World, post: World, p: Point) -> bool {
    forall|r: Point| #[trigger] post.open_set().contains(r) ==> pre.open_set().contains(r)
        || orth_adjacent(p.x as int, p.y as int, r.x as int, r.y as int)
}

/// Every in-bounds orthogonal neighbor of `p` that is still uncollapsed is
/// queued in the open set.
pub open spec fn neighbors_queued(post: World, p: Point) -> bool {
    &&& ((p.x as int) > 0 && !post.collapsed_of(p.x as int - 1, p.y as int)
        ==> post.open_set().contains((Point { x: (p.x - 1) as usize, y: p.y })))
    &&& ((p.x as int) + 1 < post.spec_width() && !post.collapsed_of(p.x as int + 1, p.y as int)
        ==> post.open_set().contains((Point { x: (p.x + 1) as usize, y: p.y })))
    &&& ((p.y as int) > 0 && !post.collapsed_of(p.x as int, p.y as int - 1)
        ==> post.open_set().contains((Point { x: p.x, y: (p.y - 1) as usize })))
    &&& ((p.y as int) + 1 < post.spec_height() && !post.collapsed_of(p.x as int, p.y as int + 1)
        ==> post.open_set().contains((Point { x: p.x, y: (p.y + 1) as usize })))
}

/// Appending at most one value adds no other member.
proof fn lemma_delta_step(sa: Seq<Point>, sb: Seq<Point>, v: Point)
    requires
        sb == sa || sb == sa.push(v),
    ensures
        forall|r: Point| #[trigger] sb.contains(r) ==> sa.contains(r) || r == v,
{
    assert forall|r: Point| #[trigger] sb.contains(r) implies sa.contains(r) || r == v by {
        if sb != sa {
            let k = choose|k: int| 0 <= k < sb.len() && sb[k] == r;
            if k < sb.len() - 1 {
                assert(sa[k] == r);
            }
        }
    }
}

/// Growing a sequence at its end loses no member.
proof fn lemma_contains_extend(s1: Seq<Point>, s2: Seq<Point>)
    requires
        s1.len() <= s2.len(),
        forall|k: int| 0 <= k < s1.len() ==> s1[k] == s2[k],
    ensures
        forall|p: Point| s1.contains(p) ==> #[trigger] s2.contains(p),
{
    assert forall|p: Point| s1.contains(p) implies #[trigger] s2.contains(p) by {
        let k = choose|k: int| 0 <= k < s1.len() && s1[k] == p;
        assert(s2[k] == p);
    }
}

impl World {
    /// Queue `(x, y)` for collapse if it is not collapsed and not already
    /// queued; otherwise leave the open set alone.
    #[verifier::loop_isolation(false)]
    fn push_open(&mut self, x: usize, y: usize)
        requires
            old(self).wf(),
            old(self).in_bounds(x as int, y as int),
        ensures
            final(self).wf(),
            final(self).tile_seq() == old(self).tile_seq(),
            final(self).spec_width() == old(self).spec_width(),
            final(self).spec_height() == old(self).spec_height(),
            final(self).spec_types() == old(self).spec_types(),
            final(self).rng_state() == old(self).rng_state(),
            !old(self).collapsed_of(x as int, y as int) && !old(self).open_set().contains(
                (Point { x, y }),
            ) ==> final(self).open_set() == old(self).open_set().push((Point { x, y })),
            old(self).collapsed_of(x as int, y as int) || old(self).open_set().contains(
                (Point { x, y }),
            ) ==> final(self).open_set() == old(self).open_set(),
    {
        let np = Point { x, y };
        proof {
            lemma_idx_bounds(x as int, y as int, self.spec_width(), self.spec_height());
        }
        let h = self.size.1;
        if self.tiles[x * h + y].collapsed {
            return ;
        }
        let n = self.collapse_options.len();
        let mut k: usize = 0;
        while k < n
            invariant
                n == self.open_set().len(),
                k <= n,
                forall|j: int| 0 <= j < k ==> self.open_set()[j] != np,
            decreases n - k,
        {
            if self.collapse_options[k].x == x && self.collapse_options[k].y == y {
                proof {
                    assert(self.open_set()[k as int] == np);
                    assert(self.open_set().contains(np));
                }
                return ;
            }
            k = k + 1;
        }
        proof {
            assert(!self.open_set().contains(np));
        }
        let ghost pre = *self;
        self.collapse_options.push(np);
        proof {
            assert(self.open_set() == pre.open_set().push(np));
            assert forall|kk: int| 0 <= kk < self.open_len() implies self.open_ok(
                #[trigger] self.open_set()[kk],
            ) by {
                if kk < pre.open_len() {
                    assert(pre.open_ok(pre.open_set()[kk]));
                }
            }
            assert forall|k1: int, k2: int| 0 <= k1 < k2 < self.open_len() implies self.open_set()[k1]
                != self.open_set()[k2] by {
                if k2 == self.open_len() - 1 {
                    assert(self.open_set()[k1] == pre.open_set()[k1]);
                    assert(!pre.open_set().contains(np) ==> pre.open_set()[k1] != np);
                }
            }
        }
    }

    /// One deterministic collapse-and-propagate cycle: remove the `i`-th open
    /// position, collapse its cell to its `choice`-th possibility (set bits
    /// in ascending order), propagate the new constraint outward, then queue
    /// every uncollapsed orthogonal neighbor that is not already queued.
    ///
    /// Exactly one cell moves from uncollapsed to collapsed; no wave ever
    /// gains a bit; on success the result says whether open positions remain.
    pub fn step_at(&mut self, i: usize, choice: u32) -> (res: Result<bool, GridError>)
        requires
            old(self).wf(),
            i < old(self).open_len(),
            choice < count_bits(old(self).open_tile(i as int).wave),
        ensures
            final(self).wf(),
            final(self).spec_width() == old(self).spec_width(),
            final(self).spec_height() == old(self).spec_height(),
            final(self).spec_types() == old(self).spec_types(),
            final(self).tile_seq().len() == old(self).tile_seq().len(),
            forall|j: int|
                0 <= j < old(self).tile_seq().len() ==> wave_subset(
                    (#[trigger] final(self).tile_seq()[j]).wave,
                    old(self).tile_seq()[j].wave,
                ),
            forall|j: int|
                0 <= j < old(self).tile_seq().len() ==> ((#[trigger] old(
                    self,
                ).tile_seq()[j]).collapsed ==> final(self).tile_seq()[j].collapsed),
            final(self).collapsed_count() == old(self).collapsed_count() + 1,
            final(self).collapsed_of(
                old(self).open_set()[i as int].x as int,
                old(self).open_set()[i as int].y as int,
            ),
            forall|k: int|
                0 <= k < old(self).open_len() ==> final(self).collapsed_of(
                    (#[trigger] old(self).open_set()[k]).x as int,
                    old(self).open_set()[k].y as int,
                ) || final(self).open_set().contains(old(self).open_set()[k]),
            open_delta_ok(*old(self), *final(self), old(self).open_set()[i as int]),
            res is Ok ==> neighbors_queued(*final(self), old(self).open_set()[i as int]),
            final(self).rng_state() == old(self).rng_state(),
            res is Ok ==> exists|idx: u8|
                idx < 128 && #[trigger] bit128(old(self).open_tile(i as int).wave, idx as u128)
                    && count_bits(old(self).open_tile(i as int).wave >> (idx as u128))
                    == count_bits(old(self).open_tile(i as int).wave) - choice
                    && final(self).tile_at(
                    old(self).open_set()[i as int].x as int,
                    old(self).open_set()[i as int].y as int,
                ).wave == 1u128 << (idx as u128),
            res matches Ok(more) ==> more == (final(self).open_len() > 0),
            res is Err ==> res == Err::<bool, GridError>(GridError::Contradiction),
            res is Err ==> final(self).has_contradiction(),
    {
        let ghost pre = *old(self);
        let p = self.collapse_options.swap_remove(i);
        proof {
            assert(p == pre.open_set()[i as int]);
            assert(pre.open_ok(pre.open_set()[i as int]));
            assert forall|k1: int, k2: int| 0 <= k1 < k2 < self.open_len() implies self.open_set()[k1]
                != self.open_set()[k2] by {
                let last = pre.open_len() - 1;
                let m1: int = if k1 == i { last } else { k1 };
                let m2: int = if k2 == i { last } else { k2 };
                assert(self.open_set()[k1] == pre.open_set()[m1]);
                assert(self.open_set()[k2] == pre.open_set()[m2]);
            }
            assert forall|k: int| 0 <= k < self.open_len() implies self.open_ok(
                #[trigger] self.open_set()[k],
            ) by {
                let last = pre.open_len() - 1;
                let m: int = if k == i { last } else { k };
                assert(self.open_set()[k] == pre.open_set()[m]);
                assert(pre.open_ok(pre.open_set()[m]));
            }
            lemma_idx_bounds(p.x as int, p.y as int, pre.spec_width(), pre.spec_height());
            assert forall|k: int| 0 <= k < pre.open_len() && k != i implies self.open_set().contains(
                #[trigger] pre.open_set()[k],
            ) by {
                let last = pre.open_len() - 1;
                let m: int = if k == last { i as int } else { k };
                assert(self.open_set()[m] == pre.open_set()[k]);
            }
        }
        let h = self.size.1;
        let idx = p.x * h + p.y;
        let mut t = self.tiles[idx];
        let chosen = t.collapse_choice(choice);
        let ghost mid0 = *self;
        self.tiles[idx] = t;
        proof {
            let tc = pre.type_count();
            crate::bits::lemma_single_bit(chosen as u128);
            crate::bits::lemma_single_subset(pre.tile_seq()[idx as int].wave, chosen as u128);
            assert((chosen as u128) < 128 && bit128(pre.tile_seq()[idx as int].wave, chosen as u128));
            assert((chosen as int) < tc) by {
                assert(wave_in_range(pre.tile_seq()[idx as int].wave, tc));
            }
            assert(wave_in_range(t.wave, tc)) by {
                assert forall|b: u128| b < 128 && #[trigger] bit128(t.wave, b) implies (b as int)
                    < tc by {
                    assert(b == chosen as u128);
                }
            }
            assert forall|j: int| 0 <= j < self.tile_seq().len() implies Self::tile_wf(
                #[trigger] self.tile_seq()[j],
                tc,
            ) by {
                if j != idx as int {
                    assert(self.tile_seq()[j] == pre.tile_seq()[j]);
                }
            }
            assert forall|k: int| 0 <= k < self.open_len() implies self.open_ok(
                #[trigger] self.open_set()[k],
            ) by {
                let pp = self.open_set()[k];
                assert(mid0.open_ok(mid0.open_set()[k]));
                lemma_idx_bounds(pp.x as int, pp.y as int, pre.spec_width(), pre.spec_height());
                if self.idx_of(pp.x as int, pp.y as int) == idx as int {
                    lemma_idx_injective(pp.x as int, pp.y as int, p.x as int, p.y as int, pre.spec_height());
                    let last = pre.open_len() - 1;
                    let m: int = if k == i { last } else { k };
                    assert(pre.open_set()[m] == pp);
                    assert(false);
                }
            }
            lemma_cc_update(pre.tile_seq(), idx as int, t, pre.tile_seq().len() as int);
            assert(self.collapsed_count() == pre.collapsed_count() + 1);
        }
        let ghost mid = *self;
        let r = self.propagate(p.x, p.y);
        proof {
            lemma_cc_pointwise(self.tile_seq(), mid.tile_seq(), mid.tile_seq().len() as int);
            assert forall|j: int| 0 <= j < pre.tile_seq().len() implies wave_subset(
                (#[trigger] self.tile_seq()[j]).wave,
                pre.tile_seq()[j].wave,
            ) by {
                if j == idx as int {
                    crate::bits::lemma_subset_trans(
                        self.tile_seq()[j].wave,
                        mid.tile_seq()[j].wave,
                        pre.tile_seq()[j].wave,
                    );
                } else {
                    assert(mid.tile_seq()[j].wave == pre.tile_seq()[j].wave);
                }
            }
        }
        if let Err(e) = r {
            return Err(e);
        }
        let ghost post_prop = *self;
        let ghost g0 = self.open_set();
        if p.x > 0 {
            self.push_open(p.x - 1, p.y);
        }
        let ghost g1 = self.open_set();
        proof {
            lemma_contains_extend(g0, g1);
        }
        if p.x + 1 < self.size.0 {
            self.push_open(p.x + 1, p.y);
        }
        let ghost g2 = self.open_set();
        proof {
            lemma_contains_extend(g1, g2);
        }
        if p.y > 0 {
            self.push_open(p.x, p.y - 1);
        }
        let ghost g3 = self.open_set();
        proof {
            lemma_contains_extend(g2, g3);
        }
        if p.y + 1 < self.size.1 {
            self.push_open(p.x, p.y + 1);
        }
        let ghost g4 = self.open_set();
        proof {
            lemma_contains_extend(g3, g4);
        }
        proof {
            assert(self.tile_seq() == post_prop.tile_seq());
            lemma_cc_pointwise(self.tile_seq(), post_prop.tile_seq(), post_prop.tile_seq().len() as int);
            assert(self.tile_at(p.x as int, p.y as int).wave == 1u128 << (chosen as u128));
            assert forall|r: Point| #[trigger] g0.contains(r) implies pre.open_set().contains(r) by {
                let k = choose|k: int| 0 <= k < g0.len() && g0[k] == r;
                let last = pre.open_len() - 1;
                let m: int = if k == i { last } else { k };
                assert(pre.open_set()[m] == r);
            }
            lemma_delta_step(g0, g1, (Point { x: (p.x - 1) as usize, y: p.y }));
            lemma_delta_step(g1, g2, (Point { x: (p.x + 1) as usize, y: p.y }));
            lemma_delta_step(g2, g3, (Point { x: p.x, y: (p.y - 1) as usize }));
            lemma_delta_step(g3, g4, (Point { x: p.x, y: (p.y + 1) as usize }));
            assert forall|r: Point| #[trigger] self.open_set().contains(r) implies pre.open_set().contains(
                r,
            ) || orth_adjacent(p.x as int, p.y as int, r.x as int, r.y as int) by {}
            if (p.x as int) > 0 && g1 != g0 {
                assert(g1[g1.len() - 1] == (Point { x: (p.x - 1) as usize, y: p.y }));
                assert(g1.contains((Point { x: (p.x - 1) as usize, y: p.y })));
            }
            if (p.x as int) + 1 < pre.spec_width() && g2 != g1 {
                assert(g2[g2.len() - 1] == (Point { x: (p.x + 1) as usize, y: p.y }));
                assert(g2.contains((Point { x: (p.x + 1) as usize, y: p.y })));
            }
            if (p.y as int) > 0 && g3 != g2 {
                assert(g3[g3.len() - 1] == (Point { x: p.x, y: (p.y - 1) as usize }));
                assert(g3.contains((Point { x: p.x, y: (p.y - 1) as usize })));
            }
            if (p.y as int) + 1 < pre.spec_height() && g4 != g3 {
                assert(g4[g4.len() - 1] == (Point { x: p.x, y: (p.y + 1) as usize }));
                assert(g4.contains((Point { x: p.x, y: (p.y + 1) as usize })));
            }
        }
        Ok(self.collapse_options.len() > 0)
    }

    /// One collapse-and-propagate cycle, the open position and the collapsed
    /// tile type both drawn from the random source: `step()` of the
    /// generation loop. Returns whether more work remains, or the
    /// contradiction that propagation ran into.
    pub fn step(&mut self) -> (res: Result<bool, GridError>)
        requires
            old(self).wf(),
            old(self).open_len() > 0,
        ensures
            final(self).wf(),
            final(self).spec_width() == old(self).spec_width(),
            final(self).spec_height() == old(self).spec_height(),
            final(self).spec_types() == old(self).spec_types(),
            final(self).tile_seq().len() == old(self).tile_seq().len(),
            forall|j: int|
                0 <= j < old(self).tile_seq().len() ==> wave_subset(
                    (#[trigger] final(self).tile_seq()[j]).wave,
                    old(self).tile_seq()[j].wave,
                ),
            forall|j: int|
                0 <= j < old(self).tile_seq().len() ==> ((#[trigger] old(
                    self,
                ).tile_seq()[j]).collapsed ==> final(self).tile_seq()[j].collapsed),
            final(self).collapsed_count() == old(self).collapsed_count() + 1,
            exists|k: int|
                0 <= k < old(self).open_len() && final(self).collapsed_of(
                    (#[trigger] old(self).open_set()[k]).x as int,
                    old(self).open_set()[k].y as int,
                ) && open_delta_ok(*old(self), *final(self), old(self).open_set()[k]) && (res
                    is Ok ==> neighbors_queued(*final(self), old(self).open_set()[k])),
            forall|k: int|
                0 <= k < old(self).open_len() ==> final(self).collapsed_of(
                    (#[trigger] old(self).open_set()[k]).x as int,
                    old(self).open_set()[k].y as int,
                ) || final(self).open_set().contains(old(self).open_set()[k]),
            res matches Ok(more) ==> more == (final(self).open_len() > 0),
            res is Err ==> res == Err::<bool, GridError>(GridError::Contradiction),
            res is Err ==> final(self).has_contradiction(),
    {
        let n = self.collapse_options.len();
        let i = crate::rng::rand_below(&mut self.rng, n);
        let p = self.collapse_options[i];
        proof {
            assert(self.open_ok(self.open_set()[i as int]));
            lemma_idx_bounds(p.x as int, p.y as int, self.spec_width(), self.spec_height());
            assert(Self::tile_wf(self.tile_seq()[self.idx_of(p.x as int, p.y as int)], self.type_count()));
        }
        let h = self.size.1;
        let cnt = crate::bits::popcount(self.tiles[p.x * h + p.y].wave);
        let choice = crate::rng::rand_below(&mut self.rng, cnt as usize);
        let ghost at_call = *self;
        let res = self.step_at(i, choice as u32);
        proof {
            assert(at_call.open_set() == old(self).open_set());
            assert(at_call.tile_seq() == old(self).tile_seq());
            assert(open_delta_ok(*old(self), *self, old(self).open_set()[i as int]));
        }
        res
    }

    /// Termination budget: a well-formed grid never holds more collapsed
    /// cells than it has cells. Each successful `step` collapses exactly one
    /// more cell, so a run of `step` calls on a grid of `width * height`
    /// cells ends after at most that many calls.
    pub proof fn lemma_collapse_budget(w: World)
        requires
            w.wf(),
        ensures
            0 <= w.collapsed_count() <= w.spec_width() * w.spec_height(),
    {
        lemma_cc_bounds(w.tile_seq(), w.tile_seq().len() as int);
    }
}

/// The index of the one set bit of a collapsed cell's wave.
pub open spec fn chosen_index(w: u128) -> u128 {
    choose|i: u128| i < 128 && bit128(w, i)
}

/// A singleton wave's chosen index is its set bit.
proof fn lemma_chosen(w: u128, ti: u8)
    requires
        ti < 128,
        bit128(w, ti as u128),
        count_bits(w) == 1,
    ensures
        chosen_index(w) == ti as u128,
        w == 1u128 << (ti as u128),
{
    crate::bits::lemma_singleton(w, ti as u128);
    crate::bits::lemma_single_bit(ti as u128);
    assert((ti as u128) < 128 && bit128(w, ti as u128));
    let ci = chosen_index(w);
    assert(ci < 128 && bit128(w, ci));
}

impl World {
    /// The color a cell shows: its tile type's color once collapsed, the
    /// black sentinel while not.
    pub open spec fn pixel_of(self, x: int, y: int) -> (u8, u8, u8) {
        if self.collapsed_of(x, y) {
            self.spec_types()[chosen_index(self.wave_of(x, y)) as int].color
        } else {
            (0u8, 0u8, 0u8)
        }
    }

    /// The tile-type index a collapsed cell ended on.
    pub fn collapsed_index(&self, x: usize, y: usize) -> (r: u8)
        requires
            self.wf(),
            self.in_bounds(x as int, y as int),
            self.collapsed_of(x as int, y as int),
        ensures
            r as u128 == chosen_index(self.wave_of(x as int, y as int)),
            (r as int) < self.type_count(),
            self.wave_of(x as int, y as int) == 1u128 << (r as u128),
    {
        proof {
            lemma_idx_bounds(x as int, y as int, self.spec_width(), self.spec_height());
        }
        let t = self.tiles[x * self.size.1 + y];
        let r = crate::bits::nth_set_bit(t.wave, 0);
        proof {
            lemma_chosen(t.wave, r);
            assert(wave_in_range(t.wave, self.type_count()));
        }
        r
    }

    /// One pixel per cell, in column-major order (`x * height + y`): a
    /// collapsed cell shows its tile type's color, an uncollapsed cell the
    /// black sentinel.
    #[verifier::loop_isolation(false)]
    pub fn render(&self) -> (pix: Vec<(u8, u8, u8)>)
        requires
            self.wf(),
        ensures
            pix@.len() == self.spec_width() * self.spec_height(),
            forall|x: int, y: int|
                self.in_bounds(x, y) ==> pix@[self.idx_of(x, y)] == self.pixel_of(x, y),
    {
        let w = self.size.0;
        let h = self.size.1;
        let mut pix: Vec<(u8, u8, u8)> = Vec::new();
        let mut x: usize = 0;
        while x < w
            invariant
                x <= w,
                pix@.len() == x * h,
                forall|a: int, b: int|
                    0 <= a < x && 0 <= b < h ==> pix@[self.idx_of(a, b)] == self.pixel_of(a, b),
            decreases w - x,
        {
            let mut y: usize = 0;
            while y < h
                invariant
                    x < w,
                    y <= h,
                    pix@.len() == x * h + y,
                    forall|a: int, b: int|
                        0 <= a < x && 0 <= b < h ==> pix@[self.idx_of(a, b)] == self.pixel_of(a, b),
                    forall|b: int| 0 <= b < y ==> pix@[self.idx_of(x as int, b)] == self.pixel_of(x as int, b),
                decreases h - y,
            {
                proof {
                    lemma_idx_bounds(x as int, y as int, w as int, h as int);
                }
                let t = self.tiles[x * h + y];
                if t.collapsed {
                    let ti = crate::bits::nth_set_bit(t.wave, 0);
                    proof {
                        lemma_chosen(t.wave, ti);
                        assert(wave_in_range(t.wave, self.type_count()));
                    }
                    let c = self.tile_types[ti as usize].color;
                    pix.push(c);
                } else {
                    pix.push((0, 0, 0));
                }
                proof {
                    assert forall|a: int, b: int| 0 <= a < x && 0 <= b < h implies pix@[self.idx_of(
                        a,
                        b,
                    )] == self.pixel_of(a, b) by {
                        lemma_idx_bounds(a, b, x as int, h as int);
                        assert(self.idx_of(a, b) < x * h);
                    }
                }
                y = y + 1;
            }
            x = x + 1;
            proof {
                assert(x * h == (x - 1) * h + h) by (nonlinear_arith);
            }
        }
        proof {
            assert forall|a: int, b: int| self.in_bounds(a, b) implies pix@[self.idx_of(a, b)]
                == self.pixel_of(a, b) by {}
        }
        pix
    }
}

proof fn lemma_open_budget_rec(s: Seq<Tile>, open: Seq<Point>, w: int, h: int)
    requires
        w >= 1,
        h >= 1,
        s.len() == w * h,
        forall|k: int|
            0 <= k < open.len() ==> ((#[trigger] open[k]).x as int) < w && (open[k].y as int) < h
                && !s[open[k].x as int * h + open[k].y as int].collapsed,
        forall|k1: int, k2: int| 0 <= k1 < k2 < open.len() ==> open[k1] != open[k2],
    ensures
        collapsed_count_rec(s, s.len() as int) + open.len() <= w * h,
    decreases open.len(),
{
    if open.len() == 0 {
        lemma_cc_bounds(s, s.len() as int);
    } else {
        let p = open.last();
        let px = p.x as int;
        let py = p.y as int;
        let idx = px * h + py;
        lemma_idx_bounds(px, py, w, h);
        let t = s[idx];
        let t2 = Tile { wave: t.wave, collapsed: true };
        let s2 = s.update(idx, t2);
        lemma_cc_update(s, idx, t2, s.len() as int);
        let open2 = open.drop_last();
        assert forall|k: int| 0 <= k < open2.len() implies ((#[trigger] open2[k]).x as int) < w && (
        open2[k].y as int) < h && !s2[open2[k].x as int * h + open2[k].y as int].collapsed by {
            assert(open2[k] == open[k]);
            lemma_idx_bounds(open[k].x as int, open[k].y as int, w, h);
            if open[k].x as int * h + open[k].y as int == idx {
                lemma_idx_injective(open[k].x as int, open[k].y as int, px, py, h);
                assert(open[k] == p);
                assert(open[k] != open[open.len() - 1]);
                assert(false);
            }
        }
        lemma_open_budget_rec(s2, open2, w, h);
    }
}

impl World {
    /// Termination: the open set holds distinct uncollapsed positions, so
    /// collapsed cells and open entries together never exceed the grid size.
    /// Each successful `step` call needs one open entry and collapses exactly
    /// one more cell, so repeated `step` calls return `false` after at most
    /// `width * height` of them.
    pub proof fn lemma_open_budget(w: World)
        requires
            w.wf(),
        ensures
            w.collapsed_count() + w.open_len() <= w.spec_width() * w.spec_height(),
    {
        let s = w.tile_seq();
        let open = w.open_set();
        let gw = w.spec_width();
        let gh = w.spec_height();
        assert forall|k: int| 0 <= k < open.len() implies ((#[trigger] open[k]).x as int) < gw && (
        open[k].y as int) < gh && !s[open[k].x as int * gh + open[k].y as int].collapsed by {
            assert(w.open_ok(w.open_set()[k]));
        }
        lemma_open_budget_rec(s, open, gw, gh);
    }
}

} // verus!
