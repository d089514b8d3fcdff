//! Coordinates, cells and the square grid of tiles, with the constraint
//! filter that decides which variants fit an empty cell.
use crate::catalog::{
    catalog, conn_pred, glyph, has_bottom_connection, has_conn, has_left_connection,
    has_right_connection, has_top_connection, init_wtiles, is_edge_bit, is_variant,
    lemma_with_conn_variants, variant, with_conn, TileType, BOTTOM, LEFT, NUM_VARIANTS, RIGHT, TOP,
};
use crate::sampler::TileGenerator;
use vstd::prelude::*;

verus! {

/// `x + y * size` lies below `size * size` for coordinates inside the grid.
pub proof fn lemma_index_bound(x: int, y: int, size: int)
    requires
        0 <= x < size,
        0 <= y < size,
    ensures
        0 <= y * size <= x + y * size < size * size,
{
    assert(0 <= y * size) by (nonlinear_arith)
        requires
            0 <= y,
            0 <= size,
    ;
    assert(x + y * size < size * size) by (nonlinear_arith)
        requires
            0 <= x < size,
            0 <= y < size,
    ;
}

/// Distinct coordinates inside the grid have distinct linear indices.
pub proof fn lemma_index_distinct(x1: int, y1: int, x2: int, y2: int, size: int)
    requires
        0 <= x1 < size,
        0 <= y1 < size,
        0 <= x2 < size,
        0 <= y2 < size,
        x1 != x2 || y1 != y2,
    ensures
        x1 + y1 * size != x2 + y2 * size,
{
    if y1 < y2 {
        assert(x1 + y1 * size < x2 + y2 * size) by (nonlinear_arith)
            requires
                0 <= x1 < size,
                0 <= x2,
                y1 < y2,
        ;
    } else if y2 < y1 {
        assert(x2 + y2 * size < x1 + y1 * size) by (nonlinear_arith)
            requires
                0 <= x2 < size,
                0 <= x1,
                y2 < y1,
        ;
    }
}

/// A position in the grid: column `x`, row `y`, row 0 at the top.
#[derive(Clone, Copy, Debug, PartialEq, Eq, Structural)]
pub struct Coord {
    pub x: usize,
    pub y: usize,
}

impl Coord {
    /// Linear index of `(x, y)` in a grid of side `size`.
    pub fn to_index(x: usize, y: usize, size: usize) -> (r: usize)
        requires
            x < size,
            y < size,
            size * size <= usize::MAX,
        ensures
            r == x + y * size,
            r < size * size,
    {
        proof {
            lemma_index_bound(x as int, y as int, size as int);
        }
        x + y * size
    }

    /// Coordinates of the linear index `i` in a grid of side `size`.
    pub fn new(i: usize, size: usize) -> (r: Coord)
        requires
            size > 0,
        ensures
            r.x == i % size,
            r.y == i / size,
    {
        Coord { x: i % size, y: i / size }
    }
}

/// One cell: its index, its coordinates, its glyph and its mask `ch_i`
/// (mask 0, the blank glyph, marks an unfilled cell).
#[derive(Clone, Copy, Debug, PartialEq, Eq, Structural)]
pub struct Tile {
    pub indx: usize,
    pub pos: Coord,
    pub ch: char,
    pub ch_i: u8,
}

impl Tile {
    /// The cell at index `i` of a grid of side `size`, holding mask `t`.
    pub fn new(i: usize, t: usize, size: usize) -> (r: Tile)
        requires
            t < NUM_VARIANTS,
            size > 0,
        ensures
            r.indx == i,
            r.pos.x == i % size,
            r.pos.y == i / size,
            r.ch == glyph(t as int),
            r.ch_i == t,
    {
        Tile { indx: i, pos: Coord::new(i, size), ch: crate::catalog::variant_for(t).ch, ch_i: t as u8 }
    }

    /// The unfilled cell at index `i` of a grid of side `size`.
    pub fn empty(i: usize, size: usize) -> (r: Tile)
        requires
            size > 0,
        ensures
            r.indx == i,
            r.pos.x == i % size,
            r.pos.y == i / size,
            r.ch == glyph(0),
            r.ch_i == 0,
    {
        Tile::new(i, 0, size)
    }

    /// Puts mask `t` and its glyph in this unfilled cell.
    pub fn set_char(&mut self, t: usize)
        requires
            old(self).ch_i == 0,
            t < NUM_VARIANTS,
        ensures
            *final(self) == (Tile { ch: glyph(t as int), ch_i: t as u8, ..*old(self) }),
    {
        self.ch = crate::catalog::variant_for(t).ch;
        self.ch_i = t as u8;
    }
}

/// The cell one step from `(x, y)` through the edge `dir`.
pub open spec fn neighbor(x: int, y: int, dir: int) -> (int, int) {
    if dir == 1 {
        (x, y - 1)
    } else if dir == 2 {
        (x + 1, y)
    } else if dir == 4 {
        (x, y + 1)
    } else {
        (x - 1, y)
    }
}

/// The edge bit facing back: top against bottom, right against left.
pub open spec fn opposite(dir: int) -> int {
    if dir == 1 {
        4
    } else if dir == 2 {
        8
    } else if dir == 4 {
        1
    } else {
        2
    }
}

/// Why a cell could not be written.
#[derive(Clone, Copy, Debug, PartialEq, Eq, Structural)]
pub enum FillError {
    /// The coordinates lie outside the grid.
    OutOfRange,
    /// The cell already holds a tile.
    AlreadyFilled,
}

/// A square grid of cells together with the per-direction candidate sets and
/// the random source that fills it.
pub struct TileMap {
    tiles: Vec<Tile>,
    size: usize,
    bottom_tiles: Vec<TileType>,
    left_tiles: Vec<TileType>,
    top_tiles: Vec<TileType>,
    right_tiles: Vec<TileType>,
    tile_gen: TileGenerator,
}

/// Number of unfilled cells in `tiles`.
pub open spec fn empties(tiles: Seq<Tile>) -> nat
    decreases tiles.len(),
{
    if tiles.len() == 0 {
        0
    } else {
        empties(tiles.drop_last()) + if tiles.last().ch_i == 0 { 1nat } else { 0nat }
    }
}

/// Filling one unfilled cell leaves one unfilled cell fewer.
proof fn lemma_empties_fill(tiles: Seq<Tile>, i: int, t: Tile)
    requires
        0 <= i < tiles.len(),
        tiles[i].ch_i == 0,
        t.ch_i != 0,
    ensures
        empties(tiles.update(i, t)) + 1 == empties(tiles),
    decreases tiles.len(),
{
    let u = tiles.update(i, t);
    if i == tiles.len() - 1 {
        assert(u.drop_last() =~= tiles.drop_last());
    } else {
        assert(u.drop_last() =~= tiles.drop_last().update(i, t));
        lemma_empties_fill(tiles.drop_last(), i, t);
    }
}

impl TileMap {
    /// The random source that fills the grid.
    pub closed spec fn generator(&self) -> TileGenerator {
        self.tile_gen
    }

    /// Side of the grid.
    pub closed spec fn side(&self) -> int {
        self.size as int
    }

    /// The side of a grid is a machine-sized integer.
    pub proof fn lemma_side_fits(&self)
        ensures
            0 <= self.side() <= usize::MAX,
    {
    }

    /// Mask held at `(x, y)`; 0 where the cell is unfilled.
    pub closed spec fn mask(&self, x: int, y: int) -> int {
        self.tiles@[x + y * self.size].ch_i as int
    }

    /// Glyph held at `(x, y)`.
    pub closed spec fn glyph_at(&self, x: int, y: int) -> char {
        self.tiles@[x + y * self.size].ch
    }

    /// The structure of the grid is sound: one cell per coordinate, each with
    /// its own index and coordinates, a catalog mask and that mask's glyph;
    /// the four candidate sets and the random source are in place.
    pub closed spec fn wf(&self) -> bool {
        &&& self.size > 0
        &&& self.size * self.size <= usize::MAX
        &&& self.tiles@.len() == self.size * self.size
        &&& forall|i: int|
            0 <= i < self.tiles@.len() ==> {
                let t = #[trigger] self.tiles@[i];
                &&& t.indx == i
                &&& t.pos.x == i % self.size as int
                &&& t.pos.y == i / self.size as int
                &&& t.ch_i < NUM_VARIANTS
                &&& t.ch == glyph(t.ch_i as int)
            }
        &&& self.bottom_tiles@ == with_conn(TOP as int)
        &&& self.left_tiles@ == with_conn(RIGHT as int)
        &&& self.top_tiles@ == with_conn(BOTTOM as int)
        &&& self.right_tiles@ == with_conn(LEFT as int)
        &&& self.tile_gen.wf()
    }

    /// Whether `(x, y)` lies inside the grid.
    pub open spec fn in_grid(&self, x: int, y: int) -> bool {
        0 <= x < self.side() && 0 <= y < self.side()
    }

    /// Whether `(x, y)` holds a tile.
    pub open spec fn filled(&self, x: int, y: int) -> bool {
        self.mask(x, y) != 0
    }

    /// Mask `m` at `(x, y)` agrees with the edge `dir`: no connection out of
    /// the grid, and the same connection as a filled neighbour has back.
    pub open spec fn edge_fits(&self, x: int, y: int, m: int, dir: int) -> bool {
        let n = neighbor(x, y, dir);
        if !self.in_grid(n.0, n.1) {
            !has_conn(m, dir)
        } else {
            self.filled(n.0, n.1) ==> has_conn(m, dir) == has_conn(
                self.mask(n.0, n.1),
                opposite(dir),
            )
        }
    }

    /// Mask `m` may be placed at `(x, y)` given the grid's edges and the
    /// filled neighbours.
    pub open spec fn admits(&self, x: int, y: int, m: int) -> bool {
        &&& self.edge_fits(x, y, m, TOP as int)
        &&& self.edge_fits(x, y, m, RIGHT as int)
        &&& self.edge_fits(x, y, m, BOTTOM as int)
        &&& self.edge_fits(x, y, m, LEFT as int)
    }

    /// The variants of `base` that may be placed at `(x, y)`, in order.
    pub open spec fn admissible_spec(&self, x: int, y: int, base: Seq<TileType>) -> Seq<TileType> {
        base.filter(self.admits_pred(x, y))
    }

    /// Whether a variant may be placed at `(x, y)`.
    pub open spec fn admits_pred(&self, x: int, y: int) -> spec_fn(TileType) -> bool {
        |t: TileType| self.admits(x, y, t.ci as int)
    }

    /// Mask `m` at `(x, y)` has the same connection through `dir` as a filled
    /// neighbour in the grid has back.
    pub open spec fn edge_agrees(&self, x: int, y: int, m: int, dir: int) -> bool {
        let n = neighbor(x, y, dir);
        self.in_grid(n.0, n.1) && self.filled(n.0, n.1) ==> has_conn(m, dir) == has_conn(
            self.mask(n.0, n.1),
            opposite(dir),
        )
    }

    /// Mask `m` at `(x, y)` agrees with all its filled neighbours.
    pub open spec fn agrees(&self, x: int, y: int, m: int) -> bool {
        &&& self.edge_agrees(x, y, m, TOP as int)
        &&& self.edge_agrees(x, y, m, RIGHT as int)
        &&& self.edge_agrees(x, y, m, BOTTOM as int)
        &&& self.edge_agrees(x, y, m, LEFT as int)
    }

    /// Every filled cell agrees with all its edges, but that the cell `seed`
    /// may connect out of the grid.
    pub open spec fn consistent_but(&self, seed: (int, int)) -> bool {
        forall|x: int, y: int|
            self.in_grid(x, y) && #[trigger] self.filled(x, y) ==> if (x, y) == seed {
                self.agrees(x, y, self.mask(x, y))
            } else {
                self.admits(x, y, self.mask(x, y))
            }
    }

    /// Horizontally and vertically adjacent filled cells connect to each other
    /// or both not at all.
    pub open spec fn adjacent_agree(&self) -> bool {
        &&& forall|x: int, y: int|
            self.in_grid(x, y) && self.in_grid(x + 1, y) && #[trigger] self.filled(x, y)
                && self.filled(x + 1, y) ==> has_conn(self.mask(x, y), RIGHT as int) == has_conn(
                self.mask(x + 1, y),
                LEFT as int,
            )
        &&& forall|x: int, y: int|
            self.in_grid(x, y) && self.in_grid(x, y + 1) && #[trigger] self.filled(x, y)
                && self.filled(x, y + 1) ==> has_conn(self.mask(x, y), BOTTOM as int) == has_conn(
                self.mask(x, y + 1),
                TOP as int,
            )
    }

    /// No filled cell connects out of the grid.
    pub open spec fn boundary_sealed(&self) -> bool {
        forall|x: int, y: int|
            self.in_grid(x, y) && #[trigger] self.filled(x, y) ==> {
                &&& y == 0 ==> !has_conn(self.mask(x, y), TOP as int)
                &&& x == self.side() - 1 ==> !has_conn(self.mask(x, y), RIGHT as int)
                &&& y == self.side() - 1 ==> !has_conn(self.mask(x, y), BOTTOM as int)
                &&& x == 0 ==> !has_conn(self.mask(x, y), LEFT as int)
            }
    }

    /// Every connection of the filled cell `(x, y)` that stays inside the grid
    /// leads to a filled cell.
    pub open spec fn closed_at(&self, x: int, y: int) -> bool {
        forall|dir: int|
            is_edge_bit(dir) && has_conn(self.mask(x, y), dir) && #[trigger] self.in_grid(
                neighbor(x, y, dir).0,
                neighbor(x, y, dir).1,
            ) ==> self.filled(neighbor(x, y, dir).0, neighbor(x, y, dir).1)
    }

    /// The filled cell `a` connects through one of its edges to `b`.
    pub open spec fn links(&self, a: (int, int), b: (int, int)) -> bool {
        &&& self.filled(a.0, a.1)
        &&& exists|dir: int|
            is_edge_bit(dir) && has_conn(self.mask(a.0, a.1), dir) && #[trigger] neighbor(
                a.0,
                a.1,
                dir,
            ) == b
    }

    /// `parent` and `rank` witness that every filled cell is reached from
    /// `seed`: each filled cell but the seed links back from a filled parent
    /// of smaller rank.
    pub open spec fn rooted(
        &self,
        seed: (int, int),
        parent: Map<(int, int), (int, int)>,
        rank: Map<(int, int), nat>,
    ) -> bool {
        &&& self.in_grid(seed.0, seed.1)
        &&& self.filled(seed.0, seed.1)
        &&& rank.dom().contains(seed)
        &&& forall|x: int, y: int|
            self.in_grid(x, y) && #[trigger] self.filled(x, y) && (x, y) != seed ==> {
                &&& parent.dom().contains((x, y))
                &&& rank.dom().contains((x, y))
                &&& {
                    let p = parent[(x, y)];
                    &&& self.in_grid(p.0, p.1)
                    &&& rank.dom().contains(p)
                    &&& rank[p] < rank[(x, y)]
                    &&& self.links(p, (x, y))
                }
            }
    }

    /// Every filled cell is reached from `seed` by following connections
    /// through filled cells.
    pub open spec fn reachable_from(&self, seed: (int, int)) -> bool {
        exists|parent: Map<(int, int), (int, int)>, rank: Map<(int, int), nat>|
            self.rooted(seed, parent, rank)
    }

    /// A grid of side `size` with no cell yet, and its candidate sets.
    fn new(size: usize, tile_gen: TileGenerator) -> (r: TileMap)
        requires
            tile_gen.wf(),
        ensures
            r.tiles@.len() == 0,
            r.size == size,
            r.bottom_tiles@ == with_conn(TOP as int),
            r.left_tiles@ == with_conn(RIGHT as int),
            r.top_tiles@ == with_conn(BOTTOM as int),
            r.right_tiles@ == with_conn(LEFT as int),
            r.tile_gen.wf(),
    {
        TileMap {
            tiles: Vec::new(),
            size,
            bottom_tiles: init_wtiles(TOP),
            left_tiles: init_wtiles(RIGHT),
            top_tiles: init_wtiles(BOTTOM),
            right_tiles: init_wtiles(LEFT),
            tile_gen,
        }
    }

    /// A grid of side `size` with every cell unfilled.
    pub fn empty(size: usize, tile_gen: TileGenerator) -> (r: TileMap)
        requires
            size > 0,
            size * size <= usize::MAX,
            tile_gen.wf(),
        ensures
            r.wf(),
            r.side() == size,
            forall|x: int, y: int| r.in_grid(x, y) ==> !#[trigger] r.filled(x, y),
    {
        let mut map = TileMap::new(size, tile_gen);
        let total = size * size;
        let mut i: usize = 0;
        while i < total
            invariant
                i <= total,
                total == size * size,
                map.size == size,
                map.tiles@.len() == i,
                forall|j: int|
                    0 <= j < i ==> {
                        let t = #[trigger] map.tiles@[j];
                        &&& t.indx == j
                        &&& t.pos.x == j % size as int
                        &&& t.pos.y == j / size as int
                        &&& t.ch_i == 0
                        &&& t.ch == glyph(0)
                    },
                size > 0,
                map.bottom_tiles@ == with_conn(TOP as int),
                map.left_tiles@ == with_conn(RIGHT as int),
                map.top_tiles@ == with_conn(BOTTOM as int),
                map.right_tiles@ == with_conn(LEFT as int),
                map.tile_gen.wf(),
            decreases total - i,
        {
            map.tiles.push(Tile::empty(i, size));
            i = i + 1;
        }
        assert forall|x: int, y: int| map.in_grid(x, y) implies !#[trigger] map.filled(x, y) by {
            lemma_index_bound(x, y, size as int);
        }
        map
    }

    /// A grid of side `size` with every cell drawn from the whole catalog,
    /// paying no heed to its neighbours.
    pub fn random(size: usize, tile_gen: TileGenerator) -> (r: TileMap)
        requires
            size > 0,
            size * size <= usize::MAX,
            tile_gen.wf(),
        ensures
            r.wf(),
            r.side() == size,
    {
        let mut map = TileMap::new(size, tile_gen);
        let total = size * size;
        let mut i: usize = 0;
        while i < total
            invariant
                i <= total,
                total == size * size,
                map.size == size,
                map.tiles@.len() == i,
                forall|j: int|
                    0 <= j < i ==> {
                        let t = #[trigger] map.tiles@[j];
                        &&& t.indx == j
                        &&& t.pos.x == j % size as int
                        &&& t.pos.y == j / size as int
                        &&& t.ch_i < NUM_VARIANTS
                        &&& t.ch == glyph(t.ch_i as int)
                    },
                size > 0,
                map.bottom_tiles@ == with_conn(TOP as int),
                map.left_tiles@ == with_conn(RIGHT as int),
                map.top_tiles@ == with_conn(BOTTOM as int),
                map.right_tiles@ == with_conn(LEFT as int),
                map.tile_gen.wf(),
            decreases total - i,
        {
            let ti = map.tile_gen.random_tile_index();
            map.tiles.push(Tile::new(i, ti, size));
            i = i + 1;
        }
        map
    }

    /// Side of the grid.
    pub fn size(&self) -> (r: usize)
        ensures
            r == self.side(),
    {
        self.size
    }

    /// Mask held at `(x, y)`.
    pub fn mask_of(&self, x: usize, y: usize) -> (r: u8)
        requires
            self.wf(),
            self.in_grid(x as int, y as int),
        ensures
            r == self.mask(x as int, y as int),
            r < NUM_VARIANTS,
    {
        let i = Coord::to_index(x, y, self.size);
        self.tiles[i].ch_i
    }

    /// The cell at `(x, y)`.
    pub fn tile(&self, x: usize, y: usize) -> (r: Tile)
        requires
            self.wf(),
            self.in_grid(x as int, y as int),
        ensures
            r.ch_i == self.mask(x as int, y as int),
            r.ch == self.glyph_at(x as int, y as int),
            r.ch == glyph(r.ch_i as int),
            r.pos == (Coord { x, y }),
    {
        let i = Coord::to_index(x, y, self.size);
        proof {
            let s = self.size as int;
            assert((x + y * s) % s == x as int && (x + y * s) / s == y as int) by (nonlinear_arith)
                requires
                    0 <= x < s,
                    0 <= y,
            ;
        }
        self.tiles[i]
    }

    /// Whether mask `m` may be placed at `(x, y)`: the four edge checks.
    pub fn fits(&self, x: usize, y: usize, m: u8) -> (r: bool)
        requires
            self.wf(),
            self.in_grid(x as int, y as int),
        ensures
            r == self.admits(x as int, y as int, m as int),
    {
        let top_ok = if y == 0 {
            !has_top_connection(m)
        } else {
            let u = self.mask_of(x, y - 1);
            u == 0 || has_top_connection(m) == has_bottom_connection(u)
        };
        let right_ok = if x + 1 == self.size {
            !has_right_connection(m)
        } else {
            let v = self.mask_of(x + 1, y);
            v == 0 || has_right_connection(m) == has_left_connection(v)
        };
        let bottom_ok = if y + 1 == self.size {
            !has_bottom_connection(m)
        } else {
            let b = self.mask_of(x, y + 1);
            b == 0 || has_bottom_connection(m) == has_top_connection(b)
        };
        let left_ok = if x == 0 {
            !has_left_connection(m)
        } else {
            let l = self.mask_of(x - 1, y);
            l == 0 || has_left_connection(m) == has_right_connection(l)
        };
        top_ok && right_ok && bottom_ok && left_ok
    }

    /// The variants of `tile_vec` that may be placed at `(x, y)`, in order.
    pub fn admissible(&self, x: usize, y: usize, tile_vec: &Vec<TileType>) -> (r: Vec<TileType>)
        requires
            self.wf(),
            self.in_grid(x as int, y as int),
            forall|i: int| 0 <= i < tile_vec@.len() ==> is_variant(#[trigger] tile_vec@[i]),
        ensures
            r@ == self.admissible_spec(x as int, y as int, tile_vec@),
    {
        let ghost pred = self.admits_pred(x as int, y as int);
        let mut r: Vec<TileType> = Vec::new();
        let mut i: usize = 0;
        while i < tile_vec.len()
            invariant
                i <= tile_vec@.len(),
                self.wf(),
                self.in_grid(x as int, y as int),
                forall|k: int| 0 <= k < tile_vec@.len() ==> is_variant(#[trigger] tile_vec@[k]),
                pred == self.admits_pred(x as int, y as int),
                r@ == tile_vec@.subrange(0, i as int).filter(pred),
            decreases tile_vec@.len() - i,
        {
            let t = tile_vec[i];
            proof {
                assert(is_variant(tile_vec@[i as int]));
                assert(tile_vec@.subrange(0, i + 1) =~= tile_vec@.subrange(0, i as int).push(t));
                tile_vec@.subrange(0, i as int).lemma_filter_push(t, pred);
            }
            if self.fits(x, y, t.ci as u8) {
                r.push(t);
            }
            i = i + 1;
        }
        assert(tile_vec@.subrange(0, tile_vec@.len() as int) =~= tile_vec@);
        r
    }

    /// Number of unfilled cells.
    pub closed spec fn unfilled_count(&self) -> nat {
        empties(self.tiles@)
    }

    /// Whether the neighbour of `n` through `d` is filled and connects back.
    pub open spec fn demands(&self, n: (int, int), d: int) -> bool {
        let q = neighbor(n.0, n.1, d);
        self.in_grid(q.0, q.1) && self.filled(q.0, q.1) && has_conn(self.mask(q.0, q.1), opposite(d))
    }

    /// An empty cell reached through a connection of a filled cell always has
    /// a variant that fits it among those connecting back.
    pub proof fn lemma_fit_exists(&self, x: int, y: int, dir: int)
        requires
            self.wf(),
            self.in_grid(x, y),
            self.filled(x, y),
            is_edge_bit(dir),
            has_conn(self.mask(x, y), dir),
            self.in_grid(neighbor(x, y, dir).0, neighbor(x, y, dir).1),
            !self.filled(neighbor(x, y, dir).0, neighbor(x, y, dir).1),
        ensures
            self.admissible_spec(
                neighbor(x, y, dir).0,
                neighbor(x, y, dir).1,
                with_conn(opposite(dir)),
            ).len() > 0,
    {
        let n = neighbor(x, y, dir);
        let t: int = if self.demands(n, 1) { 1 } else { 0 };
        let r: int = if self.demands(n, 2) { 2 } else { 0 };
        let b: int = if self.demands(n, 4) { 4 } else { 0 };
        let l: int = if self.demands(n, 8) { 8 } else { 0 };
        let m = t + r + b + l;
        assert(has_conn(m, 1) == self.demands(n, 1));
        assert(has_conn(m, 2) == self.demands(n, 2));
        assert(has_conn(m, 4) == self.demands(n, 4));
        assert(has_conn(m, 8) == self.demands(n, 8));
        assert(neighbor(n.0, n.1, opposite(dir)) == (x, y));
        assert(self.admits(n.0, n.1, m));
        assert(has_conn(m, opposite(dir)));
        let base = with_conn(opposite(dir));
        assert(catalog()[m] == variant(m));
        catalog().lemma_filter_contains(conn_pred(opposite(dir)), m);
        assert(base.contains(variant(m)));
        let j = choose|j: int| 0 <= j < base.len() && base[j] == variant(m);
        base.lemma_filter_contains(self.admits_pred(n.0, n.1), j);
    }

    /// Writes mask `m` into the unfilled cell `(x, y)`.
    pub(crate) fn set_mask(&mut self, x: usize, y: usize, m: usize)
        requires
            old(self).wf(),
            old(self).in_grid(x as int, y as int),
            !old(self).filled(x as int, y as int),
            m < NUM_VARIANTS,
        ensures
            final(self).wf(),
            final(self).generator() == old(self).generator(),
            final(self).side() == old(self).side(),
            forall|a: int, b: int|
                final(self).in_grid(a, b) ==> #[trigger] final(self).mask(a, b) == if a == x && b == y {
                    m as int
                } else {
                    old(self).mask(a, b)
                },
            m != 0 ==> final(self).unfilled_count() + 1
                == old(self).unfilled_count(),
    {
        let i = Coord::to_index(x, y, self.size);
        let mut t = self.tiles[i];
        t.set_char(m);
        self.tiles.set(i, t);
        proof {
            let s = self.size as int;
            assert forall|a: int, b: int| self.in_grid(a, b) implies #[trigger] self.mask(a, b) == if a
                == x && b == y {
                m as int
            } else {
                old(self).mask(a, b)
            } by {
                lemma_index_bound(a, b, s);
                if a != x || b != y {
                    lemma_index_distinct(a, b, x as int, y as int, s);
                }
            }
            if m != 0 {
                lemma_empties_fill(old(self).tiles@, i as int, t);
            }
        }
    }

    /// Draws the mask for the empty cell `(x, y)`, reached through the edge
    /// `dir` of a filled neighbour: a variant that connects back through the
    /// opposite edge and fits every edge of `(x, y)`, with probability
    /// proportional to its weight among those.
    pub fn get_tile(&mut self, x: usize, y: usize, dir: u8) -> (r: usize)
        requires
            old(self).wf(),
            old(self).in_grid(x as int, y as int),
            is_edge_bit(dir as int),
            old(self).admissible_spec(x as int, y as int, with_conn(opposite(dir as int))).len() > 0,
        ensures
            final(self).wf(),
            final(self).side() == old(self).side(),
            forall|a: int, b: int| #[trigger] final(self).mask(a, b) == old(self).mask(a, b),
            final(self).unfilled_count() == old(self).unfilled_count(),
            final(self).generator().table() == old(self).generator().table(),
            r < NUM_VARIANTS,
            has_conn(r as int, opposite(dir as int)),
            old(self).admits(x as int, y as int, r as int),
    {
        proof {
            lemma_with_conn_variants(TOP as int);
            lemma_with_conn_variants(RIGHT as int);
            lemma_with_conn_variants(BOTTOM as int);
            lemma_with_conn_variants(LEFT as int);
        }
        let tile_vec = if dir == TOP {
            self.admissible(x, y, &self.top_tiles)
        } else if dir == RIGHT {
            self.admissible(x, y, &self.right_tiles)
        } else if dir == BOTTOM {
            self.admissible(x, y, &self.bottom_tiles)
        } else {
            self.admissible(x, y, &self.left_tiles)
        };
        let ghost base = with_conn(opposite(dir as int));
        let ghost pred = self.admits_pred(x as int, y as int);
        proof {
            base.lemma_filter_len(pred);
            catalog().lemma_filter_len(conn_pred(opposite(dir as int)));
            assert forall|i: int| 0 <= i < tile_vec@.len() implies is_variant(
                #[trigger] tile_vec@[i],
            ) && has_conn(tile_vec@[i].ci as int, opposite(dir as int)) by {
                assert(tile_vec@.contains(tile_vec@[i]));
                base.lemma_filter_contains_rev(pred, tile_vec@[i]);
                let j = choose|j: int| 0 <= j < base.len() && base[j] == tile_vec@[i];
                catalog().lemma_filter_pred(conn_pred(opposite(dir as int)), j);
                catalog().lemma_filter_contains_rev(conn_pred(opposite(dir as int)), tile_vec@[i]);
            }
        }
        let i = self.tile_gen.tile_index_from(&tile_vec);
        proof {
            base.lemma_filter_pred(pred, i as int);
        }
        tile_vec[i].ci
    }

    /// Puts mask `t` into the cell `(x, y)`. A cell is written once: a cell
    /// outside the grid or already filled is refused and nothing changes.
    pub fn fill(&mut self, x: usize, y: usize, t: usize) -> (r: Result<(), FillError>)
        requires
            old(self).wf(),
            0 < t < NUM_VARIANTS,
        ensures
            final(self).wf(),
            final(self).side() == old(self).side(),
            r == Err::<(), FillError>(FillError::OutOfRange) <==> !old(self).in_grid(x as int, y as int),
            r == Err::<(), FillError>(FillError::AlreadyFilled) <==> old(self).in_grid(x as int, y as int)
                && old(self).filled(x as int, y as int),
            r is Err ==> *final(self) == *old(self),
            r is Ok ==> forall|a: int, b: int|
                final(self).in_grid(a, b) ==> #[trigger] final(self).mask(a, b) == if a == x && b == y {
                    t as int
                } else {
                    old(self).mask(a, b)
                },
    {
        if x >= self.size || y >= self.size {
            return Err(FillError::OutOfRange);
        }
        if self.mask_of(x, y) != 0 {
            return Err(FillError::AlreadyFilled);
        }
        self.set_mask(x, y, t);
        Ok(())
    }

}

} // verus!
