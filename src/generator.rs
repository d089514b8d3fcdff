//! Depth-first flood fill of a grid from one seed tile: every connection of
//! a placed tile leads to a tile drawn to fit all its neighbours.
use crate::catalog::{bit_on, has_conn, is_edge_bit, BOTTOM, LEFT, RIGHT, START_CHAR_INDEX, TOP};
use crate::grid::{neighbor, opposite, Coord, TileMap};
use crate::sampler::TileGenerator;
use vstd::prelude::*;

verus! {

impl TileMap {
    /// Fills the neighbour of the filled cell `(x, y)` through the edge `dir`
    /// when `(x, y)` connects that way, the neighbour lies in the grid and is
    /// unfilled; returns the neighbour's coordinates when it was filled.
    fn extend(&mut self, x: usize, y: usize, dir: u8, Ghost(seed): Ghost<(int, int)>) -> (r: Option<Coord>)
        requires
            old(self).wf(),
            old(self).consistent_but(seed),
            old(self).in_grid(seed.0, seed.1),
            old(self).filled(seed.0, seed.1),
            old(self).in_grid(x as int, y as int),
            old(self).filled(x as int, y as int),
            is_edge_bit(dir as int),
        ensures
            final(self).wf(),
            final(self).side() == old(self).side(),
            final(self).consistent_but(seed),
            TileMap::extended(*old(self), *final(self), (x as int, y as int), dir as int, r),
    {
        let m = self.mask_of(x, y);
        if !bit_on(m, dir) {
            return None;
        }
        let s = self.size();
        let (nx, ny) = if dir == TOP {
            if y == 0 {
                return None;
            }
            (x, y - 1)
        } else if dir == RIGHT {
            if x + 1 == s {
                return None;
            }
            (x + 1, y)
        } else if dir == BOTTOM {
            if y + 1 == s {
                return None;
            }
            (x, y + 1)
        } else {
            if x == 0 {
                return None;
            }
            (x - 1, y)
        };
        assert((nx as int, ny as int) == neighbor(x as int, y as int, dir as int));
        if self.mask_of(nx, ny) != 0 {
            return None;
        }
        proof {
            self.lemma_fit_exists(x as int, y as int, dir as int);
        }
        let ghost before = *self;
        let ci = self.get_tile(nx, ny, dir);
        self.set_mask(nx, ny, ci);
        proof {
            TileMap::lemma_write_keeps_consistent(before, *self, seed, nx as int, ny as int, ci as int);
        }
        Some(Coord { x: nx, y: ny })
    }

    /// After `m` is written into the empty cell `(x, y)`, where it fits, the
    /// filled cell `(a, b)` still agrees with its edge `d`.
    proof fn lemma_edge_after_write(
        pre: TileMap,
        post: TileMap,
        seed: (int, int),
        x: int,
        y: int,
        m: int,
        a: int,
        b: int,
        d: int,
    )
        requires
            pre.side() == post.side(),
            pre.consistent_but(seed),
            pre.filled(seed.0, seed.1),
            pre.in_grid(x, y),
            !pre.filled(x, y),
            pre.admits(x, y, m),
            forall|i: int, j: int|
                post.in_grid(i, j) ==> #[trigger] post.mask(i, j) == if i == x && j == y {
                    m
                } else {
                    pre.mask(i, j)
                },
            post.in_grid(a, b),
            post.filled(a, b),
            is_edge_bit(d),
        ensures
            post.edge_agrees(a, b, post.mask(a, b), d),
            (a, b) != seed ==> post.edge_fits(a, b, post.mask(a, b), d),
    {
        let q = neighbor(a, b, d);
        if a == x && b == y {
            assert(pre.edge_fits(x, y, m, d));
            if post.in_grid(q.0, q.1) {
                assert(post.mask(q.0, q.1) == pre.mask(q.0, q.1));
            }
        } else {
            assert(post.mask(a, b) == pre.mask(a, b));
            assert(pre.filled(a, b));
            if (a, b) == seed {
                assert(pre.agrees(a, b, pre.mask(a, b)));
                assert(pre.edge_agrees(a, b, pre.mask(a, b), d));
            } else {
                assert(pre.admits(a, b, pre.mask(a, b)));
                assert(pre.edge_fits(a, b, pre.mask(a, b), d));
            }
            if post.in_grid(q.0, q.1) {
                if q.0 == x && q.1 == y {
                    assert(neighbor(x, y, opposite(d)) == (a, b));
                    assert(pre.edge_fits(x, y, m, opposite(d)));
                    assert(opposite(opposite(d)) == d);
                } else {
                    assert(post.mask(q.0, q.1) == pre.mask(q.0, q.1));
                }
            }
        }
    }

    /// Writing a fitting mask into an empty cell keeps the grid consistent.
    proof fn lemma_write_keeps_consistent(
        pre: TileMap,
        post: TileMap,
        seed: (int, int),
        x: int,
        y: int,
        m: int,
    )
        requires
            pre.side() == post.side(),
            pre.consistent_but(seed),
            pre.filled(seed.0, seed.1),
            pre.in_grid(x, y),
            !pre.filled(x, y),
            pre.admits(x, y, m),
            forall|i: int, j: int|
                post.in_grid(i, j) ==> #[trigger] post.mask(i, j) == if i == x && j == y {
                    m
                } else {
                    pre.mask(i, j)
                },
        ensures
            post.consistent_but(seed),
    {
        assert forall|a: int, b: int| post.in_grid(a, b) && #[trigger] post.filled(a, b) implies if (a, b)
            == seed {
            post.agrees(a, b, post.mask(a, b))
        } else {
            post.admits(a, b, post.mask(a, b))
        } by {
            TileMap::lemma_edge_after_write(pre, post, seed, x, y, m, a, b, 1);
            TileMap::lemma_edge_after_write(pre, post, seed, x, y, m, a, b, 2);
            TileMap::lemma_edge_after_write(pre, post, seed, x, y, m, a, b, 4);
            TileMap::lemma_edge_after_write(pre, post, seed, x, y, m, a, b, 8);
        }
    }

    /// What one call of `extend` from `c` through `dir` did: it filled the
    /// neighbour exactly when `c` connects to it and it was an empty cell of
    /// the grid, changed no other cell, and left the neighbour filled whenever
    /// `c` connects to it inside the grid.
    pub open spec fn extended(pre: TileMap, post: TileMap, c: (int, int), dir: int, r: Option<Coord>) -> bool {
        let n = neighbor(c.0, c.1, dir);
        &&& post.side() == pre.side()
        &&& post.generator().table() == pre.generator().table()
        &&& r.is_some() == (has_conn(pre.mask(c.0, c.1), dir) && pre.in_grid(n.0, n.1) && !pre.filled(
            n.0,
            n.1,
        ))
        &&& r is Some ==> r->0.x == n.0 && r->0.y == n.1 && post.unfilled_count() + 1
            == pre.unfilled_count()
        &&& r is None ==> post.unfilled_count() == pre.unfilled_count()
        &&& forall|a: int, b: int|
            pre.in_grid(a, b) && ((a, b) != n || r.is_none()) ==> #[trigger] post.mask(a, b)
                == pre.mask(a, b)
        &&& has_conn(pre.mask(c.0, c.1), dir) && pre.in_grid(n.0, n.1) ==> post.filled(n.0, n.1)
    }

    /// Number of results among four that hold a cell.
    pub open spec fn somes(t: Option<Coord>, r: Option<Coord>, b: Option<Coord>, l: Option<Coord>) -> int {
        (if t is Some { 1int } else { 0 }) + (if r is Some { 1int } else { 0 }) + (if b is Some {
            1int
        } else {
            0
        }) + (if l is Some { 1int } else { 0 })
    }

    /// Whether `n` holds the cell `(a, b)`.
    pub open spec fn holds(n: Option<Coord>, a: int, b: int) -> bool {
        n is Some && n->0.x == a && n->0.y == b
    }

    /// After the four calls of `extend` from the filled cell `c`: the grid has
    /// only grown, `c` is closed, every newly filled cell is one of the four
    /// results, and one cell fewer is empty per result.
    proof fn lemma_spread(
        s0: TileMap,
        s1: TileMap,
        s2: TileMap,
        s3: TileMap,
        s4: TileMap,
        c: (int, int),
        t: Option<Coord>,
        r: Option<Coord>,
        b: Option<Coord>,
        l: Option<Coord>,
    )
        requires
            s0.in_grid(c.0, c.1),
            s0.filled(c.0, c.1),
            TileMap::extended(s0, s1, c, 1, t),
            TileMap::extended(s1, s2, c, 2, r),
            TileMap::extended(s2, s3, c, 4, b),
            TileMap::extended(s3, s4, c, 8, l),
        ensures
            s0.grows_into(s4),
            s4.closed_at(c.0, c.1),
            forall|a: int, bb: int|
                s0.in_grid(a, bb) && #[trigger] s4.filled(a, bb) && !s0.filled(a, bb) ==> TileMap::holds(t, a, bb)
                    || TileMap::holds(r, a, bb) || TileMap::holds(b, a, bb) || TileMap::holds(l, a, bb),
            s4.unfilled_count() + TileMap::somes(t, r, b, l) == s0.unfilled_count(),
            t is Some ==> s4.in_grid(t->0.x as int, t->0.y as int) && s4.filled(t->0.x as int, t->0.y as int),
            r is Some ==> s4.in_grid(r->0.x as int, r->0.y as int) && s4.filled(r->0.x as int, r->0.y as int),
            b is Some ==> s4.in_grid(b->0.x as int, b->0.y as int) && s4.filled(b->0.x as int, b->0.y as int),
            l is Some ==> s4.in_grid(l->0.x as int, l->0.y as int) && s4.filled(l->0.x as int, l->0.y as int),
    {
        if t is Some {
            let n = neighbor(c.0, c.1, 1);
            assert(s1.filled(n.0, n.1));
            assert(s2.mask(n.0, n.1) == s1.mask(n.0, n.1));
            assert(s3.mask(n.0, n.1) == s2.mask(n.0, n.1));
            assert(s4.mask(n.0, n.1) == s3.mask(n.0, n.1));
        }
        if r is Some {
            let n = neighbor(c.0, c.1, 2);
            assert(s2.filled(n.0, n.1));
            assert(s3.mask(n.0, n.1) == s2.mask(n.0, n.1));
            assert(s4.mask(n.0, n.1) == s3.mask(n.0, n.1));
        }
        if b is Some {
            let n = neighbor(c.0, c.1, 4);
            assert(s3.filled(n.0, n.1));
            assert(s4.mask(n.0, n.1) == s3.mask(n.0, n.1));
        }
        assert forall|a: int, bb: int|
            s0.in_grid(a, bb) && s0.filled(a, bb) implies #[trigger] s4.mask(a, bb) == s0.mask(a, bb) by {
            assert(s1.mask(a, bb) == s0.mask(a, bb));
            assert(s2.mask(a, bb) == s1.mask(a, bb));
            assert(s3.mask(a, bb) == s2.mask(a, bb));
            assert(s4.mask(a, bb) == s3.mask(a, bb));
        }
        assert(s1.mask(c.0, c.1) == s0.mask(c.0, c.1));
        assert(s2.mask(c.0, c.1) == s0.mask(c.0, c.1));
        assert(s3.mask(c.0, c.1) == s0.mask(c.0, c.1));
        assert forall|dir: int|
            is_edge_bit(dir) && has_conn(s4.mask(c.0, c.1), dir) && #[trigger] s4.in_grid(
                neighbor(c.0, c.1, dir).0,
                neighbor(c.0, c.1, dir).1,
            ) implies s4.filled(neighbor(c.0, c.1, dir).0, neighbor(c.0, c.1, dir).1) by {
            let n = neighbor(c.0, c.1, dir);
            if dir == 1 {
                assert(s1.filled(n.0, n.1));
                assert(s2.mask(n.0, n.1) == s1.mask(n.0, n.1));
                assert(s3.mask(n.0, n.1) == s2.mask(n.0, n.1));
                assert(s4.mask(n.0, n.1) == s3.mask(n.0, n.1));
            } else if dir == 2 {
                assert(s2.filled(n.0, n.1));
                assert(s3.mask(n.0, n.1) == s2.mask(n.0, n.1));
                assert(s4.mask(n.0, n.1) == s3.mask(n.0, n.1));
            } else if dir == 4 {
                assert(s3.filled(n.0, n.1));
                assert(s4.mask(n.0, n.1) == s3.mask(n.0, n.1));
            } else {
                assert(s4.filled(n.0, n.1));
            }
        }
        assert forall|a: int, bb: int|
            s0.in_grid(a, bb) && #[trigger] s4.filled(a, bb) && !s0.filled(a, bb) implies TileMap::holds(t, a, bb)
                || TileMap::holds(r, a, bb) || TileMap::holds(b, a, bb) || TileMap::holds(l, a, bb) by {
            if !TileMap::holds(t, a, bb) && !TileMap::holds(r, a, bb) && !TileMap::holds(b, a, bb)
                && !TileMap::holds(l, a, bb) {
                assert(s1.mask(a, bb) == s0.mask(a, bb));
                assert(s2.mask(a, bb) == s1.mask(a, bb));
                assert(s3.mask(a, bb) == s2.mask(a, bb));
                assert(s4.mask(a, bb) == s3.mask(a, bb));
            }
        }
    }

    /// `post` keeps the size of `self` and every filled cell of it.
    pub open spec fn grows_into(&self, post: TileMap) -> bool {
        &&& post.side() == self.side()
        &&& forall|a: int, b: int|
            self.in_grid(a, b) && self.filled(a, b) ==> #[trigger] post.mask(a, b) == self.mask(a, b)
    }

    /// A closed cell stays closed while the grid only grows.
    proof fn lemma_closed_grows(pre: TileMap, post: TileMap, a: int, b: int)
        requires
            pre.grows_into(post),
            pre.in_grid(a, b),
            pre.filled(a, b),
            pre.closed_at(a, b),
        ensures
            post.closed_at(a, b),
    {
        assert(post.mask(a, b) == pre.mask(a, b));
        assert forall|dir: int|
            is_edge_bit(dir) && has_conn(post.mask(a, b), dir) && #[trigger] post.in_grid(
                neighbor(a, b, dir).0,
                neighbor(a, b, dir).1,
            ) implies post.filled(neighbor(a, b, dir).0, neighbor(a, b, dir).1) by {
            let n = neighbor(a, b, dir);
            assert(pre.in_grid(n.0, n.1));
            assert(pre.filled(n.0, n.1));
            assert(post.mask(n.0, n.1) == pre.mask(n.0, n.1));
        }
    }

    /// As `rooted`, for the cells that `orig` did not hold yet: each filled
    /// cell but the seed and those already filled in `orig` links back from a
    /// filled parent of smaller rank.
    pub open spec fn rooted_beyond(
        &self,
        seed: (int, int),
        parent: Map<(int, int), (int, int)>,
        rank: Map<(int, int), nat>,
        orig: TileMap,
    ) -> bool {
        &&& self.in_grid(seed.0, seed.1)
        &&& self.filled(seed.0, seed.1)
        &&& rank.dom().contains(seed)
        &&& forall|x: int, y: int|
            self.in_grid(x, y) && #[trigger] self.filled(x, y) ==> rank.dom().contains((x, y))
        &&& forall|x: int, y: int|
            self.in_grid(x, y) && #[trigger] self.filled(x, y) && (x, y) != seed && !orig.filled(x, y) ==> {
                &&& parent.dom().contains((x, y))
                &&& rank.dom().contains((x, y))
                &&& {
                    let p = parent[(x, y)];
                    &&& self.in_grid(p.0, p.1)
                    &&& rank.dom().contains(p)
                    &&& rank[p] < rank[(x, y)]
                    &&& self.links(p, (x, y))
                }
            }
    }

    /// Every filled cell that `orig` did not hold is reached from `seed` by
    /// following connections through filled cells.
    pub open spec fn reachable_beyond(&self, seed: (int, int), orig: TileMap) -> bool {
        exists|parent: Map<(int, int), (int, int)>, rank: Map<(int, int), nat>|
            self.rooted_beyond(seed, parent, rank, orig)
    }

    /// One call of `extend` from the filled cell `c` keeps every filled cell
    /// reached from `seed`: a cell it fills gets `c` as parent and the next
    /// rank.
    proof fn lemma_extend_rooted(
        pre: TileMap,
        post: TileMap,
        seed: (int, int),
        parent: Map<(int, int), (int, int)>,
        rank: Map<(int, int), nat>,
        counter: nat,
        orig: TileMap,
        c: (int, int),
        dir: int,
        r: Option<Coord>,
    ) -> (res: (Map<(int, int), (int, int)>, Map<(int, int), nat>, nat))
        requires
            pre.rooted_beyond(seed, parent, rank, orig),
            orig.grows_into(pre),
            forall|p: (int, int)| rank.dom().contains(p) ==> rank[p] < counter,
            pre.in_grid(c.0, c.1),
            pre.filled(c.0, c.1),
            is_edge_bit(dir),
            TileMap::extended(pre, post, c, dir, r),
        ensures
            post.rooted_beyond(seed, res.0, res.1, orig),
            forall|p: (int, int)| res.1.dom().contains(p) ==> res.1[p] < res.2,
            pre.grows_into(post),
            orig.grows_into(post),
    {
        let n = neighbor(c.0, c.1, dir);
        let parent2 = if r.is_some() { parent.insert(n, c) } else { parent };
        let rank2 = if r.is_some() { rank.insert(n, counter) } else { rank };
        let counter2 = if r.is_some() { counter + 1 } else { counter };
        assert forall|a: int, b: int|
            post.in_grid(a, b) && #[trigger] post.filled(a, b) && (a, b) != seed && !orig.filled(a, b) implies {
            &&& parent2.dom().contains((a, b))
            &&& rank2.dom().contains((a, b))
            &&& {
                let p = parent2[(a, b)];
                &&& post.in_grid(p.0, p.1)
                &&& rank2.dom().contains(p)
                &&& rank2[p] < rank2[(a, b)]
                &&& post.links(p, (a, b))
            }
        } by {
            if r.is_some() && (a, b) == n {
                assert(!orig.filled(a, b)) by {
                    if orig.filled(a, b) {
                        assert(pre.mask(a, b) == orig.mask(a, b));
                    }
                }
                assert(post.mask(c.0, c.1) == pre.mask(c.0, c.1));
                assert(neighbor(c.0, c.1, dir) == (a, b));
            } else {
                assert(post.mask(a, b) == pre.mask(a, b));
                assert(pre.filled(a, b));
                let p = parent[(a, b)];
                assert(pre.links(p, (a, b)));
                let d = choose|d: int|
                    is_edge_bit(d) && has_conn(pre.mask(p.0, p.1), d) && #[trigger] neighbor(
                        p.0,
                        p.1,
                        d,
                    ) == (a, b);
                assert(post.mask(p.0, p.1) == pre.mask(p.0, p.1));
                assert(neighbor(p.0, p.1, d) == (a, b));
            }
        }
        assert(post.mask(seed.0, seed.1) == pre.mask(seed.0, seed.1));
        assert forall|a: int, b: int| post.in_grid(a, b) && #[trigger] post.filled(a, b) implies rank2.dom().contains(
            (a, b),
        ) by {
            if !(r.is_some() && (a, b) == n) {
                assert(post.mask(a, b) == pre.mask(a, b));
                assert(pre.filled(a, b));
            }
        }
        assert forall|a: int, b: int|
            orig.in_grid(a, b) && orig.filled(a, b) implies #[trigger] post.mask(a, b) == orig.mask(a, b) by {
            assert(pre.mask(a, b) == orig.mask(a, b));
            assert(post.mask(a, b) == pre.mask(a, b));
        }
        (parent2, rank2, counter2)
    }

    /// The stack after the cell `c` was popped from `stack0` (leaving
    /// `stack1`) and the cells filled from it were pushed (giving `stack2`)
    /// holds filled cells only, and every cell that is not closed.
    proof fn lemma_stack_after_spread(
        post: TileMap,
        s0: TileMap,
        orig: TileMap,
        seed: (int, int),
        stack0: Seq<Coord>,
        stack1: Seq<Coord>,
        stack2: Seq<Coord>,
        c: (int, int),
        t: Option<Coord>,
        r: Option<Coord>,
        b: Option<Coord>,
        l: Option<Coord>,
    )
        requires
            s0.grows_into(post),
            post.closed_at(c.0, c.1),
            forall|a: int, bb: int|
                s0.in_grid(a, bb) && #[trigger] post.filled(a, bb) && !s0.filled(a, bb) ==> TileMap::holds(t, a, bb)
                    || TileMap::holds(r, a, bb) || TileMap::holds(b, a, bb) || TileMap::holds(l, a, bb),
            t is Some ==> post.in_grid(t->0.x as int, t->0.y as int) && post.filled(t->0.x as int, t->0.y as int),
            r is Some ==> post.in_grid(r->0.x as int, r->0.y as int) && post.filled(r->0.x as int, r->0.y as int),
            b is Some ==> post.in_grid(b->0.x as int, b->0.y as int) && post.filled(b->0.x as int, b->0.y as int),
            l is Some ==> post.in_grid(l->0.x as int, l->0.y as int) && post.filled(l->0.x as int, l->0.y as int),
            s0.side() <= usize::MAX,
            stack0.len() > 0,
            stack0.last().x == c.0 && stack0.last().y == c.1,
            stack1 == stack0.drop_last(),
            stack2 == {
                let s_l = if l is Some { stack1.push(l->0) } else { stack1 };
                let s_b = if b is Some { s_l.push(b->0) } else { s_l };
                let s_r = if r is Some { s_b.push(r->0) } else { s_b };
                if t is Some { s_r.push(t->0) } else { s_r }
            },
            forall|k: int|
                0 <= k < stack0.len() ==> s0.in_grid((#[trigger] stack0[k]).x as int, stack0[k].y as int)
                    && s0.filled(stack0[k].x as int, stack0[k].y as int),
            forall|a: int, bb: int|
                s0.in_grid(a, bb) && #[trigger] s0.filled(a, bb) && !s0.closed_at(a, bb)
                    ==> stack0.contains(Coord { x: a as usize, y: bb as usize }) || (orig.filled(a, bb)
                    && (a, bb) != seed),
        ensures
            forall|k: int|
                0 <= k < stack2.len() ==> post.in_grid((#[trigger] stack2[k]).x as int, stack2[k].y as int)
                    && post.filled(stack2[k].x as int, stack2[k].y as int),
            forall|a: int, bb: int|
                post.in_grid(a, bb) && #[trigger] post.filled(a, bb) && !post.closed_at(a, bb)
                    ==> stack2.contains(Coord { x: a as usize, y: bb as usize }) || (orig.filled(a, bb)
                    && (a, bb) != seed),
    {
        let n1: int = stack1.len() as int;
        let kl = n1;
        let kb = n1 + (if l is Some { 1int } else { 0 });
        let kr = kb + (if b is Some { 1int } else { 0 });
        let kt = kr + (if r is Some { 1int } else { 0 });
        assert(stack2.len() == kt + (if t is Some { 1int } else { 0 }));
        assert forall|k: int| 0 <= k < n1 implies stack2[k] == stack0[k] by {}
        assert(l is Some ==> stack2[kl] == l->0);
        assert(b is Some ==> stack2[kb] == b->0);
        assert(r is Some ==> stack2[kr] == r->0);
        assert(t is Some ==> stack2[kt] == t->0);
        assert forall|k: int| 0 <= k < stack2.len() implies post.in_grid(
            (#[trigger] stack2[k]).x as int,
            stack2[k].y as int,
        ) && post.filled(stack2[k].x as int, stack2[k].y as int) by {
            if k < n1 {
                let e = stack0[k];
                assert(s0.filled(e.x as int, e.y as int));
                assert(post.mask(e.x as int, e.y as int) == s0.mask(e.x as int, e.y as int));
            }
        }
        assert forall|a: int, bb: int|
            post.in_grid(a, bb) && #[trigger] post.filled(a, bb) && !post.closed_at(a, bb)
                implies stack2.contains(Coord { x: a as usize, y: bb as usize }) || (orig.filled(a, bb)
                && (a, bb) != seed) by {
            let cd = Coord { x: a as usize, y: bb as usize };
            if s0.filled(a, bb) {
                if a != c.0 || bb != c.1 {
                    if s0.closed_at(a, bb) {
                        TileMap::lemma_closed_grows(s0, post, a, bb);
                    }
                    if stack0.contains(cd) {
                        let k = choose|k: int| 0 <= k < stack0.len() && stack0[k] == cd;
                        assert(k < n1);
                        assert(stack2[k] == cd);
                    }
                }
            } else {
                if TileMap::holds(t, a, bb) {
                    assert(stack2[kt] == cd);
                } else if TileMap::holds(r, a, bb) {
                    assert(stack2[kr] == cd);
                } else if TileMap::holds(b, a, bb) {
                    assert(stack2[kb] == cd);
                } else {
                    assert(stack2[kl] == cd);
                }
            }
        }
    }

    /// Fills the unfilled neighbours that the filled cell `c` connects to,
    /// in the order top, right, bottom, left, and returns them in that order.
    /// The ghost result carries the reachability witness over to the grown
    /// grid.
    fn spread(
        &mut self,
        c: Coord,
        Ghost(seed): Ghost<(int, int)>,
        Ghost(parent): Ghost<Map<(int, int), (int, int)>>,
        Ghost(rank): Ghost<Map<(int, int), nat>>,
        Ghost(counter): Ghost<nat>,
        Ghost(orig): Ghost<TileMap>,
    ) -> (res: (
        Option<Coord>,
        Option<Coord>,
        Option<Coord>,
        Option<Coord>,
        Ghost<(Map<(int, int), (int, int)>, Map<(int, int), nat>, nat)>,
    ))
        requires
            old(self).wf(),
            old(self).consistent_but(seed),
            old(self).in_grid(c.x as int, c.y as int),
            old(self).filled(c.x as int, c.y as int),
            old(self).rooted_beyond(seed, parent, rank, orig),
            orig.grows_into(*old(self)),
            forall|p: (int, int)| rank.dom().contains(p) ==> rank[p] < counter,
        ensures
            final(self).wf(),
            final(self).consistent_but(seed),
            final(self).generator().table() == old(self).generator().table(),
            old(self).grows_into(*final(self)),
            final(self).closed_at(c.x as int, c.y as int),
            forall|a: int, bb: int|
                old(self).in_grid(a, bb) && #[trigger] final(self).filled(a, bb) && !old(self).filled(a, bb)
                    ==> TileMap::holds(res.0, a, bb) || TileMap::holds(res.1, a, bb) || TileMap::holds(res.2, a, bb)
                    || TileMap::holds(res.3, a, bb),
            final(self).unfilled_count() + TileMap::somes(res.0, res.1, res.2, res.3) == old(self).unfilled_count(),
            res.0 is Some ==> final(self).in_grid(res.0->0.x as int, res.0->0.y as int) && final(self).filled(res.0->0.x as int, res.0->0.y as int),
            res.1 is Some ==> final(self).in_grid(res.1->0.x as int, res.1->0.y as int) && final(self).filled(res.1->0.x as int, res.1->0.y as int),
            res.2 is Some ==> final(self).in_grid(res.2->0.x as int, res.2->0.y as int) && final(self).filled(res.2->0.x as int, res.2->0.y as int),
            res.3 is Some ==> final(self).in_grid(res.3->0.x as int, res.3->0.y as int) && final(self).filled(res.3->0.x as int, res.3->0.y as int),
            final(self).rooted_beyond(seed, res.4@.0, res.4@.1, orig),
            forall|p: (int, int)| res.4@.1.dom().contains(p) ==> res.4@.1[p] < res.4@.2,
    {
        let ghost cc = (c.x as int, c.y as int);
        let ghost s0 = *self;
        let t = self.extend(c.x, c.y, TOP, Ghost(seed));
        let ghost s1 = *self;
        let ghost w1 = TileMap::lemma_extend_rooted(s0, s1, seed, parent, rank, counter, orig, cc, 1, t);
        proof {
            assert(s1.mask(cc.0, cc.1) == s0.mask(cc.0, cc.1));
            assert(s1.mask(seed.0, seed.1) == s0.mask(seed.0, seed.1));
        }
        let r = self.extend(c.x, c.y, RIGHT, Ghost(seed));
        let ghost s2 = *self;
        let ghost w2 = TileMap::lemma_extend_rooted(s1, s2, seed, w1.0, w1.1, w1.2, orig, cc, 2, r);
        proof {
            assert(s2.mask(cc.0, cc.1) == s1.mask(cc.0, cc.1));
            assert(s2.mask(seed.0, seed.1) == s1.mask(seed.0, seed.1));
        }
        let b = self.extend(c.x, c.y, BOTTOM, Ghost(seed));
        let ghost s3 = *self;
        let ghost w3 = TileMap::lemma_extend_rooted(s2, s3, seed, w2.0, w2.1, w2.2, orig, cc, 4, b);
        proof {
            assert(s3.mask(cc.0, cc.1) == s2.mask(cc.0, cc.1));
            assert(s3.mask(seed.0, seed.1) == s2.mask(seed.0, seed.1));
        }
        let l = self.extend(c.x, c.y, LEFT, Ghost(seed));
        let ghost s4 = *self;
        let ghost w4 = TileMap::lemma_extend_rooted(s3, s4, seed, w3.0, w3.1, w3.2, orig, cc, 8, l);
        proof {
            TileMap::lemma_spread(s0, s1, s2, s3, s4, cc, t, r, b, l);
        }
        (t, r, b, l, Ghost(w4))
    }

    /// Fills, depth first from the filled cell `start`, every cell that a
    /// connection of a filled cell leads to. Directions are taken in the order
    /// top, right, bottom, left; the cells filled from one cell are then
    /// spread from in that same order. Each fill draws a variant that fits all
    /// edges of its cell, and no filled cell is written again. Cells filled
    /// beforehand, other than `start`, are kept but not spread from; when
    /// `start` was the only filled cell, every filled cell ends closed and
    /// reached from it.
    pub fn generate_tiles(&mut self, start: Coord)
        requires
            old(self).wf(),
            old(self).consistent_but((start.x as int, start.y as int)),
            old(self).in_grid(start.x as int, start.y as int),
            old(self).filled(start.x as int, start.y as int),
        ensures
            final(self).wf(),
            final(self).consistent_but((start.x as int, start.y as int)),
            final(self).generator().table() == old(self).generator().table(),
            old(self).grows_into(*final(self)),
            forall|a: int, b: int|
                old(self).in_grid(a, b) && #[trigger] final(self).mask(a, b) != old(self).mask(a, b)
                    ==> !old(self).filled(a, b) && final(self).filled(a, b),
            forall|a: int, b: int|
                final(self).in_grid(a, b) && #[trigger] final(self).filled(a, b)
                    ==> final(self).closed_at(a, b) || (old(self).filled(a, b) && (a != start.x
                    || b != start.y)),
            final(self).reachable_beyond((start.x as int, start.y as int), *old(self)),
            (forall|a: int, b: int|
                old(self).in_grid(a, b) && #[trigger] old(self).filled(a, b) ==> a == start.x && b
                    == start.y) ==> final(self).reachable_from((start.x as int, start.y as int)),
    {
        let ghost seed = (start.x as int, start.y as int);
        let ghost orig = *self;
        let mut stack: Vec<Coord> = Vec::new();
        stack.push(start);
        let ghost mut parent: Map<(int, int), (int, int)> = Map::empty();
        let ghost mut rank: Map<(int, int), nat> = Map::new(
            |p: (int, int)| orig.in_grid(p.0, p.1) && orig.filled(p.0, p.1),
            |p: (int, int)| 0nat,
        );
        let ghost mut counter: nat = 1;
        proof {
            assert(stack@[0] == start);
            assert forall|a: int, b: int|
                self.in_grid(a, b) && #[trigger] self.filled(a, b) && !self.closed_at(a, b)
                    implies stack@.contains(Coord { x: a as usize, y: b as usize }) || (orig.filled(a, b)
                    && (a, b) != seed) by {
                if (a, b) == seed {
                    assert(stack@[0] == Coord { x: a as usize, y: b as usize });
                }
            }
        }
        while stack.len() > 0
            invariant
                self.wf(),
                self.consistent_but(seed),
                self.generator().table() == old(self).generator().table(),
                old(self).grows_into(*self),
                forall|k: int|
                    0 <= k < stack@.len() ==> self.in_grid(
                        (#[trigger] stack@[k]).x as int,
                        stack@[k].y as int,
                    ) && self.filled(stack@[k].x as int, stack@[k].y as int),
                orig == *old(self),
                forall|a: int, b: int|
                    self.in_grid(a, b) && #[trigger] self.filled(a, b) && !self.closed_at(a, b)
                        ==> stack@.contains(Coord { x: a as usize, y: b as usize }) || (orig.filled(a, b)
                        && (a, b) != seed),
                self.rooted_beyond(seed, parent, rank, orig),
                forall|p: (int, int)| rank.dom().contains(p) ==> rank[p] < counter,
            decreases 5 * self.unfilled_count() + stack@.len(),
        {
            let ghost stack0 = stack@;
            let c = stack.pop().unwrap();
            proof {
                assert(stack0[stack0.len() - 1] == c);
                assert(self.in_grid(c.x as int, c.y as int));
            }
            let ghost s0 = *self;
            let ghost cc = (c.x as int, c.y as int);
            let (t, r, b, l, Ghost(witness)) = self.spread(c, Ghost(seed), Ghost(parent), Ghost(rank), Ghost(counter), Ghost(orig));
            proof {
                parent = witness.0;
                rank = witness.1;
                counter = witness.2;
            }
            let ghost stack1 = stack@;
            if let Some(n) = l {
                stack.push(n);
            }
            if let Some(n) = b {
                stack.push(n);
            }
            if let Some(n) = r {
                stack.push(n);
            }
            if let Some(n) = t {
                stack.push(n);
            }
            proof {
                s0.lemma_side_fits();
                TileMap::lemma_stack_after_spread(*self, s0, orig, seed, stack0, stack1, stack@, cc, t, r, b, l);
                assert(old(self).grows_into(*self)) by {
                    assert forall|a: int, bb: int|
                        old(self).in_grid(a, bb) && old(self).filled(a, bb) implies #[trigger] self.mask(
                            a,
                            bb,
                        ) == old(self).mask(a, bb) by {
                        assert(s0.mask(a, bb) == old(self).mask(a, bb));
                        assert(self.mask(a, bb) == s0.mask(a, bb));
                    }
                }
            }
        }
        proof {
            assert(self.rooted_beyond(seed, parent, rank, orig));
            if forall|a: int, b: int|
                orig.in_grid(a, b) && #[trigger] orig.filled(a, b) ==> a == start.x && b == start.y {
                assert(self.rooted(seed, parent, rank));
            }
        }
    }

    /// A grid consistent but for the seed's boundary has the adjacency
    /// property; it has the boundary property too when the seed lies off the
    /// grid's rim.
    pub proof fn lemma_consistent_agrees(&self, seed: (int, int))
        requires
            self.consistent_but(seed),
        ensures
            self.adjacent_agree(),
            1 <= seed.0 && seed.0 + 1 < self.side() && 1 <= seed.1 && seed.1 + 1 < self.side()
                ==> self.boundary_sealed(),
    {
        assert forall|x: int, y: int|
            self.in_grid(x, y) && self.in_grid(x + 1, y) && #[trigger] self.filled(x, y)
                && self.filled(x + 1, y) implies has_conn(self.mask(x, y), RIGHT as int) == has_conn(
            self.mask(x + 1, y),
            LEFT as int,
        ) by {
            if (x, y) == seed {
                assert(self.edge_agrees(x, y, self.mask(x, y), 2));
            } else {
                assert(self.edge_fits(x, y, self.mask(x, y), 2));
            }
        }
        assert forall|x: int, y: int|
            self.in_grid(x, y) && self.in_grid(x, y + 1) && #[trigger] self.filled(x, y)
                && self.filled(x, y + 1) implies has_conn(self.mask(x, y), BOTTOM as int) == has_conn(
            self.mask(x, y + 1),
            TOP as int,
        ) by {
            if (x, y) == seed {
                assert(self.edge_agrees(x, y, self.mask(x, y), 4));
            } else {
                assert(self.edge_fits(x, y, self.mask(x, y), 4));
            }
        }
        if 1 <= seed.0 && seed.0 + 1 < self.side() && 1 <= seed.1 && seed.1 + 1 < self.side() {
            assert forall|x: int, y: int| self.in_grid(x, y) && #[trigger] self.filled(x, y) implies {
                &&& y == 0 ==> !has_conn(self.mask(x, y), TOP as int)
                &&& x == self.side() - 1 ==> !has_conn(self.mask(x, y), RIGHT as int)
                &&& y == self.side() - 1 ==> !has_conn(self.mask(x, y), BOTTOM as int)
                &&& x == 0 ==> !has_conn(self.mask(x, y), LEFT as int)
            } by {
                if (x, y) != seed {
                    assert(self.admits(x, y, self.mask(x, y)));
                }
            }
        }
    }

    /// A dungeon of side `size`: the four-way tile in the centre cell, then
    /// every cell its connections lead to, filled depth first. Neighbouring
    /// tiles agree on their shared edge, no tile connects out of the grid,
    /// every connection leads to a filled cell, and every filled cell is
    /// reached from the centre.
    pub fn create_dungeon(size: usize, tile_gen: TileGenerator) -> (r: TileMap)
        requires
            size > 0,
            size * size <= usize::MAX,
            tile_gen.wf(),
        ensures
            r.wf(),
            r.side() == size,
            r.mask(size as int / 2, size as int / 2) == START_CHAR_INDEX as int,
            r.adjacent_agree(),
            size >= 3 ==> r.boundary_sealed(),
            forall|a: int, b: int| r.in_grid(a, b) && #[trigger] r.filled(a, b) ==> r.closed_at(a, b),
            r.reachable_from((size as int / 2, size as int / 2)),
    {
        let mut map = TileMap::empty(size, tile_gen);
        let c = size / 2;
        let ghost blank = map;
        map.set_mask(c, c, START_CHAR_INDEX);
        proof {
            let ci = c as int;
            assert forall|a: int, b: int| map.in_grid(a, b) && #[trigger] map.filled(a, b) implies a == ci
                && b == ci by {
                assert(!blank.filled(a, b));
            }
            assert forall|d: int| is_edge_bit(d) implies map.edge_agrees(ci, ci, 15, d) by {
                let n = neighbor(ci, ci, d);
                if map.in_grid(n.0, n.1) {
                    assert(!blank.filled(n.0, n.1));
                }
            }
            assert(map.agrees(ci, ci, 15));
            assert(map.consistent_but((ci, ci)));
        }
        map.generate_tiles(Coord { x: c, y: c });
        proof {
            map.lemma_consistent_agrees((c as int, c as int));
        }
        map
    }

    /// A grid of side `size` with every cell drawn from the whole catalog.
    pub fn create_random_dungeon(size: usize, tile_gen: TileGenerator) -> (r: TileMap)
        requires
            size > 0,
            size * size <= usize::MAX,
            tile_gen.wf(),
        ensures
            r.wf(),
            r.side() == size,
    {
        TileMap::random(size, tile_gen)
    }
}

} // verus!
