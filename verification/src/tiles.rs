//! The raft: a set of unit tiles addressed by integer grid coordinates.
//!
//! Tiles are kept in a vector without duplicates, in a deterministic order,
//! so that scanning them (for erosion candidates or broadcasts) never
//! depends on a hasher.

use vstd::prelude::*;
use crate::geom::Vec2;
use crate::geom::abs_i;

verus! {

/// Greatest magnitude a tile coordinate may have.
pub const TILE_MAX: i64 = 4096;

/// A tile coordinate within bounds.
pub open spec fn tile_ok(t: Vec2) -> bool {
    abs_i(t.x as int) <= TILE_MAX && abs_i(t.y as int) <= TILE_MAX
}

/// Pairwise-distinct tiles.
pub open spec fn unique_tiles(s: Seq<Vec2>) -> bool {
    forall|i: int, j: int| 0 <= i < j < s.len() ==> (#[trigger] s[i]) != (#[trigger] s[j])
}

/// Membership of the canonical disc of radius `r`: the grid points of the
/// square `[-r, r]^2` whose distance from the origin is at most `r + 1/2`
/// (for integers, `x^2 + y^2 <= r^2 + r`).
pub open spec fn in_disc(t: Vec2, r: int) -> bool {
    -r <= t.x <= r && -r <= t.y <= r && t.x * t.x + t.y * t.y <= r * r + r
}

/// The first missing 4-neighbor of `t` (checked west, east, south, north),
/// if any is missing from `s`.
pub open spec fn missing_neighbor(s: Seq<Vec2>, t: Vec2) -> Option<Vec2> {
    if !s.contains(Vec2 { x: (t.x - 1) as i64, y: t.y }) {
        Some(Vec2 { x: (t.x - 1) as i64, y: t.y })
    } else if !s.contains(Vec2 { x: (t.x + 1) as i64, y: t.y }) {
        Some(Vec2 { x: (t.x + 1) as i64, y: t.y })
    } else if !s.contains(Vec2 { x: t.x, y: (t.y - 1) as i64 }) {
        Some(Vec2 { x: t.x, y: (t.y - 1) as i64 })
    } else if !s.contains(Vec2 { x: t.x, y: (t.y + 1) as i64 }) {
        Some(Vec2 { x: t.x, y: (t.y + 1) as i64 })
    } else {
        None
    }
}

/// The erosion candidates of the prefix `s` against the whole raft `all`:
/// each tile of `s` that has a missing 4-neighbor in `all`, in order,
/// paired with its first missing neighbor.
pub open spec fn cand_spec(s: Seq<Vec2>, all: Seq<Vec2>) -> Seq<(Vec2, Vec2)>
    decreases s.len(),
{
    if s.len() == 0 {
        Seq::empty()
    } else {
        cand_spec(s.drop_last(), all) + (match missing_neighbor(all, s.last()) {
            Some(n) => seq![(s.last(), n)],
            None => Seq::empty(),
        })
    }
}

/// Every candidate pair comes from a raft tile and its first missing
/// neighbor.
pub proof fn lemma_cand_props(s: Seq<Vec2>, all: Seq<Vec2>)
    ensures
        forall|j: int|
            0 <= j < cand_spec(s, all).len() ==> s.contains(
                (#[trigger] cand_spec(s, all)[j]).0,
            ) && missing_neighbor(all, cand_spec(s, all)[j].0) == Some(cand_spec(s, all)[j].1),
    decreases s.len(),
{
    if s.len() > 0 {
        lemma_cand_props(s.drop_last(), all);
        assert forall|j: int| 0 <= j < cand_spec(s, all).len() implies s.contains(
            (#[trigger] cand_spec(s, all)[j]).0,
        ) && missing_neighbor(all, cand_spec(s, all)[j].0) == Some(cand_spec(s, all)[j].1) by {
            let pre = cand_spec(s.drop_last(), all);
            if j < pre.len() {
                assert(cand_spec(s, all)[j] == pre[j]);
                assert(s.drop_last().contains(pre[j].0));
                let w = choose|w: int|
                    0 <= w < s.drop_last().len() && s.drop_last()[w] == pre[j].0;
                assert(s[w] == pre[j].0);
            } else {
                assert(cand_spec(s, all)[j].0 == s.last());
                assert(s[s.len() - 1] == s.last());
            }
        }
    }
}

/// The raft: a duplicate-free vector of in-bounds tiles in deterministic
/// order.
pub struct TileSet {
    pub tiles: Vec<Vec2>,
}

impl TileSet {
    /// The tiles in order.
    pub open spec fn view(&self) -> Seq<Vec2> {
        self.tiles@
    }

    pub open spec fn wf(&self) -> bool {
        unique_tiles(self.tiles@) && forall|i: int|
            0 <= i < self.tiles@.len() ==> tile_ok(#[trigger] self.tiles@[i])
    }

    /// The empty raft.
    pub fn new() -> (r: TileSet)
        ensures
            r@ == Seq::<Vec2>::empty(),
            r.wf(),
    {
        TileSet { tiles: Vec::new() }
    }

    pub fn len(&self) -> (r: usize)
        ensures
            r == self@.len(),
    {
        self.tiles.len()
    }

    pub fn is_empty(&self) -> (r: bool)
        ensures
            r == (self@.len() == 0),
    {
        self.tiles.len() == 0
    }

    /// The tile at position `i`.
    pub fn at(&self, i: usize) -> (r: Vec2)
        requires
            i < self@.len(),
        ensures
            r == self@[i as int],
    {
        self.tiles[i]
    }

    pub fn contains(&self, t: Vec2) -> (r: bool)
        ensures
            r == self@.contains(t),
    {
        let mut i: usize = 0;
        while i < self.tiles.len()
            invariant
                i <= self@.len(),
                forall|j: int| 0 <= j < i ==> self@[j] != t,
            decreases self@.len() - i,
        {
            if self.tiles[i] == t {
                return true;
            }
            i = i + 1;
        }
        false
    }

    /// Take `t` out, keeping the order of the rest; a missing tile changes
    /// nothing.
    pub fn remove(&mut self, t: Vec2)
        requires
            old(self).wf(),
        ensures
            final(self).wf(),
            !final(self)@.contains(t),
            forall|q: Vec2| q != t ==> final(self)@.contains(q) == old(self)@.contains(q),
            if old(self)@.contains(t) {
                exists|i: int|
                    0 <= i < old(self)@.len() && old(self)@[i] == t && final(self)@ == old(
                        self,
                    )@.remove(i)
            } else {
                final(self)@ == old(self)@
            },
    {
        let ghost s0 = self@;
        let mut i: usize = 0;
        while i < self.tiles.len()
            invariant
                self@ == s0,
                s0 == old(self)@,
                old(self).wf(),
                i <= s0.len(),
                forall|j: int| 0 <= j < i ==> s0[j] != t,
            decreases s0.len() - i,
        {
            if self.tiles[i] == t {
                self.tiles.remove(i);
                proof {
                    let s1 = s0.remove(i as int);
                    s0.remove_ensures(i as int);
                    assert(self@ == s1);
                    assert(unique_tiles(s1)) by {
                        assert forall|a: int, b: int| 0 <= a < b < s1.len() implies (
                        #[trigger] s1[a]) != (#[trigger] s1[b]) by {
                            let a0 = if a < i {
                                a
                            } else {
                                a + 1
                            };
                            let b0 = if b < i {
                                b
                            } else {
                                b + 1
                            };
                            assert(s1[a] == s0[a0] && s1[b] == s0[b0]);
                        }
                    }
                    assert(!s1.contains(t)) by {
                        if s1.contains(t) {
                            let j = choose|j: int| 0 <= j < s1.len() && s1[j] == t;
                            let j0 = if j < i {
                                j
                            } else {
                                j + 1
                            };
                            assert(s1[j] == s0[j0]);
                            assert(s0[i as int] == t);
                        }
                    }
                    assert forall|q: Vec2| q != t implies s1.contains(q) == s0.contains(q) by {
                        if s1.contains(q) {
                            let j = choose|j: int| 0 <= j < s1.len() && s1[j] == q;
                            let j0 = if j < i {
                                j
                            } else {
                                j + 1
                            };
                            assert(s1[j] == s0[j0]);
                        }
                        if s0.contains(q) {
                            let j0 = choose|j0: int| 0 <= j0 < s0.len() && s0[j0] == q;
                            if j0 < i {
                                assert(s1[j0] == s0[j0]);
                            } else {
                                assert(j0 != i);
                                assert(s1[j0 - 1] == s0[j0]);
                            }
                        }
                    }
                }
                return ;
            }
            i = i + 1;
        }
        proof {
            if s0.contains(t) {
                let j = choose|j: int| 0 <= j < s0.len() && s0[j] == t;
            }
        }
    }

    /// `t` lexicographically precedes the scan position `(x, y)`.
    pub open spec fn lex_lt(t: Vec2, x: int, y: int) -> bool {
        t.x < x || (t.x == x && t.y < y)
    }

    /// The canonical raft: the disc of radius `radius` around the origin.
    pub fn disc(radius: i64) -> (r: TileSet)
        requires
            0 <= radius <= 1000,
        ensures
            r.wf(),
            forall|t: Vec2| r@.contains(t) <==> in_disc(t, radius as int),
    {
        let mut tiles: Vec<Vec2> = Vec::new();
        let mut x: i64 = -radius;
        while x <= radius
            invariant
                0 <= radius <= 1000,
                -radius <= x <= radius + 1,
                forall|j: int|
                    0 <= j < tiles@.len() ==> in_disc(#[trigger] tiles@[j], radius as int)
                        && tiles@[j].x < x,
                forall|t: Vec2| #[trigger]
                    tiles@.contains(t) <==> in_disc(t, radius as int) && t.x < x,
                unique_tiles(tiles@),
            decreases radius + 1 - x,
        {
            let mut y: i64 = -radius;
            while y <= radius
                invariant
                    0 <= radius <= 1000,
                    -radius <= x <= radius,
                    -radius <= y <= radius + 1,
                    forall|j: int|
                        0 <= j < tiles@.len() ==> in_disc(#[trigger] tiles@[j], radius as int)
                            && Self::lex_lt(tiles@[j], x as int, y as int),
                    forall|t: Vec2| #[trigger]
                        tiles@.contains(t) <==> in_disc(t, radius as int) && Self::lex_lt(
                            t,
                            x as int,
                            y as int,
                        ),
                    unique_tiles(tiles@),
                decreases radius + 1 - y,
            {
                let ghost before = tiles@;
                proof {
                    assert(0 <= x * x <= 1000000 && 0 <= y * y <= 1000000 && 0 <= radius
                        * radius <= 1000000) by (nonlinear_arith)
                        requires
                            abs_i(x as int) <= 1000,
                            abs_i(y as int) <= 1000,
                            0 <= radius <= 1000,
                    ;
                }
                if x * x + y * y <= radius * radius + radius {
                    tiles.push(Vec2 { x, y });
                    proof {
                        let t0 = (Vec2 { x, y });
                        assert(tiles@ == before.push(t0));
                        assert(forall|j: int|
                            0 <= j < before.len() ==> #[trigger] tiles@[j] == before[j]);
                        assert(tiles@[before.len() as int] == t0);
                        assert(unique_tiles(tiles@)) by {
                            assert forall|a: int, b: int|
                                0 <= a < b < tiles@.len() implies (#[trigger] tiles@[a]) != (
                            #[trigger] tiles@[b]) by {
                                if b == before.len() {
                                    assert(Self::lex_lt(before[a], x as int, y as int));
                                }
                            }
                        }
                        assert forall|t: Vec2| #[trigger]
                            tiles@.contains(t) <==> in_disc(t, radius as int) && Self::lex_lt(
                                t,
                                x as int,
                                y as int + 1,
                            ) by {
                            if tiles@.contains(t) {
                                let j = choose|j: int| 0 <= j < tiles@.len() && tiles@[j] == t;
                                if j < before.len() {
                                    assert(before[j] == t);
                                    assert(before.contains(t));
                                }
                            }
                            if in_disc(t, radius as int) && Self::lex_lt(
                                t,
                                x as int,
                                y as int + 1,
                            ) {
                                if t == t0 {
                                    assert(tiles@[before.len() as int] == t);
                                } else {
                                    assert(Self::lex_lt(t, x as int, y as int));
                                    assert(before.contains(t));
                                    let j = choose|j: int|
                                        0 <= j < before.len() && before[j] == t;
                                    assert(tiles@[j] == t);
                                }
                            }
                        }
                    }
                } else {
                    proof {
                        assert forall|t: Vec2| #[trigger]
                            tiles@.contains(t) <==> in_disc(t, radius as int) && Self::lex_lt(
                                t,
                                x as int,
                                y as int + 1,
                            ) by {
                            if in_disc(t, radius as int) && Self::lex_lt(
                                t,
                                x as int,
                                y as int + 1,
                            ) {
                                if t.x == x && t.y == y {
                                    assert(t.x * t.x + t.y * t.y <= radius * radius + radius);
                                }
                            }
                        }
                    }
                }
                y = y + 1;
            }
            proof {
                assert forall|t: Vec2| #[trigger]
                    tiles@.contains(t) <==> in_disc(t, radius as int) && t.x < x + 1 by {
                    if in_disc(t, radius as int) && t.x < x + 1 {
                        assert(t.y < radius + 1);
                    }
                }
            }
            x = x + 1;
        }
        proof {
            assert forall|t: Vec2| #[trigger]
                tiles@.contains(t) <==> in_disc(t, radius as int) by {
                if in_disc(t, radius as int) {
                    assert(t.x < x);
                }
            }
            assert(forall|j: int|
                0 <= j < tiles@.len() ==> tile_ok(#[trigger] tiles@[j]));
        }
        TileSet { tiles }
    }

    /// The bounding box of the raft in tile coordinates, as
    /// `(min x, max x, min y, max y)`, or nothing for an empty raft.
    pub fn bounds(&self) -> (r: Option<(i64, i64, i64, i64)>)
        requires
            self.wf(),
        ensures
            r is None <==> self@.len() == 0,
            r matches Some(b) ==> b.0 == raft_lo_x(self@) && b.1 == raft_hi_x(self@) && b.2
                == raft_lo_y(self@) && b.3 == raft_hi_y(self@) && abs_i(b.0 as int) <= TILE_MAX
                && abs_i(b.1 as int) <= TILE_MAX && abs_i(b.2 as int) <= TILE_MAX && abs_i(
                b.3 as int,
            ) <= TILE_MAX && b.0 <= b.1 && b.2 <= b.3,
    {
        if self.tiles.len() == 0 {
            return None;
        }
        let first = self.tiles[0];
        let mut x_min: i64 = first.x;
        let mut x_max: i64 = first.x;
        let mut y_min: i64 = first.y;
        let mut y_max: i64 = first.y;
        let mut i: usize = 1;
        proof {
            assert(self@.take(1)[0] == self@[0]);
        }
        while i < self.tiles.len()
            invariant
                self.wf(),
                1 <= i <= self@.len(),
                x_min == raft_lo_x(self@.take(i as int)),
                x_max == raft_hi_x(self@.take(i as int)),
                y_min == raft_lo_y(self@.take(i as int)),
                y_max == raft_hi_y(self@.take(i as int)),
                abs_i(x_min as int) <= TILE_MAX,
                abs_i(x_max as int) <= TILE_MAX,
                abs_i(y_min as int) <= TILE_MAX,
                abs_i(y_max as int) <= TILE_MAX,
                x_min <= x_max,
                y_min <= y_max,
            decreases self@.len() - i,
        {
            let t = self.tiles[i];
            proof {
                assert(tile_ok(self@[i as int]));
                assert(self@.take(i as int + 1).drop_last() =~= self@.take(i as int));
                assert(self@.take(i as int + 1).last() == self@[i as int]);
                assert(self@.take(i as int + 1).len() == i + 1);
            }
            if t.x < x_min {
                x_min = t.x;
            }
            if t.x > x_max {
                x_max = t.x;
            }
            if t.y < y_min {
                y_min = t.y;
            }
            if t.y > y_max {
                y_max = t.y;
            }
            i = i + 1;
        }
        proof {
            assert(self@.take(self@.len() as int) =~= self@);
        }
        Some((x_min, x_max, y_min, y_max))
    }

    /// The erosion candidates: every tile with a missing 4-neighbor, in
    /// raft order, paired with its first missing neighbor.
    pub fn candidates(&self) -> (r: Vec<(Vec2, Vec2)>)
        requires
            self.wf(),
        ensures
            r@ == cand_spec(self@, self@),
            forall|j: int|
                0 <= j < r@.len() ==> self@.contains((#[trigger] r@[j]).0) && missing_neighbor(
                    self@,
                    r@[j].0,
                ) == Some(r@[j].1),
    {
        let mut r: Vec<(Vec2, Vec2)> = Vec::new();
        let mut i: usize = 0;
        while i < self.tiles.len()
            invariant
                self.wf(),
                i <= self@.len(),
                r@ == cand_spec(self@.take(i as int), self@),
            decreases self@.len() - i,
        {
            let t = self.tiles[i];
            let mut found: Option<Vec2> = None;
            let west = Vec2 { x: t.x - 1, y: t.y };
            let east = Vec2 { x: t.x + 1, y: t.y };
            let south = Vec2 { x: t.x, y: t.y - 1 };
            let north = Vec2 { x: t.x, y: t.y + 1 };
            if !self.contains(west) {
                found = Some(west);
            } else if !self.contains(east) {
                found = Some(east);
            } else if !self.contains(south) {
                found = Some(south);
            } else if !self.contains(north) {
                found = Some(north);
            }
            proof {
                assert(found == missing_neighbor(self@, t));
                assert(self@.take(i as int + 1).drop_last() =~= self@.take(i as int));
                assert(self@.take(i as int + 1).last() == t);
            }
            match found {
                Some(n) => {
                    r.push((t, n));
                    proof {
                        assert(r@ =~= cand_spec(self@.take(i as int), self@) + seq![(t, n)]);
                    }
                },
                None => {},
            }
            i = i + 1;
        }
        proof {
            assert(self@.take(self@.len() as int) =~= self@);
            lemma_cand_props(self@, self@);
        }
        r
    }
}


/// Least x coordinate of a nonempty tile sequence.
pub open spec fn raft_lo_x(s: Seq<Vec2>) -> int
    decreases s.len(),
{
    if s.len() <= 1 {
        s[0].x as int
    } else {
        let p = raft_lo_x(s.drop_last());
        if (s.last().x as int) < p {
            s.last().x as int
        } else {
            p
        }
    }
}

/// Greatest x coordinate of a nonempty tile sequence.
pub open spec fn raft_hi_x(s: Seq<Vec2>) -> int
    decreases s.len(),
{
    if s.len() <= 1 {
        s[0].x as int
    } else {
        let p = raft_hi_x(s.drop_last());
        if (s.last().x as int) > p {
            s.last().x as int
        } else {
            p
        }
    }
}

/// Least y coordinate of a nonempty tile sequence.
pub open spec fn raft_lo_y(s: Seq<Vec2>) -> int
    decreases s.len(),
{
    if s.len() <= 1 {
        s[0].y as int
    } else {
        let p = raft_lo_y(s.drop_last());
        if (s.last().y as int) < p {
            s.last().y as int
        } else {
            p
        }
    }
}

/// Greatest y coordinate of a nonempty tile sequence.
pub open spec fn raft_hi_y(s: Seq<Vec2>) -> int
    decreases s.len(),
{
    if s.len() <= 1 {
        s[0].y as int
    } else {
        let p = raft_hi_y(s.drop_last());
        if (s.last().y as int) > p {
            s.last().y as int
        } else {
            p
        }
    }
}

} // verus!
