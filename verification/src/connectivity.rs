//! Walks over open tiles, and the proof that adding a room with its corridor
//! keeps every open tile of a map reachable from the first room.

use crate::map::{carved_by, on_corridor, on_horizontal_tunnel, on_vertical_tunnel, spec_max, spec_min, TileMap};
use crate::rect::Rect;
use vstd::prelude::*;

verus! {

/// Two tiles share an edge.
pub open spec fn adjacent(a: (int, int), b: (int, int)) -> bool {
    ||| (a.0 == b.0 && (a.1 == b.1 + 1 || a.1 + 1 == b.1))
    ||| (a.1 == b.1 && (a.0 == b.0 + 1 || a.0 + 1 == b.0))
}

impl TileMap {
    /// `path` is a walk: a sequence of open tiles in which each tile shares
    /// an edge with the next.
    pub open spec fn is_walk(&self, path: Seq<(int, int)>) -> bool {
        &&& path.len() > 0
        &&& forall|i: int| 0 <= i < path.len() ==> self.open_at((#[trigger] path[i]).0, path[i].1)
        &&& forall|i: int| 0 <= i < path.len() - 1 ==> adjacent(#[trigger] path[i], path[i + 1])
    }

    /// A walk leads from `a` to `b`.
    pub open spec fn connected(&self, a: (int, int), b: (int, int)) -> bool {
        exists|path: Seq<(int, int)>| #[trigger] self.is_walk(path) && path.first() == a && path.last() == b
    }

    /// Every open tile can be reached from `origin`.
    pub open spec fn all_reachable_from(&self, origin: (int, int)) -> bool {
        forall|x: int, y: int| #[trigger] self.open_at(x, y) ==> self.connected(origin, (x, y))
    }

    /// Every tile that is open in `self` is open in `later`.
    pub open spec fn opens_into(&self, later: &TileMap) -> bool {
        &&& self.width == later.width
        &&& self.height == later.height
        &&& forall|x: int, y: int| #[trigger] self.open_at(x, y) ==> later.open_at(x, y)
    }
}

/// An open tile is connected to itself.
pub proof fn lemma_connected_refl(m: &TileMap, a: (int, int))
    requires
        m.open_at(a.0, a.1),
    ensures
        m.connected(a, a),
{
    let path = seq![a];
    assert(m.is_walk(path));
}

/// Two open tiles that share an edge are connected.
pub proof fn lemma_connected_step(m: &TileMap, a: (int, int), b: (int, int))
    requires
        m.open_at(a.0, a.1),
        m.open_at(b.0, b.1),
        adjacent(a, b),
    ensures
        m.connected(a, b),
{
    let path = seq![a, b];
    assert(m.is_walk(path));
}

/// Walks can be joined end to end.
pub proof fn lemma_connected_trans(m: &TileMap, a: (int, int), b: (int, int), c: (int, int))
    requires
        m.connected(a, b),
        m.connected(b, c),
    ensures
        m.connected(a, c),
{
    let p = choose|path: Seq<(int, int)>| #[trigger] m.is_walk(path) && path.first() == a && path.last() == b;
    let q = choose|path: Seq<(int, int)>| #[trigger] m.is_walk(path) && path.first() == b && path.last() == c;
    let r = p + q.drop_first();
    assert forall|i: int| 0 <= i < r.len() implies m.open_at((#[trigger] r[i]).0, r[i].1) by {
        if i < p.len() {
            assert(r[i] == p[i]);
        } else {
            assert(r[i] == q[i - p.len() + 1]);
        }
    }
    assert forall|i: int| 0 <= i < r.len() - 1 implies adjacent(#[trigger] r[i], r[i + 1]) by {
        if i < p.len() - 1 {
            assert(r[i] == p[i]);
            assert(r[i + 1] == p[i + 1]);
        } else if i == p.len() - 1 {
            assert(r[i] == p[i]);
            assert(r[i] == q[0]);
            assert(r[i + 1] == q[1]);
        } else {
            assert(r[i] == q[i - p.len() + 1]);
            assert(r[i + 1] == q[i - p.len() + 2]);
        }
    }
    assert(m.is_walk(r));
    if q.len() == 1 {
        assert(r.last() == p.last());
    } else {
        assert(r.last() == q.last());
    }
    assert(r.first() == p.first());
}

/// A walk stays a walk when more tiles open.
pub proof fn lemma_connected_grows(m: &TileMap, later: &TileMap, a: (int, int), b: (int, int))
    requires
        m.opens_into(later),
        m.connected(a, b),
    ensures
        later.connected(a, b),
{
    let p = choose|path: Seq<(int, int)>| #[trigger] m.is_walk(path) && path.first() == a && path.last() == b;
    assert(later.is_walk(p));
}

/// A stretch of open tiles along one row is connected end to end.
pub proof fn lemma_row_connected(m: &TileMap, y: int, a: int, b: int)
    requires
        forall|x: int| spec_min(a, b) <= x <= spec_max(a, b) ==> #[trigger] m.open_at(x, y),
    ensures
        m.connected((a, y), (b, y)),
    decreases spec_max(a, b) - spec_min(a, b),
{
    assert(m.open_at(a, y));
    if a == b {
        lemma_connected_refl(m, (a, y));
    } else {
        let next = if a < b {
            a + 1
        } else {
            a - 1
        };
        assert(m.open_at(next, y));
        lemma_connected_step(m, (a, y), (next, y));
        lemma_row_connected(m, y, next, b);
        lemma_connected_trans(m, (a, y), (next, y), (b, y));
    }
}

/// A stretch of open tiles along one column is connected end to end.
pub proof fn lemma_column_connected(m: &TileMap, x: int, a: int, b: int)
    requires
        forall|y: int| spec_min(a, b) <= y <= spec_max(a, b) ==> #[trigger] m.open_at(x, y),
    ensures
        m.connected((x, a), (x, b)),
    decreases spec_max(a, b) - spec_min(a, b),
{
    assert(m.open_at(x, a));
    if a == b {
        lemma_connected_refl(m, (x, a));
    } else {
        let next = if a < b {
            a + 1
        } else {
            a - 1
        };
        assert(m.open_at(x, next));
        lemma_connected_step(m, (x, a), (x, next));
        lemma_column_connected(m, x, next, b);
        lemma_connected_trans(m, (x, a), (x, next), (x, b));
    }
}

/// Inside a room whose floor is open, any tile can be reached from any other.
pub proof fn lemma_room_connected(m: &TileMap, r: Rect, a: (int, int), b: (int, int))
    requires
        forall|x: int, y: int| r.interior(x, y) ==> #[trigger] m.open_at(x, y),
        r.interior(a.0, a.1),
        r.interior(b.0, b.1),
    ensures
        m.connected(a, b),
{
    assert forall|x: int| spec_min(a.0, b.0) <= x <= spec_max(a.0, b.0) implies #[trigger] m.open_at(x, a.1) by {
        assert(r.interior(x, a.1));
    }
    lemma_row_connected(m, a.1, a.0, b.0);
    assert forall|y: int| spec_min(a.1, b.1) <= y <= spec_max(a.1, b.1) implies #[trigger] m.open_at(b.0, y) by {
        assert(r.interior(b.0, y));
    }
    lemma_column_connected(m, b.0, a.1, b.1);
    lemma_connected_trans(m, a, (b.0, a.1), b);
}

/// Along a corridor of open tiles, every corridor tile and the far end can
/// be reached from the near end.
pub proof fn lemma_corridor_connected(
    m: &TileMap,
    prev: (int, int),
    next: (int, int),
    horizontal_first: bool,
    t: (int, int),
)
    requires
        prev.0 >= 1,
        prev.1 >= 1,
        next.0 >= 1,
        next.1 >= 1,
        forall|x: int, y: int| on_corridor(prev, next, horizontal_first, x, y) ==> #[trigger] m.open_at(x, y),
        on_corridor(prev, next, horizontal_first, t.0, t.1) || t == next,
    ensures
        m.connected(prev, t),
{
    if horizontal_first {
        let corner = (next.0, prev.1);
        assert forall|x: int| spec_min(prev.0, next.0) <= x <= spec_max(prev.0, next.0) implies #[trigger] m.open_at(
            x,
            prev.1,
        ) by {
            assert(on_horizontal_tunnel(prev.0, next.0, prev.1, x, prev.1));
            assert(on_corridor(prev, next, horizontal_first, x, prev.1));
        }
        assert forall|y: int| spec_min(prev.1, next.1) <= y <= spec_max(prev.1, next.1) implies #[trigger] m.open_at(
            next.0,
            y,
        ) by {
            assert(on_vertical_tunnel(prev.1, next.1, next.0, next.0, y));
            assert(on_corridor(prev, next, horizontal_first, next.0, y));
        }
        if on_horizontal_tunnel(prev.0, next.0, prev.1, t.0, t.1) {
            assert forall|x: int| spec_min(prev.0, t.0) <= x <= spec_max(prev.0, t.0) implies #[trigger] m.open_at(
                x,
                prev.1,
            ) by {
                assert(spec_min(prev.0, next.0) <= x <= spec_max(prev.0, next.0));
            }
            lemma_row_connected(m, prev.1, prev.0, t.0);
        } else {
            lemma_row_connected(m, prev.1, prev.0, next.0);
            assert forall|y: int| spec_min(prev.1, t.1) <= y <= spec_max(prev.1, t.1) implies #[trigger] m.open_at(
                next.0,
                y,
            ) by {
                assert(spec_min(prev.1, next.1) <= y <= spec_max(prev.1, next.1));
            }
            lemma_column_connected(m, next.0, prev.1, t.1);
            lemma_connected_trans(m, prev, corner, t);
        }
    } else {
        let corner = (prev.0, next.1);
        assert forall|y: int| spec_min(prev.1, next.1) <= y <= spec_max(prev.1, next.1) implies #[trigger] m.open_at(
            prev.0,
            y,
        ) by {
            assert(on_vertical_tunnel(prev.1, next.1, prev.0, prev.0, y));
            assert(on_corridor(prev, next, horizontal_first, prev.0, y));
        }
        assert forall|x: int| spec_min(prev.0, next.0) <= x <= spec_max(prev.0, next.0) implies #[trigger] m.open_at(
            x,
            next.1,
        ) by {
            assert(on_horizontal_tunnel(prev.0, next.0, next.1, x, next.1));
            assert(on_corridor(prev, next, horizontal_first, x, next.1));
        }
        if on_vertical_tunnel(prev.1, next.1, prev.0, t.0, t.1) {
            assert forall|y: int| spec_min(prev.1, t.1) <= y <= spec_max(prev.1, t.1) implies #[trigger] m.open_at(
                prev.0,
                y,
            ) by {
                assert(spec_min(prev.1, next.1) <= y <= spec_max(prev.1, next.1));
            }
            lemma_column_connected(m, prev.0, prev.1, t.1);
        } else {
            lemma_column_connected(m, prev.0, prev.1, next.1);
            assert forall|x: int| spec_min(prev.0, t.0) <= x <= spec_max(prev.0, t.0) implies #[trigger] m.open_at(
                x,
                next.1,
            ) by {
                assert(spec_min(prev.0, next.0) <= x <= spec_max(prev.0, next.0));
            }
            lemma_row_connected(m, next.1, prev.0, t.0);
            lemma_connected_trans(m, prev, corner, t);
        }
    }
}

/// Adding a room keeps the map connected: if every open tile could be
/// reached from the centre of the first room before, every open tile can be
/// reached from it afterwards, the new room and its corridor included.
pub proof fn lemma_add_room_keeps_reachable(before: &TileMap, after: &TileMap, room: Rect, horizontal_first: bool)
    requires
        before.wf(),
        before.rooms_fit(),
        before.room_fits(room),
        before.rooms_open(),
        before.rooms@.len() == 0 ==> forall|x: int, y: int| !#[trigger] before.open_at(x, y),
        before.rooms@.len() > 0 ==> before.all_reachable_from(before.rooms@[0].center_spec()),
        after.width == before.width,
        after.height == before.height,
        after.rooms@ == before.rooms@.push(room),
        forall|x: int, y: int|
            before.in_bounds(x, y) ==> #[trigger] after.tile(x, y) == if carved_by(
                before.rooms@,
                room,
                horizontal_first,
                x,
                y,
            ) {
                crate::map::TileType::Floor
            } else {
                before.tile(x, y)
            },
    ensures
        after.rooms_open(),
        after.all_reachable_from(after.rooms@[0].center_spec()),
        before.opens_into(after),
{
    let next = room.center_spec();
    assert(room.interior(next.0, next.1));
    assert forall|x: int, y: int| #[trigger] before.open_at(x, y) implies after.open_at(x, y) by {
        let t = after.tile(x, y);
    }
    assert forall|x: int, y: int| room.interior(x, y) implies #[trigger] after.open_at(x, y) by {
        let t = after.tile(x, y);
    }
    assert forall|i: int, x: int, y: int|
        0 <= i < after.rooms@.len() && (#[trigger] after.rooms@[i]).interior(x, y) implies #[trigger] after.open_at(
        x,
        y,
    ) by {
        if i < before.rooms@.len() {
            assert(after.rooms@[i] == before.rooms@[i]);
            assert(before.open_at(x, y));
        }
    }
    let origin = after.rooms@[0].center_spec();
    if before.rooms@.len() == 0 {
        assert(origin == next);
        assert forall|x: int, y: int| #[trigger] after.open_at(x, y) implies after.connected(origin, (x, y)) by {
            let t = after.tile(x, y);
            assert(!before.open_at(x, y));
            assert(room.interior(x, y));
            lemma_room_connected(after, room, origin, (x, y));
        }
    } else {
        let last = before.rooms@.last();
        let prev = last.center_spec();
        assert(before.room_fits(last));
        assert(before.room_fits(before.rooms@[0]));
        assert(last.interior(prev.0, prev.1));
        assert(before.open_at(prev.0, prev.1));
        assert(origin == before.rooms@[0].center_spec());
        assert(before.connected(origin, prev));
        lemma_connected_grows(before, after, origin, prev);
        assert forall|x: int, y: int| on_corridor(prev, next, horizontal_first, x, y) implies #[trigger] after.open_at(
            x,
            y,
        ) by {
            let t = after.tile(x, y);
            assert(carved_by(before.rooms@, room, horizontal_first, x, y));
            assert(before.in_bounds(x, y));
        }
        assert forall|x: int, y: int| #[trigger] after.open_at(x, y) implies after.connected(origin, (x, y)) by {
            let t = after.tile(x, y);
            if on_corridor(prev, next, horizontal_first, x, y) {
                lemma_corridor_connected(after, prev, next, horizontal_first, (x, y));
                lemma_connected_trans(after, origin, prev, (x, y));
            } else if room.interior(x, y) {
                lemma_corridor_connected(after, prev, next, horizontal_first, next);
                lemma_connected_trans(after, origin, prev, next);
                lemma_room_connected(after, room, next, (x, y));
                lemma_connected_trans(after, origin, next, (x, y));
            } else {
                assert(before.open_at(x, y));
                assert(before.connected(origin, (x, y)));
                lemma_connected_grows(before, after, origin, (x, y));
            }
        }
    }
}

} // verus!
