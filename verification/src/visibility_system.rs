//! Recomputes the viewsheds that are marked dirty and, for the player,
//! what of the map is visible and revealed.

use crate::components::{Position, Viewshed, ViewshedView, MAX_VIEW_RANGE};
use crate::map::TileMap;
use crate::world::{RecordView, World, WorldView};
use vstd::prelude::*;

verus! {

/// Recomputes the viewsheds that are due.
pub struct VisibilitySystem {}

/// The tiles in the field of view of an observer at `(x, y)` who sees
/// `range` tiles far, on a grid of the given size whose tiles block sight
/// where `opaque` says so: what `rltk::field_of_view` computes.
pub uninterp spec fn fov_tiles(x: int, y: int, range: int, width: int, height: int, opaque: Seq<bool>) -> Set<
    (int, int),
>;

/// The tiles that occur in `points`.
pub open spec fn point_set(points: Seq<rltk::Point>) -> Set<(int, int)> {
    Set::new(|p: (int, int)| exists|k: int| 0 <= k < points.len() && p == (#[trigger] points[k].x as int, points[k].y as int))
}

/// `rltk::field_of_view` by recursive shadow casting, with the map's walls
/// as the opaque tiles. The tiles come in no particular order; as a set they
/// are a function of the observer's place and range and of the map's size
/// and walls. The call needs the observer on the grid, and a range whose
/// square, times four, fits `i32`: none above `MAX_VIEW_RANGE`.
#[verifier::external_body]
fn field_of_view(x: i32, y: i32, range: i32, map: &TileMap) -> (tiles: Vec<rltk::Point>)
    requires
        map.wf(),
        map.in_bounds(x as int, y as int),
        0 <= range <= MAX_VIEW_RANGE,
    ensures
        point_set(tiles@) == fov_tiles(
            x as int,
            y as int,
            range as int,
            map.width as int,
            map.height as int,
            map.opacity(),
        ),
{
    rltk::field_of_view(rltk::Point { x, y }, range, map)
}

impl TileMap {
    /// What an observer at `pos` with the given range sees of the map: the
    /// tiles of the field of view that lie on the grid.
    pub open spec fn sight(&self, pos: Position, range: i32) -> Set<(int, int)> {
        Set::new(
            |p: (int, int)|
                self.in_bounds(p.0, p.1) && fov_tiles(
                    pos.x as int,
                    pos.y as int,
                    range as int,
                    self.width as int,
                    self.height as int,
                    self.opacity(),
                ).contains(p),
        )
    }

    /// The tile `t` is among the first `k` of `seen`.
    pub open spec fn seen_among(&self, seen: Seq<Position>, k: int, t: int) -> bool {
        exists|j: int| 0 <= j < k && self.index_of((#[trigger] seen[j]).x as int, seen[j].y as int) == t
    }

    /// `self` is `before` with the tiles of `seen` marked: exactly they are
    /// visible, and they are revealed besides what was revealed before.
    pub open spec fn marks(&self, before: &TileMap, seen: Seq<Position>) -> bool {
        &&& *self == (TileMap {
            visible_tiles: self.visible_tiles,
            revealed_tiles: self.revealed_tiles,
            ..*before
        })
        &&& self.visible_tiles@.len() == before.visible_tiles@.len()
        &&& self.revealed_tiles@.len() == before.revealed_tiles@.len()
        &&& forall|t: int|
            0 <= t < before.count() ==> {
                &&& #[trigger] self.visible_tiles@[t] == before.seen_among(seen, seen.len() as int, t)
                &&& self.revealed_tiles@[t] == (before.revealed_tiles@[t] || self.visible_tiles@[t])
            }
    }

    /// The tiles within `range` of `pos` that are in its field of view and
    /// on the grid.
    pub fn visible_from(&self, pos: Position, range: i32) -> (seen: Vec<Position>)
        requires
            self.wf(),
            self.in_bounds(pos.x as int, pos.y as int),
            0 <= range <= MAX_VIEW_RANGE,
        ensures
            (ViewshedView { visible_tiles: seen@, range, dirty: false }).visible_set() == self.sight(pos, range),
            forall|k: int| 0 <= k < seen@.len() ==> self.in_bounds((#[trigger] seen@[k]).x as int, seen@[k].y as int),
    {
        let tiles = field_of_view(pos.x, pos.y, range, self);
        let mut seen: Vec<Position> = Vec::new();
        let mut k: usize = 0;
        while k < tiles.len()
            invariant
                0 <= k <= tiles@.len(),
                forall|j: int| 0 <= j < seen@.len() ==> self.in_bounds((#[trigger] seen@[j]).x as int, seen@[j].y as int),
                forall|j: int|
                    0 <= j < seen@.len() ==> exists|m: int|
                        0 <= m < k && (#[trigger] tiles@[m].x as int, tiles@[m].y as int) == (#[trigger] seen@[j]).point(),
                forall|m: int|
                    0 <= m < k && self.in_bounds(tiles@[m].x as int, tiles@[m].y as int) ==> exists|j: int|
                        0 <= j < seen@.len() && (#[trigger] seen@[j]).point() == (
                            #[trigger] tiles@[m].x as int,
                            tiles@[m].y as int,
                        ),
            decreases tiles@.len() - k,
        {
            let p = tiles[k];
            if p.x >= 0 && p.x < self.width && p.y >= 0 && p.y < self.height {
                let ghost grown = seen@;
                seen.push(Position { x: p.x, y: p.y });
                proof {
                    let last = seen@.len() - 1;
                    assert(seen@[last].point() == (tiles@[k as int].x as int, tiles@[k as int].y as int));
                    assert forall|m: int|
                        0 <= m < k + 1 && self.in_bounds(tiles@[m].x as int, tiles@[m].y as int) implies exists|j: int|
                        0 <= j < seen@.len() && (#[trigger] seen@[j]).point() == (
                            #[trigger] tiles@[m].x as int,
                            tiles@[m].y as int,
                        ) by {
                        if m < k {
                            let j = choose|j: int|
                                0 <= j < grown.len() && (#[trigger] grown[j]).point() == (
                                    tiles@[m].x as int,
                                    tiles@[m].y as int,
                                );
                            assert(seen@[j] == grown[j]);
                        }
                    }
                    assert forall|j: int| 0 <= j < seen@.len() implies exists|m: int|
                        0 <= m < k + 1 && (#[trigger] tiles@[m].x as int, tiles@[m].y as int) == (
                            #[trigger] seen@[j]
                        ).point() by {
                        if j < last {
                            assert(seen@[j] == grown[j]);
                            let m = choose|m: int|
                                0 <= m < k && (#[trigger] tiles@[m].x as int, tiles@[m].y as int) == grown[j].point();
                            assert(0 <= m < k + 1);
                        } else {
                            assert(0 <= k < k + 1);
                        }
                    }
                }
            }
            k = k + 1;
        }
        proof {
            let view = ViewshedView { visible_tiles: seen@, range, dirty: false };
            let all = fov_tiles(
                pos.x as int,
                pos.y as int,
                range as int,
                self.width as int,
                self.height as int,
                self.opacity(),
            );
            assert forall|p: (int, int)| view.visible_set().contains(p) <==> self.sight(pos, range).contains(p) by {
                if view.visible_set().contains(p) {
                    let j = choose|j: int| 0 <= j < seen@.len() && (#[trigger] seen@[j]).point() == p;
                    let m = choose|m: int|
                        0 <= m < k && (#[trigger] tiles@[m].x as int, tiles@[m].y as int) == seen@[j].point();
                    assert(point_set(tiles@).contains(p));
                }
                if self.sight(pos, range).contains(p) {
                    assert(point_set(tiles@).contains(p));
                    let m = choose|m: int| 0 <= m < tiles@.len() && p == (#[trigger] tiles@[m].x as int, tiles@[m].y as int);
                    let j = choose|j: int|
                        0 <= j < seen@.len() && (#[trigger] seen@[j]).point() == (tiles@[m].x as int, tiles@[m].y as int);
                }
            }
            assert(view.visible_set() =~= self.sight(pos, range));
        }
        seen
    }

    /// Marks the tiles of `seen` as the visible ones: no other tile is
    /// visible afterwards, and each of them is revealed from now on.
    pub fn mark_visible(&mut self, seen: &Vec<Position>)
        requires
            old(self).wf(),
            forall|k: int| 0 <= k < seen@.len() ==> old(self).in_bounds((#[trigger] seen@[k]).x as int, seen@[k].y as int),
        ensures
            final(self).marks(old(self), seen@),
            final(self).wf(),
    {
        let ghost before = *self;
        let mut t: usize = 0;
        while t < self.visible_tiles.len()
            invariant
                before.wf(),
                *self == (TileMap { visible_tiles: self.visible_tiles, ..before }),
                self.visible_tiles@.len() == before.visible_tiles@.len(),
                0 <= t <= self.visible_tiles@.len(),
                forall|j: int| 0 <= j < t ==> !self.visible_tiles@[j],
            decreases self.visible_tiles@.len() - t,
        {
            self.visible_tiles[t] = false;
            t = t + 1;
        }
        let mut k: usize = 0;
        while k < seen.len()
            invariant
                before.wf(),
                0 <= k <= seen@.len(),
                forall|j: int| 0 <= j < seen@.len() ==> before.in_bounds((#[trigger] seen@[j]).x as int, seen@[j].y as int),
                *self == (TileMap {
                    visible_tiles: self.visible_tiles,
                    revealed_tiles: self.revealed_tiles,
                    ..before
                }),
                self.visible_tiles@.len() == before.visible_tiles@.len(),
                self.revealed_tiles@.len() == before.revealed_tiles@.len(),
                forall|t: int|
                    0 <= t < before.count() ==> {
                        &&& #[trigger] self.visible_tiles@[t] == before.seen_among(seen@, k as int, t)
                        &&& self.revealed_tiles@[t] == (before.revealed_tiles@[t] || self.visible_tiles@[t])
                    },
            decreases seen@.len() - k,
        {
            let ghost prev = *self;
            let p = seen[k];
            let idx = self.xy_idx(p.x, p.y);
            self.revealed_tiles[idx] = true;
            self.visible_tiles[idx] = true;
            proof {
                assert forall|t: int| 0 <= t < before.count() implies {
                    &&& #[trigger] self.visible_tiles@[t] == before.seen_among(seen@, k as int + 1, t)
                    &&& self.revealed_tiles@[t] == (before.revealed_tiles@[t] || self.visible_tiles@[t])
                } by {
                    let was = prev.visible_tiles@[t];
                    assert(was == before.seen_among(seen@, k as int, t));
                    if t == idx {
                        assert(before.index_of(seen@[k as int].x as int, seen@[k as int].y as int) == t);
                        assert(before.seen_among(seen@, k as int + 1, t));
                    } else {
                        if before.seen_among(seen@, k as int + 1, t) {
                            let j = choose|j: int|
                                0 <= j < k + 1 && before.index_of((#[trigger] seen@[j]).x as int, seen@[j].y as int) == t;
                            assert(j < k);
                            assert(before.seen_among(seen@, k as int, t));
                        }
                        if before.seen_among(seen@, k as int, t) {
                            let j = choose|j: int|
                                0 <= j < k && before.index_of((#[trigger] seen@[j]).x as int, seen@[j].y as int) == t;
                            assert(0 <= j < k + 1);
                        }
                    }
                }
            }
            k = k + 1;
        }
    }
}

/// What is seen depends on the size and the tiles of the map alone.
pub proof fn lemma_sight_same_tiles(a: &TileMap, b: &TileMap, pos: Position, range: i32)
    requires
        a.width == b.width,
        a.height == b.height,
        a.tiles == b.tiles,
    ensures
        a.sight(pos, range) == b.sight(pos, range),
{
    assert(a.opacity() =~= b.opacity());
    assert(a.sight(pos, range) =~= b.sight(pos, range));
}

impl WorldView {
    /// The entity `i` is alive, has a place, and its viewshed is dirty.
    pub open spec fn needs_sight(self, i: int) -> bool {
        &&& 0 <= i < self.entities.len()
        &&& self.entities[i].alive
        &&& self.entities[i].position is Some
        &&& self.entities[i].viewshed matches Some(v)
        &&& v.dirty
    }

    /// The record of the entity `i` is what a pass over `before` leaves: a
    /// viewshed that was due holds what the entity sees from its place and
    /// is clean; nothing else has changed.
    pub open spec fn refreshed(self, before: WorldView, i: int) -> bool {
        let r = before.entities[i];
        if before.needs_sight(i) {
            &&& self.entities[i].viewshed matches Some(v)
            &&& !v.dirty
            &&& v.range == r.viewshed->0.range
            &&& v.visible_set() == before.map.sight(r.position->0, r.viewshed->0.range)
            &&& self.entities[i] == (RecordView { viewshed: self.entities[i].viewshed, ..r })
        } else {
            self.entities[i] == r
        }
    }

    /// The map is what a pass over `before` leaves: where the player's
    /// viewshed was due, exactly the tiles that it now holds are visible, and
    /// they are revealed besides what was revealed; else nothing has changed.
    pub open spec fn map_refreshed(self, before: WorldView) -> bool {
        if before.needs_sight(before.player.id as int) {
            self.map.marks(&before.map, self.entities[before.player.id as int].viewshed->0.visible_tiles)
        } else {
            self.map == before.map
        }
    }

    /// `self` is what a pass of the visibility system over `before` leaves.
    pub open spec fn sight_refreshed(self, before: WorldView) -> bool {
        &&& self.entities.len() == before.entities.len()
        &&& self.pending_deletes == before.pending_deletes
        &&& self.pending_creates == before.pending_creates
        &&& self.player == before.player
        &&& self.runstate == before.runstate
        &&& self.log == before.log
        &&& forall|i: int| 0 <= i < self.entities.len() ==> #[trigger] self.refreshed(before, i)
        &&& self.map_refreshed(before)
    }
}

impl World {
    /// Recomputes the viewshed of the entity `i` where it is due, and with
    /// it, for the player, the visible and revealed tiles of the map.
    pub fn refresh_viewshed(&mut self, i: usize)
        requires
            old(self)@.wf(),
            i < old(self)@.entities.len(),
        ensures
            final(self)@.wf(),
            final(self)@.entities.len() == old(self)@.entities.len(),
            final(self)@.pending_deletes == old(self)@.pending_deletes,
            final(self)@.pending_creates == old(self)@.pending_creates,
            final(self)@.player == old(self)@.player,
            final(self)@.runstate == old(self)@.runstate,
            final(self)@.log == old(self)@.log,
            forall|j: int|
                0 <= j < final(self)@.entities.len() && j != i ==> final(self)@.entities[j] == old(self)@.entities[j],
            final(self)@.refreshed(old(self)@, i as int),
            if i == old(self).player.id && old(self)@.needs_sight(i as int) {
                final(self).map.marks(&old(self).map, final(self)@.entities[i as int].viewshed->0.visible_tiles)
            } else {
                final(self).map == old(self).map
            },
    {
        if !self.entities[i].alive {
            return ;
        }
        let pos = match self.entities[i].position {
            Some(pos) => pos,
            None => {
                return ;
            },
        };
        let range = match &self.entities[i].viewshed {
            Some(viewshed) => {
                if !viewshed.dirty {
                    return ;
                }
                viewshed.range
            },
            None => {
                return ;
            },
        };
        assert(old(self)@.record_wf(old(self)@.entities[i as int]));
        let seen = self.map.visible_from(pos, range);
        if i == self.player.id {
            self.map.mark_visible(&seen);
        }
        self.entities[i].viewshed = Some(Viewshed { visible_tiles: seen, range, dirty: false });
        proof {
            assert forall|j: int| 0 <= j < self@.entities.len() && j != i implies self@.entities[j] == old(
                self,
            )@.entities[j] by {
                assert(self.entities@[j] == old(self).entities@[j]);
            }
            let r = old(self)@.entities[i as int];
            assert(self@.entities[i as int] =~~= (RecordView { viewshed: self@.entities[i as int].viewshed, ..r }));
            assert forall|j: int| 0 <= j < self@.entities.len() implies self@.record_wf(
                #[trigger] self@.entities[j],
            ) by {
                assert(old(self)@.record_wf(old(self)@.entities[j]));
            }
            assert forall|j: int| 0 <= j < self@.pending_creates.len() implies self@.record_wf(
                #[trigger] self@.pending_creates[j],
            ) by {
                assert(old(self)@.record_wf(old(self)@.pending_creates[j]));
            }
        }
    }
}

impl VisibilitySystem {
    /// Recomputes every viewshed that is due. Afterwards none is due. A
    /// pass over a world in which none is due changes nothing, and no pass
    /// takes a tile back that was revealed.
    pub fn run_now(&mut self, ecs: &mut World)
        requires
            old(ecs)@.wf(),
        ensures
            final(ecs)@.wf(),
            final(ecs)@.sight_refreshed(old(ecs)@),
            forall|i: int| !final(ecs)@.needs_sight(i),
            (forall|i: int| !old(ecs)@.needs_sight(i)) ==> final(ecs)@ == old(ecs)@,
            final(ecs).map == (TileMap {
                visible_tiles: final(ecs).map.visible_tiles,
                revealed_tiles: final(ecs).map.revealed_tiles,
                ..old(ecs).map
            }),
            forall|t: int|
                0 <= t < old(ecs).map.count() && old(ecs).map.revealed_tiles@[t] ==> final(ecs).map.revealed_tiles@[t],
    {
        let ghost before = ecs@;
        let n = ecs.entities.len();
        let mut k: usize = 0;
        while k < n
            invariant
                0 <= k <= n,
                n == before.entities.len(),
                before == old(ecs)@,
                before.wf(),
                ecs@.wf(),
                ecs@.entities.len() == before.entities.len(),
                ecs@.pending_deletes == before.pending_deletes,
                ecs@.pending_creates == before.pending_creates,
                ecs@.player == before.player,
                ecs@.runstate == before.runstate,
                ecs@.log == before.log,
                forall|j: int| 0 <= j < k ==> #[trigger] ecs@.refreshed(before, j),
                forall|j: int| k <= j < n ==> #[trigger] ecs@.entities[j] == before.entities[j],
                ecs.map.width == before.map.width,
                ecs.map.height == before.map.height,
                ecs.map.tiles == before.map.tiles,
                if before.player.id < k && before.needs_sight(before.player.id as int) {
                    ecs.map.marks(&before.map, ecs@.entities[before.player.id as int].viewshed->0.visible_tiles)
                } else {
                    ecs.map == before.map
                },
            decreases n - k,
        {
            let ghost prev = ecs@;
            ecs.refresh_viewshed(k);
            proof {
                assert(prev.entities[k as int] == before.entities[k as int]);
                assert(prev.needs_sight(k as int) == before.needs_sight(k as int));
                if before.needs_sight(k as int) {
                    let r = before.entities[k as int];
                    lemma_sight_same_tiles(&prev.map, &before.map, r.position->0, r.viewshed->0.range);
                }
                assert(ecs@.refreshed(before, k as int));
                assert forall|j: int| 0 <= j < k implies #[trigger] ecs@.refreshed(before, j) by {
                    assert(prev.refreshed(before, j));
                    assert(ecs@.entities[j] == prev.entities[j]);
                }
                assert forall|j: int| k + 1 <= j < n implies #[trigger] ecs@.entities[j] == before.entities[j] by {
                    assert(prev.entities[j] == before.entities[j]);
                }
            }
            k = k + 1;
        }
        proof {
            assert forall|t: int| 0 <= t < before.map.count() && before.map.revealed_tiles@[t] implies ecs.map.revealed_tiles@[t] by {
                let visible = ecs.map.visible_tiles@[t];
            }
            assert forall|i: int| !ecs@.needs_sight(i) by {
                if 0 <= i < n {
                    assert(ecs@.refreshed(before, i));
                }
            }
            if forall|i: int| !before.needs_sight(i) {
                assert forall|i: int| 0 <= i < n implies ecs@.entities[i] == before.entities[i] by {
                    assert(ecs@.refreshed(before, i));
                    assert(!before.needs_sight(i));
                }
                assert(ecs@.entities =~= before.entities);
                assert(!before.needs_sight(before.player.id as int));
            }
        }
    }
}

/// A pass leaves no viewshed due.
pub proof fn lemma_pass_leaves_none_due(a: WorldView, b: WorldView)
    requires
        b.sight_refreshed(a),
    ensures
        forall|i: int| !b.needs_sight(i),
{
    assert forall|i: int| !b.needs_sight(i) by {
        if 0 <= i < b.entities.len() {
            assert(b.refreshed(a, i));
        }
    }
}

/// The visibility system is idempotent: a second pass right after a first
/// changes nothing, neither the viewsheds nor what is visible or revealed.
pub proof fn lemma_second_pass_changes_nothing(a: WorldView, b: WorldView, c: WorldView)
    requires
        b.sight_refreshed(a),
        c.sight_refreshed(b),
    ensures
        c == b,
{
    lemma_pass_leaves_none_due(a, b);
    assert forall|i: int| 0 <= i < c.entities.len() implies c.entities[i] == b.entities[i] by {
        assert(c.refreshed(b, i));
        assert(!b.needs_sight(i));
    }
    assert(c.entities =~= b.entities);
    assert(!b.needs_sight(b.player.id as int));
}

/// Exploration is permanent: a pass takes back no tile that was revealed,
/// and whatever it makes visible is revealed.
pub proof fn lemma_pass_keeps_revealed(a: WorldView, b: WorldView)
    requires
        a.map.wf(),
        b.sight_refreshed(a),
    ensures
        b.map.revealed_tiles@.len() == a.map.revealed_tiles@.len(),
        forall|t: int| 0 <= t < a.map.count() && a.map.revealed_tiles@[t] ==> b.map.revealed_tiles@[t],
        a.needs_sight(a.player.id as int) ==> forall|t: int|
            0 <= t < a.map.count() && b.map.visible_tiles@[t] ==> b.map.revealed_tiles@[t],
{
    assert forall|t: int| 0 <= t < a.map.count() && a.map.revealed_tiles@[t] implies b.map.revealed_tiles@[t] by {
        let visible = b.map.visible_tiles@[t];
    }
}

} // verus!
