//! The descent to the next level: who comes along, the new map, and where
//! the player arrives.

use crate::components::{CombatStats, Position, MAX_VIEW_RANGE};
use crate::gamelog::LogEvent;
use crate::map::TileMap;
use crate::rect::{half, halved, Rect};
use crate::spawner::{record_named, spawn_room, SpawnPoint, MAX_DEPTH};
use crate::world::{EntityRecord, RecordView, World, WorldView};
use vstd::prelude::*;

verus! {

/// Health on arrival at a new level: what it was, but no less than half of
/// the maximum.
pub open spec fn rested_hp(stats: CombatStats) -> i32 {
    if stats.hp >= half(stats.max_hp as int) {
        stats.hp
    } else {
        half(stats.max_hp as int) as i32
    }
}

impl RecordView {
    /// The record is that of a monster or an item that was spawned on the
    /// floor of `room`.
    pub open spec fn is_newcomer_in(self, room: Rect) -> bool {
        &&& self.alive
        &&& !self.player
        &&& self.monster || self.item
        &&& self.position matches Some(p)
        &&& room.interior(p.x as int, p.y as int)
        &&& self.viewshed matches Some(v) ==> 0 <= v.range <= MAX_VIEW_RANGE
    }
}

impl WorldView {
    /// The entity `i` comes along to the next level: the player does, and
    /// what the player carries or has equipped.
    pub open spec fn survives_descent(self, i: int) -> bool {
        let r = self.entities[i];
        &&& r.alive
        &&& {
            ||| i == self.player.id
            ||| (r.in_backpack matches Some(b) && b.owner == self.player)
            ||| (r.equipped matches Some(e) && e.owner == self.player)
        }
    }

    /// What the descent leaves of the entity `i` before the player is
    /// placed: an entity that comes along keeps its record, off the map
    /// unless it is the player; the others are deleted.
    pub open spec fn culled_record(self, i: int) -> RecordView {
        let r = self.entities[i];
        if self.survives_descent(i) {
            if i == self.player.id {
                r
            } else {
                RecordView { position: None, ..r }
            }
        } else {
            RecordView::blank(false)
        }
    }

    /// What the descent to the map `map` leaves of the entity `i`: the
    /// player stands on the centre of the first room with a dirty viewshed
    /// and rested health; for the others see `culled_record`.
    pub open spec fn arrived_record(self, i: int, map: &TileMap) -> RecordView {
        let r = self.culled_record(i);
        if i == self.player.id {
            let c = map.rooms@[0].center_spec();
            (RecordView {
                position: Some(Position { x: c.0 as i32, y: c.1 as i32 }),
                combat_stats: match r.combat_stats {
                    Some(s) => Some(CombatStats { hp: rested_hp(s), ..s }),
                    None => None,
                },
                ..r
            }).dirtied()
        } else {
            r
        }
    }

    /// The entity `j` was spawned in one of the rooms of the map after the first.
    pub open spec fn is_newcomer(self, j: int) -> bool {
        exists|k: int| 1 <= k < self.map.rooms@.len() && self.entities[j].is_newcomer_in(#[trigger] self.map.rooms@[k])
    }

    /// `self` is what a descent from `before` leaves: a freshly generated
    /// map one level deeper; of the old entities, those that came along; and
    /// new monsters and items in every room but the first. Creations that
    /// were waiting are dropped.
    pub open spec fn descended_from(self, before: WorldView) -> bool {
        &&& self.map.is_generated((before.map.depth + 1) as i32)
        &&& self.player == before.player
        &&& self.runstate == before.runstate
        &&& self.pending_deletes == before.pending_deletes
        &&& self.pending_creates == Seq::<RecordView>::empty()
        &&& self.log == before.log.push(LogEvent::Descended { depth: (before.map.depth + 1) as i32 })
        &&& self.entities.len() >= before.entities.len()
        &&& forall|i: int|
            0 <= i < before.entities.len() ==> #[trigger] self.entities[i] == before.arrived_record(i, &self.map)
        &&& forall|j: int| before.entities.len() <= j < self.entities.len() ==> #[trigger] self.is_newcomer(j)
    }
}

/// What the player holds comes along, and nothing else does: after a
/// descent, an item that was in the player's backpack, or equipped by the
/// player, is alive and held as before; the player is alive; and every other
/// entity of before is gone with all its components.
pub proof fn lemma_descent_keeps_what_is_held(before: WorldView, after: WorldView, i: int)
    requires
        after.descended_from(before),
        0 <= i < before.entities.len(),
        before.entities[i].alive,
    ensures
        i != before.player.id && before.entities[i].in_backpack == Some(
            crate::components::InBackpack { owner: before.player },
        ) ==> after.entities[i] == (RecordView { position: None, ..before.entities[i] }),
        before.survives_descent(i) ==> after.entities[i].alive,
        !before.survives_descent(i) ==> after.entities[i] == RecordView::blank(false),
{
    assert(after.entities[i] == before.arrived_record(i, &after.map));
}

/// Spawning at points on the floor of a room adds newcomers in that room
/// and leaves everything else as it was.
pub proof fn lemma_populated(w: WorldView, points: Seq<SpawnPoint>, room: Rect, k: int)
    requires
        w.map.wf(),
        w.spawn_points_fit(points, room),
        0 <= k <= points.len(),
    ensures
        w.populate_among(points, k) == (WorldView { entities: w.populate_among(points, k).entities, ..w }),
        w.entities.len() <= w.populate_among(points, k).entities.len() <= w.entities.len() + k,
        forall|i: int| 0 <= i < w.entities.len() ==> #[trigger] w.populate_among(points, k).entities[i] == w.entities[i],
        forall|j: int|
            w.entities.len() <= j < w.populate_among(points, k).entities.len() ==> (#[trigger] w.populate_among(
                points,
                k,
            ).entities[j]).is_newcomer_in(room),
    decreases k,
{
    if k > 0 {
        lemma_populated(w, points, room, k - 1);
        let before = w.populate_among(points, k - 1);
        let p = points[k - 1];
        let width = w.map.width as int;
        crate::map::lemma_coords_in_range(width, w.map.height as int, p.idx as int);
        let x = (p.idx % (w.map.width as usize)) as i32;
        let y = (p.idx / (w.map.width as usize)) as i32;
        assert(x == p.idx as int % width);
        assert(y == p.idx as int / width);
        assert(room.interior(x as int, y as int));
        let after = w.populate_among(points, k);
        assert(after == before.spawned_named(p.name@, x, y));
        match record_named(p.name@, x, y) {
            Some(r) => {
                assert(r.is_newcomer_in(room));
                assert(after.entities == before.entities.push(r));
            },
            None => {},
        }
    }
}

impl World {
    /// Deletes, at once, every entity that does not come along to the next
    /// level, and takes what comes along off the map, the player excepted.
    /// Creations that were waiting are dropped.
    pub fn cull_for_descent(&mut self)
        ensures
            final(self)@ == (WorldView {
                entities: Seq::new(old(self)@.entities.len(), |i: int| old(self)@.culled_record(i)),
                pending_creates: Seq::empty(),
                ..old(self)@
            }),
            final(self).entities@.len() == old(self).entities@.len(),
            final(self).records_viewed(),
    {
        let ghost before = self@;
        let n = self.entities.len();
        let mut k: usize = 0;
        self.pending_creates.clear();
        assert(self@.entities =~= before.entities);
        assert(self@.pending_creates =~= Seq::empty());
        assert(self.records_viewed());
        while k < n
            invariant
                0 <= k <= n,
                n == before.entities.len(),
                n == self.entities@.len(),
                self.records_viewed(),
                self@ == (WorldView { entities: self@.entities, pending_creates: Seq::empty(), ..before }),
                forall|i: int| 0 <= i < k ==> #[trigger] self@.entities[i] == before.culled_record(i),
                forall|i: int| k <= i < n ==> #[trigger] self@.entities[i] == before.entities[i],
            decreases n - k,
        {
            let ghost prev = self@;
            let mine = match self.entities[k].in_backpack {
                Some(held) => held.owner.id == self.player.id,
                None => false,
            } || match self.entities[k].equipped {
                Some(worn) => worn.owner.id == self.player.id,
                None => false,
            };
            if self.entities[k].alive && (k == self.player.id || mine) {
                if k != self.player.id {
                    self.set_position(k, None);
                }
            } else {
                self.entities[k] = EntityRecord::dead();
            }
            proof {
                assert(self@.entities[k as int] == before.culled_record(k as int));
                assert forall|i: int| 0 <= i < k implies #[trigger] self@.entities[i] == before.culled_record(i) by {
                    assert(prev.entities[i] == before.culled_record(i));
                }
                assert forall|i: int| k + 1 <= i < n implies #[trigger] self@.entities[i] == before.entities[i] by {
                    assert(prev.entities[i] == before.entities[i]);
                }
            }
            k = k + 1;
        }
        assert(self@.entities =~= Seq::new(before.entities.len(), |i: int| before.culled_record(i)));
    }

    /// Takes the player down to the next level: everything that does not
    /// come along is deleted at once; a new map, one level deeper, replaces
    /// the old one and its rooms, but for the first, are filled; the player
    /// arrives at the centre of the first room, rested and with a dirty
    /// viewshed; and the log tells of it. The level to go down to must be
    /// one whose rooms can be filled: no deeper than `MAX_DEPTH`.
    pub fn goto_next_level(&mut self)
        requires
            old(self)@.wf(),
            old(self)@.has_player(),
            old(self).map.depth < MAX_DEPTH,
        ensures
            final(self)@.descended_from(old(self)@),
            final(self)@.wf(),
            final(self)@.has_player(),
    {
        let ghost before = self@;
        let new_depth = self.map.depth + 1;
        let p = self.player.id;
        let n0 = self.entities.len();
        self.cull_for_descent();
        let ghost culled = self@;
        let new_map = TileMap::generate(new_depth, &mut self.rng);
        assert(new_map.room_fits(new_map.rooms@[0]));
        let (px, py) = new_map.rooms[0].center();
        self.map = new_map;
        assert(self@.entities =~= culled.entities);
        assert(self.records_viewed());
        self.set_position(p, Some(Position { x: px, y: py }));
        let ghost placed = self@;
        proof {
            assert forall|i: int| 0 <= i < placed.entities.len() implies placed.record_wf(
                #[trigger] placed.entities[i],
            ) by {
                assert(before.record_wf(before.entities[i]));
                assert(culled.entities[i] == before.culled_record(i));
            }
        }
        let rooms_count = self.map.rooms.len();
        let mut k: usize = 1;
        while k < rooms_count
            invariant
                1 <= k <= rooms_count,
                rooms_count == self.map.rooms@.len(),
                new_depth <= MAX_DEPTH,
                self@.wf(),
                self.map == placed.map,
                self.map.is_generated(new_depth),
                self@ == (WorldView { entities: self@.entities, ..placed }),
                n0 == placed.entities.len(),
                self@.entities.len() >= n0,
                forall|i: int| 0 <= i < n0 ==> #[trigger] self@.entities[i] == placed.entities[i],
                forall|j: int| n0 <= j < self@.entities.len() ==> #[trigger] self@.is_newcomer(j),
            decreases rooms_count - k,
        {
            let room = self.map.rooms[k];
            let ghost prev = self@;
            assert(self.map.room_fits(self.map.rooms@[k as int]));
            spawn_room(self, &room, new_depth);
            proof {
                let (points, roll) = choose|points: Seq<SpawnPoint>, roll: int|
                    {
                        &&& #[trigger] prev.spawn_points_fit(points, room)
                        &&& WorldView::spawn_points_drawn(points, new_depth as int)
                        &&& #[trigger] WorldView::spawn_count_fits(points.len() as int, roll, new_depth as int)
                        &&& self@ == prev.populated(points)
                    };
                lemma_populated(prev, points, room, points.len() as int);
                assert forall|j: int| n0 <= j < self@.entities.len() implies #[trigger] self@.is_newcomer(j) by {
                    if j < prev.entities.len() {
                        assert(prev.is_newcomer(j));
                        assert(self@.entities[j] == prev.entities[j]);
                        let r = choose|r: int|
                            1 <= r < prev.map.rooms@.len() && prev.entities[j].is_newcomer_in(
                                #[trigger] prev.map.rooms@[r],
                            );
                        assert(self@.entities[j].is_newcomer_in(self@.map.rooms@[r]));
                    } else {
                        assert(self@.entities[j].is_newcomer_in(self@.map.rooms@[k as int]));
                    }
                }
                assert forall|i: int| 0 <= i < n0 implies #[trigger] self@.entities[i] == placed.entities[i] by {
                    assert(prev.entities[i] == placed.entities[i]);
                }
            }
            k = k + 1;
        }
        let ghost filled = self@;
        assert(self.records_viewed()) by {
            assert(self@.entities.len() == self.entities@.len());
        }
        self.mark_dirty(p);
        match self.entities[p].combat_stats {
            Some(stats) => {
                let floor = halved(stats.max_hp);
                let hp = if stats.hp >= floor {
                    stats.hp
                } else {
                    floor
                };
                self.set_combat_stats(
                    p,
                    Some(CombatStats { max_hp: stats.max_hp, hp, defense: stats.defense, power: stats.power }),
                );
            },
            None => {},
        }
        self.add_log(LogEvent::Descended { depth: new_depth });
        proof {
            assert forall|i: int| 0 <= i < before.entities.len() implies #[trigger] self@.entities[i]
                == before.arrived_record(i, &self@.map) by {
                assert(filled.entities[i] == placed.entities[i]);
                assert(culled.entities[i] == before.culled_record(i));
                if i == p {
                    assert(self@.entities[i] =~~= before.arrived_record(i, &self@.map));
                }
            }
            assert forall|j: int| before.entities.len() <= j < self@.entities.len() implies #[trigger] self@.is_newcomer(
                j,
            ) by {
                assert(filled.is_newcomer(j));
                assert(self@.entities[j] == filled.entities[j]);
                let r = choose|r: int|
                    1 <= r < filled.map.rooms@.len() && filled.entities[j].is_newcomer_in(
                        #[trigger] filled.map.rooms@[r],
                    );
                assert(self@.entities[j].is_newcomer_in(self@.map.rooms@[r]));
            }
            assert forall|i: int| 0 <= i < self@.entities.len() implies self@.record_wf(#[trigger] self@.entities[i]) by {
                assert(filled.record_wf(filled.entities[i]));
            }
        }
    }
}

} // verus!
