//! Rebuilds the map's blocking flags and per-tile occupant lists from the
//! positions of the entities.

use crate::components::Entity;
use crate::map::{TileMap, TileType};
use crate::world::{World, WorldView};
use vstd::prelude::*;

verus! {

/// Rebuilds the spatial index.
pub struct MapIndexingSystem {}

impl WorldView {
    /// The entity `i` is alive and stands on the tile with index `tile`.
    pub open spec fn stands_on(self, i: int, tile: int) -> bool {
        &&& 0 <= i < self.entities.len()
        &&& self.entities[i].alive
        &&& self.entities[i].position matches Some(p)
        &&& self.map.index_of(p.x as int, p.y as int) == tile
    }

    /// The entity `i` stands on `tile` and blocks it.
    pub open spec fn blocks(self, i: int, tile: int) -> bool {
        self.stands_on(i, tile) && self.entities[i].blocks_tile
    }

    /// Some entity stands on `tile` and blocks it.
    pub open spec fn blocker_on(self, tile: int) -> bool {
        exists|i: int| #[trigger] self.blocks(i, tile)
    }

    /// The entities among the first `k` that stand on `tile`, by ascending
    /// identifier.
    pub open spec fn occupants_among(self, tile: int, k: int) -> Seq<Entity>
        decreases k,
    {
        if k <= 0 {
            Seq::empty()
        } else {
            let before = self.occupants_among(tile, k - 1);
            if self.stands_on(k - 1, tile) {
                before.push(Entity { id: (k - 1) as usize })
            } else {
                before
            }
        }
    }

    /// The entities that stand on `tile`, by ascending identifier.
    pub open spec fn occupants(self, tile: int) -> Seq<Entity> {
        self.occupants_among(tile, self.entities.len() as int)
    }

    /// Some entity among the first `k` stands on `tile` and blocks it.
    pub open spec fn blocker_among(self, tile: int, k: int) -> bool {
        exists|i: int| 0 <= i < k && #[trigger] self.blocks(i, tile)
    }

    /// The entries of `map` for `tile` hold what the first `k` entities ask for.
    pub open spec fn indexed_among(self, map: &TileMap, tile: int, k: int) -> bool {
        &&& map.blocked@[tile] == (self.map.tiles@[tile] == TileType::Wall || self.blocker_among(tile, k))
        &&& map.tile_content@[tile]@ == self.occupants_among(tile, k)
    }

    /// The spatial index agrees with the entities: a tile is blocked exactly
    /// when it is a wall or a blocking entity stands on it, and its occupant
    /// list holds exactly the entities that stand on it.
    pub open spec fn indexed(self) -> bool {
        forall|t: int|
            0 <= t < self.map.count() ==> {
                &&& #[trigger] self.map.blocked@[t] == (self.map.tiles@[t] == TileType::Wall || self.blocker_on(t))
                &&& self.map.tile_content@[t]@ == self.occupants(t)
            }
    }
}

impl WorldView {
    /// `self` is `before` with the spatial index rebuilt: nothing but the
    /// blocking flags and the occupant lists has changed, and they agree
    /// with the entities.
    pub open spec fn reindexed(self, before: WorldView) -> bool {
        &&& self == (WorldView { map: self.map, ..before })
        &&& self.map == (TileMap {
            blocked: self.map.blocked,
            tile_content: self.map.tile_content,
            ..before.map
        })
        &&& self.indexed()
    }
}

impl MapIndexingSystem {
    /// Resets the blocking flags from the tiles and empties the occupant
    /// lists; then enters every live entity that has a position into the list
    /// of its tile, and blocks the tile where the entity blocks.
    pub fn run_now(&mut self, ecs: &mut World)
        requires
            old(ecs)@.wf(),
        ensures
            final(ecs)@.reindexed(old(ecs)@),
            final(ecs)@.wf(),
    {
        let ghost before = ecs@;
        let ghost old_map = ecs.map;
        ecs.map.populate_blocked();
        ecs.map.clear_content_index();
        let n = ecs.entities.len();
        let mut k: usize = 0;
        proof {
            assert(ecs@.entities =~= before.entities);
            assert forall|t: int| 0 <= t < before.map.count() implies #[trigger] before.indexed_among(
                &ecs.map,
                t,
                0,
            ) by {
                assert(ecs.map.tile_content@[t]@ =~= Seq::<Entity>::empty());
                assert(!before.blocker_among(t, 0));
            }
        }
        while k < n
            invariant
                0 <= k <= n,
                n == ecs.entities@.len(),
                before.wf(),
                ecs@.entities == before.entities,
                ecs@ == (WorldView { map: ecs.map, ..before }),
                ecs.map == (TileMap { blocked: ecs.map.blocked, tile_content: ecs.map.tile_content, ..old_map }),
                old_map == before.map,
                ecs.map.wf(),
                forall|t: int| 0 <= t < before.map.count() ==> #[trigger] before.indexed_among(&ecs.map, t, k as int),
            decreases n - k,
        {
            let ghost prev_map = ecs.map;
            if ecs.entities[k].alive {
                if let Some(pos) = ecs.entities[k].position {
                    assert(before.entities[k as int] == ecs.entities@[k as int]@);
                    assert(before.record_wf(before.entities[k as int]));
                    let idx = ecs.map.xy_idx(pos.x, pos.y);
                    if ecs.entities[k].blocks_tile {
                        ecs.map.blocked[idx] = true;
                    }
                    ecs.map.tile_content[idx].push(Entity { id: k });
                }
            }
            proof {
                assert(before.entities[k as int] == ecs.entities@[k as int]@);
                assert(ecs@.entities =~= before.entities);
                assert forall|t: int| 0 <= t < before.map.count() implies #[trigger] before.indexed_among(
                    &ecs.map,
                    t,
                    k as int + 1,
                ) by {
                    assert(before.indexed_among(&prev_map, t, k as int));
                    if before.blocks(k as int, t) {
                        assert(ecs.map.blocked@[t]);
                    } else {
                        assert(ecs.map.blocked@[t] == prev_map.blocked@[t]);
                        if before.blocker_among(t, k as int + 1) {
                            let i = choose|i: int| 0 <= i < k + 1 && #[trigger] before.blocks(i, t);
                            assert(0 <= i < k && before.blocks(i, t));
                        }
                    }
                    if before.blocker_among(t, k as int) {
                        let i = choose|i: int| 0 <= i < k && #[trigger] before.blocks(i, t);
                        assert(0 <= i < k + 1 && before.blocks(i, t));
                    }
                }
            }
            k = k + 1;
        }
        proof {
            assert forall|t: int| 0 <= t < ecs@.map.count() implies {
                &&& #[trigger] ecs@.map.blocked@[t] == (ecs@.map.tiles@[t] == TileType::Wall || ecs@.blocker_on(t))
                &&& ecs@.map.tile_content@[t]@ == ecs@.occupants(t)
            } by {
                lemma_index_same_entities(before, ecs@, t, n as int);
                assert(before.indexed_among(&ecs.map, t, n as int));
                if ecs@.blocker_on(t) {
                    let i = choose|i: int| #[trigger] ecs@.blocks(i, t);
                    assert(0 <= i < n && before.blocks(i, t));
                }
                if before.blocker_among(t, n as int) {
                    let i = choose|i: int| 0 <= i < n && #[trigger] before.blocks(i, t);
                    assert(ecs@.blocks(i, t));
                }
            }
        }
    }
}

/// Who stands where depends on the entities and the size of the grid alone.
pub proof fn lemma_index_same_entities(a: WorldView, b: WorldView, tile: int, k: int)
    requires
        a.entities == b.entities,
        a.map.width == b.map.width,
    ensures
        a.occupants_among(tile, k) == b.occupants_among(tile, k),
        forall|i: int| a.stands_on(i, tile) == b.stands_on(i, tile),
        forall|i: int| a.blocks(i, tile) == b.blocks(i, tile),
    decreases k,
{
    if k > 0 {
        lemma_index_same_entities(a, b, tile, k - 1);
    }
}

} // verus!
