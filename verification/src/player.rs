//! What the player's commands do to the world: a step or a blow, picking
//! something up, and looking for the way down.

use crate::components::{Entity, Position, WantsToMelee, WantsToPickupItem};
use crate::gamelog::LogEvent;
use crate::map::TileType;
use crate::world::{RecordView, World, WorldView};
use vstd::prelude::*;

verus! {

impl WorldView {
    /// `e` can be fought: it is alive, has combat stats, and is not the player.
    pub open spec fn is_fighter(self, e: Entity) -> bool {
        self.valid(e) && e != self.player && self.entities[e.id as int].combat_stats is Some
    }

    /// The first of `occupants`, from the `k`-th on, that can be fought.
    pub open spec fn first_fighter(self, occupants: Seq<Entity>, k: int) -> Option<Entity>
        decreases occupants.len() - k,
    {
        if k < 0 || k >= occupants.len() {
            None
        } else if self.is_fighter(occupants[k]) {
            Some(occupants[k])
        } else {
            self.first_fighter(occupants, k + 1)
        }
    }

    /// A tile that the player may step on or strike at: on the grid but not
    /// on its outermost ring.
    pub open spec fn in_reach(self, x: int, y: int) -> bool {
        1 <= x <= self.map.width - 2 && 1 <= y <= self.map.height - 2
    }

    /// The world after the player has tried to move by `(dx, dy)`. Where
    /// the tile aimed at holds something that can be fought, the player gets
    /// the intent to strike the first such occupant; else, where the tile is
    /// not blocked, the player stands on it with a dirty viewshed. A tile out
    /// of reach, or a blocked one, leaves the world as it is.
    pub open spec fn player_moved(self, dx: i32, dy: i32) -> WorldView {
        let r = self.entities[self.player.id as int];
        if self.valid(self.player) && r.position is Some && self.in_reach(
            r.position->0.x + dx,
            r.position->0.y + dy,
        ) {
            let x = r.position->0.x + dx;
            let y = r.position->0.y + dy;
            let idx = self.map.index_of(x, y);
            match self.first_fighter(self.map.tile_content@[idx]@, 0) {
                Some(target) => self.with_record(
                    self.player.id as int,
                    RecordView { wants_to_melee: Some(WantsToMelee { target }), ..r },
                ),
                None => if !self.map.blocked@[idx] {
                    self.with_record(
                        self.player.id as int,
                        (RecordView { position: Some(Position { x: x as i32, y: y as i32 }), ..r }).dirtied(),
                    )
                } else {
                    self
                },
            }
        } else {
            self
        }
    }

    /// The entity `i` is a live item that lies at `pos`.
    pub open spec fn item_lies_at(self, i: int, pos: Position) -> bool {
        &&& 0 <= i < self.entities.len()
        &&& self.entities[i].alive
        &&& self.entities[i].item
        &&& self.entities[i].position == Some(pos)
    }

    /// The item with the lowest identifier, from `k` on, that lies at `pos`.
    pub open spec fn first_item_at(self, pos: Position, k: int) -> Option<int>
        decreases self.entities.len() - k,
    {
        if k < 0 || k >= self.entities.len() {
            None
        } else if self.item_lies_at(k, pos) {
            Some(k)
        } else {
            self.first_item_at(pos, k + 1)
        }
    }

    /// The world after the player has reached for an item: the player has
    /// the intent to pick up the first item on their tile, or the log says
    /// that there is none.
    pub open spec fn item_sought(self) -> WorldView {
        let r = self.entities[self.player.id as int];
        if self.valid(self.player) && r.position is Some {
            match self.first_item_at(r.position->0, 0) {
                Some(i) => self.with_record(
                    self.player.id as int,
                    RecordView {
                        wants_to_pickup: Some(
                            WantsToPickupItem { collected_by: self.player, item: Entity { id: i as usize } },
                        ),
                        ..r
                    },
                ),
                None => self.logged(LogEvent::NothingToPickUp),
            }
        } else {
            self
        }
    }

    /// The player stands on the way down.
    pub open spec fn on_stairs(self) -> bool {
        let r = self.entities[self.player.id as int];
        &&& self.valid(self.player)
        &&& r.position matches Some(p)
        &&& self.map.tile(p.x as int, p.y as int) == TileType::DownStairs
    }
}

impl WorldView {
    /// The player can aim at the tile `target` with something that reaches
    /// `range` tiles far: the player sees the tile, and it lies within the
    /// range as the crow flies.
    pub open spec fn can_aim_at(self, target: Position, range: i32) -> bool {
        let r = self.entities[self.player.id as int];
        &&& self.valid(self.player)
        &&& r.position is Some
        &&& r.viewshed is Some
        &&& r.viewshed->0.sees(target)
        &&& 0 <= range
        &&& (target.x - r.position->0.x) * (target.x - r.position->0.x) + (target.y - r.position->0.y) * (target.y
            - r.position->0.y) <= range * range
    }
}

impl World {
    /// Whether the player can aim at the tile `target` with something that
    /// reaches `range` tiles far.
    pub fn can_target(&self, target: Position, range: i32) -> (can: bool)
        ensures
            can == self@.can_aim_at(target, range),
    {
        let p = self.player.id;
        if !self.is_alive(self.player) || range < 0 {
            return false;
        }
        assert(self@.entities[p as int] == self.entities@[p as int]@);
        let at = match self.entities[p].position {
            Some(at) => at,
            None => {
                return false;
            },
        };
        let seen = match &self.entities[p].viewshed {
            Some(viewshed) => crate::monster_ai_system::holds_position(&viewshed.visible_tiles, target),
            None => {
                return false;
            },
        };
        let dx: i128 = target.x as i128 - at.x as i128;
        let dy: i128 = target.y as i128 - at.y as i128;
        let reach: i128 = range as i128;
        assert(0 <= dx * dx <= 0x1_0000_0000_0000_0000 && 0 <= dy * dy <= 0x1_0000_0000_0000_0000 && 0 <= reach
            * reach <= 0x1_0000_0000_0000_0000) by (nonlinear_arith)
            requires
                -0x1_0000_0000 <= dx <= 0x1_0000_0000,
                -0x1_0000_0000 <= dy <= 0x1_0000_0000,
                0 <= reach <= 0x1_0000_0000,
        ;
        seen && dx * dx + dy * dy <= reach * reach
    }

    /// The first of `occupants` that can be fought.
    fn fighter_among(&self, occupants: &Vec<Entity>) -> (found: Option<Entity>)
        ensures
            found == self@.first_fighter(occupants@, 0),
    {
        let mut k: usize = 0;
        while k < occupants.len()
            invariant
                0 <= k <= occupants@.len(),
                self@.first_fighter(occupants@, 0) == self@.first_fighter(occupants@, k as int),
            decreases occupants@.len() - k,
        {
            let e = occupants[k];
            if self.is_alive(e) && e.id != self.player.id {
                assert(self@.entities[e.id as int] == self.entities@[e.id as int]@);
                if self.entities[e.id].combat_stats.is_some() {
                    return Some(e);
                }
            }
            k = k + 1;
        }
        None
    }

    /// The item with the lowest identifier that lies at `pos`.
    fn item_at(&self, pos: Position) -> (found: Option<usize>)
        ensures
            match found {
                Some(i) => self@.first_item_at(pos, 0) == Some(i as int),
                None => self@.first_item_at(pos, 0) is None,
            },
    {
        let mut k: usize = 0;
        while k < self.entities.len()
            invariant
                0 <= k <= self.entities@.len(),
                self@.first_item_at(pos, 0) == self@.first_item_at(pos, k as int),
            decreases self.entities@.len() - k,
        {
            assert(self@.entities[k as int] == self.entities@[k as int]@);
            let here = match self.entities[k].position {
                Some(p) => p.x == pos.x && p.y == pos.y,
                None => false,
            };
            if self.entities[k].alive && self.entities[k].item && here {
                return Some(k);
            }
            k = k + 1;
        }
        None
    }
}

/// Moves the player by `(delta_x, delta_y)`, or has the player strike what
/// stands in the way.
pub fn try_move_player(delta_x: i32, delta_y: i32, ecs: &mut World)
    requires
        old(ecs)@.wf(),
    ensures
        final(ecs)@ == old(ecs)@.player_moved(delta_x, delta_y),
        final(ecs)@.wf(),
        final(ecs)@.has_player() == old(ecs)@.has_player(),
{
    let p = ecs.player.id;
    if !ecs.is_alive(ecs.player) {
        return ;
    }
    assert(ecs@.entities[p as int] == ecs.entities@[p as int]@);
    assert(ecs@.record_wf(ecs@.entities[p as int]));
    let pos = match ecs.entities[p].position {
        Some(pos) => pos,
        None => {
            return ;
        },
    };
    let x: i64 = pos.x as i64 + delta_x as i64;
    let y: i64 = pos.y as i64 + delta_y as i64;
    if x < 1 || x > ecs.map.width as i64 - 2 || y < 1 || y > ecs.map.height as i64 - 2 {
        return ;
    }
    let destination_idx = ecs.map.xy_idx(x as i32, y as i32);
    match ecs.fighter_among(&ecs.map.tile_content[destination_idx]) {
        Some(target) => {
            ecs.set_wants_to_melee(p, Some(WantsToMelee { target }));
        },
        None => {
            if !ecs.map.blocked[destination_idx] {
                ecs.set_position(p, Some(Position { x: x as i32, y: y as i32 }));
                ecs.mark_dirty(p);
                assert(ecs@ =~~= old(ecs)@.player_moved(delta_x, delta_y));
            }
        },
    }
    proof {
        assert forall|i: int| 0 <= i < ecs@.entities.len() implies ecs@.record_wf(#[trigger] ecs@.entities[i]) by {
            assert(old(ecs)@.record_wf(old(ecs)@.entities[i]));
        }
        assert forall|i: int| 0 <= i < ecs@.pending_creates.len() implies ecs@.record_wf(
            #[trigger] ecs@.pending_creates[i],
        ) by {
            assert(old(ecs)@.record_wf(old(ecs)@.pending_creates[i]));
        }
    }
}

/// Has the player reach for the first item on their tile.
pub fn get_item(ecs: &mut World)
    ensures
        final(ecs)@ == old(ecs)@.item_sought(),
        final(ecs)@.same_places(old(ecs)@),
{
    let p = ecs.player.id;
    if !ecs.is_alive(ecs.player) {
        return ;
    }
    assert(ecs@.entities[p as int] == ecs.entities@[p as int]@);
    let pos = match ecs.entities[p].position {
        Some(pos) => pos,
        None => {
            return ;
        },
    };
    match ecs.item_at(pos) {
        Some(i) => {
            ecs.set_wants_to_pickup(p, Some(WantsToPickupItem { collected_by: ecs.player, item: Entity { id: i } }));
        },
        None => {
            ecs.add_log(LogEvent::NothingToPickUp);
        },
    }
}

/// Whether the player stands on the way down. Where they do not, the log
/// says so.
pub fn try_next_level(ecs: &mut World) -> (down: bool)
    requires
        old(ecs)@.wf(),
    ensures
        down == old(ecs)@.on_stairs(),
        down ==> final(ecs)@ == old(ecs)@,
        !down ==> final(ecs)@ == old(ecs)@.logged(LogEvent::NoWayDown),
        final(ecs)@.same_places(old(ecs)@),
{
    let p = ecs.player.id;
    let mut down = false;
    if ecs.is_alive(ecs.player) {
        assert(ecs@.entities[p as int] == ecs.entities@[p as int]@);
        assert(ecs@.record_wf(ecs@.entities[p as int]));
        match ecs.entities[p].position {
            Some(pos) => {
                let idx = ecs.map.xy_idx(pos.x, pos.y);
                down = ecs.map.tiles[idx] == TileType::DownStairs;
            },
            None => {},
        }
    }
    if !down {
        ecs.add_log(LogEvent::NoWayDown);
    } else {
        assert(ecs@.entities =~= old(ecs)@.entities);
    }
    down
}

} // verus!
