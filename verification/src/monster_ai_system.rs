//! The decision that each monster takes once per pass: stay, strike the
//! player, or step toward the player along a path that the caller's path
//! search has found.

use crate::components::{Position, ViewshedView, WantsToMelee};
use crate::map::{lemma_coords_in_range, TileMap};
use crate::world::{RecordView, World, WorldView};
use vstd::prelude::*;

verus! {

/// Lets the monsters act.
pub struct MonsterAI {}

/// What a path search has found: whether the goal can be reached and, where
/// it can, the tiles of the path from the start to the goal, both included.
pub struct NavigationPath {
    pub destination: usize,
    pub success: bool,
    pub steps: Vec<usize>,
}

/// What a monster does in a pass.
#[derive(Clone, Copy, PartialEq, Eq, Structural, Debug)]
pub enum MonsterDecision {
    /// The monster does not see the player and stays.
    Idle,
    /// The player is within reach: the monster strikes.
    Melee,
    /// The monster looks for a path from the tile `from` to the tile `to`.
    Seek { from: usize, to: usize },
}

/// Two tiles are within melee range: at most one step apart, diagonals
/// included, which is a distance of at most 1.5 as the crow flies.
pub open spec fn in_melee_range(a: Position, b: Position) -> bool {
    (a.x - b.x) * (a.x - b.x) + (a.y - b.y) * (a.y - b.y) <= 2
}

/// Whether the two tiles are within melee range.
pub fn within_melee_range(a: Position, b: Position) -> (near: bool)
    ensures
        near == in_melee_range(a, b),
{
    let dx: i64 = a.x as i64 - b.x as i64;
    let dy: i64 = a.y as i64 - b.y as i64;
    assert(dx * dx + dy * dy <= 2 <==> (-1 <= dx <= 1 && -1 <= dy <= 1)) by (nonlinear_arith);
    -1 <= dx && dx <= 1 && -1 <= dy && dy <= 1
}

/// Whether `tiles` holds `p`.
pub fn holds_position(tiles: &Vec<Position>, p: Position) -> (found: bool)
    ensures
        found == tiles@.contains(p),
{
    let mut k: usize = 0;
    while k < tiles.len()
        invariant
            0 <= k <= tiles@.len(),
            forall|j: int| 0 <= j < k ==> tiles@[j] != p,
        decreases tiles@.len() - k,
    {
        if tiles[k].x == p.x && tiles[k].y == p.y {
            return true;
        }
        k = k + 1;
    }
    false
}

impl NavigationPath {
    /// The path leads somewhere: the search succeeded and found a tile
    /// after the start.
    pub open spec fn has_step(&self) -> bool {
        self.success && self.steps@.len() > 1
    }
}

impl WorldView {
    /// The entity `i` is a live monster, other than the player, with a
    /// place and a viewshed.
    pub open spec fn is_monster(self, i: int) -> bool {
        &&& 0 <= i < self.entities.len()
        &&& i != self.player.id
        &&& self.entities[i].alive
        &&& self.entities[i].monster
        &&& self.entities[i].position is Some
        &&& self.entities[i].viewshed is Some
    }

    /// Where the player stands, if the player is alive and on the map.
    pub open spec fn player_position(self) -> Option<Position> {
        if self.valid(self.player) {
            self.entities[self.player.id as int].position
        } else {
            None
        }
    }

    /// What the entity `i` decides: nothing unless it is a monster whose
    /// viewshed holds the player's tile; then to strike where the player is
    /// within melee range, and else to seek a path from its tile to the
    /// player's.
    pub open spec fn decision(self, i: int) -> MonsterDecision {
        if self.is_monster(i) && self.player_position() is Some && self.entities[i].viewshed->0.sees(
            self.player_position()->0,
        ) {
            let at = self.entities[i].position->0;
            let goal = self.player_position()->0;
            if in_melee_range(at, goal) {
                MonsterDecision::Melee
            } else {
                MonsterDecision::Seek {
                    from: self.map.index_of(at.x as int, at.y as int) as usize,
                    to: self.map.index_of(goal.x as int, goal.y as int) as usize,
                }
            }
        } else {
            MonsterDecision::Idle
        }
    }

    /// The monster `i` can take the first step of `path`: there is one, it
    /// lies on the map, and it is not blocked.
    pub open spec fn can_follow(self, path: &NavigationPath) -> bool {
        &&& path.has_step()
        &&& path.steps@[1] < self.map.count()
        &&& !self.map.blocked@[path.steps@[1] as int]
    }

    /// The place of the tile with index `idx`.
    pub open spec fn place_of(self, idx: int) -> Position {
        Position { x: (idx % (self.map.width as int)) as i32, y: (idx / (self.map.width as int)) as i32 }
    }

    /// `self` is `before` after the monster `i` has stepped to the tile
    /// `to`: the monster stands there with a dirty viewshed, its old tile is
    /// no longer blocked and its new one is; nothing else has changed.
    pub open spec fn stepped(self, before: WorldView, i: int, to: int) -> bool {
        let r = before.entities[i];
        let from = before.map.index_of(r.position->0.x as int, r.position->0.y as int);
        &&& self.entities == before.entities.update(
            i,
            RecordView {
                position: Some(before.place_of(to)),
                viewshed: Some(ViewshedView { dirty: true, ..r.viewshed->0 }),
                ..r
            },
        )
        &&& self.map == (TileMap { blocked: self.map.blocked, ..before.map })
        &&& self.map.blocked@ == before.map.blocked@.update(from, false).update(to, true)
        &&& self.pending_deletes == before.pending_deletes
        &&& self.pending_creates == before.pending_creates
        &&& self.player == before.player
        &&& self.runstate == before.runstate
        &&& self.log == before.log
    }

    /// The world with the melee intent of the monster `i` set on the player.
    pub open spec fn striking(self, i: int) -> WorldView {
        self.with_record(
            i,
            RecordView { wants_to_melee: Some(WantsToMelee { target: self.player }), ..self.entities[i] },
        )
    }

    /// `self` is `before` after the entity `i` has acted, with `find_path`
    /// as the path search. An entity that decides nothing leaves the world as
    /// it is; one that strikes has its melee intent set on the player; one
    /// that seeks a path takes the first step of a path that `find_path`
    /// gives for its tile, the player's tile and the map as it is at that
    /// moment, if the path has a step that can be followed, and else leaves
    /// the world as it is.
    pub open spec fn monster_acted<F: Fn(&TileMap, usize, usize) -> NavigationPath>(
        self,
        before: WorldView,
        i: int,
        find_path: &F,
    ) -> bool {
        match before.decision(i) {
            MonsterDecision::Idle => self == before,
            MonsterDecision::Melee => self == before.striking(i),
            MonsterDecision::Seek { from, to } => exists|path: NavigationPath|
                #![trigger call_ensures(find_path, (&before.map, from, to), path)]
                call_ensures(find_path, (&before.map, from, to), path) && if before.can_follow(&path) {
                    self.stepped(before, i, path.steps@[1] as int)
                } else {
                    self == before
                },
        }
    }

    /// `trail` holds the world after each entity has acted in its turn:
    /// it starts with `before`, and each world in it is left by the next
    /// entity acting on the world before.
    pub open spec fn is_trail_of_acts<F: Fn(&TileMap, usize, usize) -> NavigationPath>(
        trail: Seq<WorldView>,
        before: WorldView,
        find_path: &F,
    ) -> bool {
        &&& trail.len() >= 1
        &&& trail[0] == before
        &&& forall|k: int| 0 <= k < trail.len() - 1 ==> (#[trigger] trail[k + 1]).monster_acted(trail[k], k, find_path)
    }

    /// `self` is what a pass of the monsters over `before` leaves, with
    /// `find_path` as the path search: every entity has acted once, one
    /// after the other by ascending identifier, each on the world that the
    /// ones before it have left.
    pub open spec fn monsters_moved<F: Fn(&TileMap, usize, usize) -> NavigationPath>(
        self,
        before: WorldView,
        find_path: &F,
    ) -> bool {
        exists|trail: Seq<WorldView>|
            #![trigger WorldView::is_trail_of_acts(trail, before, find_path)]
            WorldView::is_trail_of_acts(trail, before, find_path) && trail.len() == before.entities.len() + 1
                && trail.last() == self
    }

    /// What a pass of the monsters over `before` leaves in any case,
    /// whatever paths were found: only monsters have changed, each as
    /// `acted` says, and of the map only the blocking flags.
    pub open spec fn monsters_acted(self, before: WorldView) -> bool {
        &&& self.entities.len() == before.entities.len()
        &&& self.pending_deletes == before.pending_deletes
        &&& self.pending_creates == before.pending_creates
        &&& self.player == before.player
        &&& self.runstate == before.runstate
        &&& self.log == before.log
        &&& self.map == (TileMap { blocked: self.map.blocked, ..before.map })
        &&& forall|i: int| 0 <= i < self.entities.len() ==> #[trigger] self.acted(before, i)
    }

    /// What a pass of the monsters over `before` may leave of the entity
    /// `i`, whatever paths were found: an entity that decides nothing is
    /// unchanged; one that strikes has its intent set on the player; one that
    /// seeks a path has stayed as it was, or stands on another tile of the
    /// map with a dirty viewshed.
    pub open spec fn acted(self, before: WorldView, i: int) -> bool {
        let r = before.entities[i];
        match before.decision(i) {
            MonsterDecision::Idle => self.entities[i] == r,
            MonsterDecision::Melee => self.entities[i] == before.striking(i).entities[i],
            MonsterDecision::Seek { .. } => {
                ||| self.entities[i] == r
                ||| exists|to: int|
                    0 <= to < before.map.count() && self.entities[i] == (RecordView {
                        position: Some(before.place_of(to)),
                        viewshed: Some(ViewshedView { dirty: true, ..r.viewshed->0 }),
                        ..r
                    })
            },
        }
    }
}

impl World {
    /// What the entity `i` decides.
    pub fn monster_decision(&self, i: usize) -> (decision: MonsterDecision)
        requires
            self@.wf(),
            i < self@.entities.len(),
        ensures
            decision == self@.decision(i as int),
            decision matches MonsterDecision::Seek { from, to } ==> from < self.map.count() && to < self.map.count(),
    {
        assert(self@.entities[i as int] == self.entities@[i as int]@);
        assert(self@.record_wf(self@.entities[i as int]));
        if i == self.player.id || !self.entities[i].alive || !self.entities[i].monster {
            return MonsterDecision::Idle;
        }
        let at = match self.entities[i].position {
            Some(at) => at,
            None => {
                return MonsterDecision::Idle;
            },
        };
        if !self.is_alive(self.player) {
            return MonsterDecision::Idle;
        }
        assert(self@.entities[self.player.id as int] == self.entities@[self.player.id as int]@);
        assert(self@.record_wf(self@.entities[self.player.id as int]));
        let goal = match self.entities[self.player.id].position {
            Some(goal) => goal,
            None => {
                return MonsterDecision::Idle;
            },
        };
        let sees = match &self.entities[i].viewshed {
            Some(viewshed) => holds_position(&viewshed.visible_tiles, goal),
            None => {
                return MonsterDecision::Idle;
            },
        };
        if !sees {
            return MonsterDecision::Idle;
        }
        if within_melee_range(at, goal) {
            MonsterDecision::Melee
        } else {
            MonsterDecision::Seek { from: self.map.xy_idx(at.x, at.y), to: self.map.xy_idx(goal.x, goal.y) }
        }
    }

    /// Sets the melee intent of the entity `i` on the player.
    pub fn monster_attack(&mut self, i: usize)
        requires
            i < old(self)@.entities.len(),
        ensures
            final(self)@ == old(self)@.striking(i as int),
            final(self)@.same_places(old(self)@),
            final(self).entities@.len() == old(self).entities@.len(),
    {
        self.set_wants_to_melee(i, Some(WantsToMelee { target: self.player }));
    }

    /// Moves the monster `i` one step along `path`, where the path has a
    /// step that lies on the map and is not blocked; else nothing changes.
    pub fn monster_follow(&mut self, i: usize, path: &NavigationPath) -> (moved: bool)
        requires
            old(self)@.wf(),
            old(self)@.is_monster(i as int),
        ensures
            moved == old(self)@.can_follow(path),
            moved ==> final(self)@.stepped(old(self)@, i as int, path.steps@[1] as int),
            !moved ==> final(self)@ == old(self)@,
            final(self)@.wf(),
            final(self).entities@.len() == old(self).entities@.len(),
    {
        if !(path.success && path.steps.len() > 1) {
            return false;
        }
        let to = path.steps[1];
        if to >= self.map.blocked.len() || self.map.blocked[to] {
            return false;
        }
        assert(self@.entities[i as int] == self.entities@[i as int]@);
        assert(self@.record_wf(self@.entities[i as int]));
        let at = match self.entities[i].position {
            Some(at) => at,
            None => {
                return false;
            },
        };
        let from = self.map.xy_idx(at.x, at.y);
        proof {
            lemma_coords_in_range(self.map.width as int, self.map.height as int, to as int);
        }
        let width = self.map.width as usize;
        let place = Position { x: (to % width) as i32, y: (to / width) as i32 };
        self.map.blocked[from] = false;
        self.map.blocked[to] = true;
        self.entities[i].position = Some(place);
        match &mut self.entities[i].viewshed {
            Some(viewshed) => {
                viewshed.dirty = true;
            },
            None => {},
        }
        proof {
            let r = old(self)@.entities[i as int];
            let expected = old(self)@.entities.update(
                i as int,
                RecordView { position: Some(place), viewshed: Some(ViewshedView { dirty: true, ..r.viewshed->0 }), ..r },
            );
            assert forall|m: int| 0 <= m < self@.entities.len() implies self@.entities[m] =~~= expected[m] by {
                if m != i {
                    assert(self.entities@[m] == old(self).entities@[m]);
                }
            }
            assert(self@.entities =~= expected);
            assert forall|m: int| 0 <= m < self@.entities.len() implies self@.record_wf(
                #[trigger] self@.entities[m],
            ) by {
                assert(old(self)@.record_wf(old(self)@.entities[m]));
            }
            assert forall|m: int| 0 <= m < self@.pending_creates.len() implies self@.record_wf(
                #[trigger] self@.pending_creates[m],
            ) by {
                assert(old(self)@.record_wf(old(self)@.pending_creates[m]));
            }
        }
        true
    }
}

impl MonsterAI {
    /// Lets every monster act once, by ascending identifier. A monster that
    /// seeks a path hands its tile and the player's to `find_path` and takes
    /// the first step of what comes back, if that tile is free; a monster
    /// that moves first takes the tile.
    pub fn run_now<F: Fn(&TileMap, usize, usize) -> NavigationPath>(&mut self, ecs: &mut World, find_path: &F)
        requires
            old(ecs)@.wf(),
            forall|m: &TileMap, from: usize, to: usize|
                m.wf() && from < m.count() && to < m.count() ==> call_requires(find_path, (m, from, to)),
        ensures
            final(ecs)@.wf(),
            final(ecs)@.monsters_moved(old(ecs)@, find_path),
            final(ecs)@.monsters_acted(old(ecs)@),
    {
        let ghost before = ecs@;
        let ghost mut trail = seq![before];
        let n = ecs.entities.len();
        let mut k: usize = 0;
        while k < n
            invariant
                0 <= k <= n,
                n == before.entities.len(),
                n == ecs.entities@.len(),
                before == old(ecs)@,
                before.wf(),
                ecs@.wf(),
                forall|m: &TileMap, from: usize, to: usize|
                    m.wf() && from < m.count() && to < m.count() ==> call_requires(find_path, (m, from, to)),
                ecs@.pending_deletes == before.pending_deletes,
                ecs@.pending_creates == before.pending_creates,
                ecs@.player == before.player,
                ecs@.runstate == before.runstate,
                ecs@.log == before.log,
                ecs.map == (TileMap { blocked: ecs.map.blocked, ..before.map }),
                WorldView::is_trail_of_acts(trail, before, find_path),
                trail.len() == k + 1,
                trail.last() == ecs@,
                forall|i: int| 0 <= i < k ==> #[trigger] ecs@.acted(before, i),
                forall|i: int| k <= i < n ==> #[trigger] ecs@.entities[i] == before.entities[i],
                ecs@.player_position() == before.player_position(),
            decreases n - k,
        {
            let ghost prev = ecs@;
            let decision = ecs.monster_decision(k);
            proof {
                assert(prev.entities[k as int] == before.entities[k as int]);
                assert(prev.decision(k as int) == before.decision(k as int));
            }
            match decision {
                MonsterDecision::Idle => {
                    assert(ecs@.monster_acted(prev, k as int, find_path));
                },
                MonsterDecision::Melee => {
                    ecs.monster_attack(k);
                    proof {
                        crate::melee_combat_system::lemma_same_places_wf(prev, ecs@);
                        assert(ecs@.monster_acted(prev, k as int, find_path));
                    }
                },
                MonsterDecision::Seek { from, to } => {
                    let path = find_path(&ecs.map, from, to);
                    assert(call_ensures(find_path, (&prev.map, from, to), path));
                    let moved = ecs.monster_follow(k, &path);
                    proof {
                        if moved {
                            let dest = path.steps@[1] as int;
                            assert(0 <= dest < before.map.count());
                            assert(prev.place_of(dest) == before.place_of(dest));
                        }
                        assert(ecs@.monster_acted(prev, k as int, find_path));
                    }
                },
            }
            proof {
                let longer = trail.push(ecs@);
                assert forall|j: int| 0 <= j < longer.len() - 1 implies (#[trigger] longer[j + 1]).monster_acted(
                    longer[j],
                    j,
                    find_path,
                ) by {
                    if j < k {
                        assert(longer[j + 1] == trail[j + 1]);
                        assert(longer[j] == trail[j]);
                    } else {
                        assert(longer[j] == prev);
                        assert(longer[j + 1] == ecs@);
                    }
                }
                trail = longer;
                assert(ecs@.acted(before, k as int));
                assert forall|i: int| 0 <= i < k implies #[trigger] ecs@.acted(before, i) by {
                    assert(prev.acted(before, i));
                    assert(ecs@.entities[i] == prev.entities[i]);
                }
                assert forall|i: int| k + 1 <= i < n implies #[trigger] ecs@.entities[i] == before.entities[i] by {
                    assert(prev.entities[i] == before.entities[i]);
                }
                assert(ecs@.entities[before.player.id as int] == prev.entities[before.player.id as int] || k
                    == before.player.id || !(before.player.id < n));
            }
            k = k + 1;
        }
    }
}

} // verus!
