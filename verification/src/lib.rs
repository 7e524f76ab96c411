//! Simulation core of a turn-based dungeon crawler: the tile map and its
//! generator, the entity store, and the systems that advance the world by
//! one player action at a time.

use vstd::prelude::*;

pub mod components;
pub mod connectivity;
pub mod damage_system;
pub mod gamelog;
pub mod intents;
pub mod inventory_system;
pub mod item_places;
pub mod level_transition;
pub mod map;
pub mod map_indexing_system;
pub mod melee_combat_system;
pub mod monster_ai_system;
pub mod pass_laws;
pub mod player;
pub mod random_table;
pub mod rect;
pub mod render_order;
pub mod rng;
pub mod spawner;
pub mod visibility_system;
pub mod world;

pub use rect::Rect;

use components::{Entity, Position, WantsToDropItem, WantsToRemoveItem, WantsToUseItem};
use damage_system::{delete_the_dead, DamageSystem};
use inventory_system::{ItemCollectionSystem, ItemDropSystem, ItemRemoveSystem, ItemUseSystem};
use map::TileMap;
use map_indexing_system::MapIndexingSystem;
use melee_combat_system::MeleeCombatSystem;
use monster_ai_system::{MonsterAI, NavigationPath};
use spawner::MAX_DEPTH;
use visibility_system::VisibilitySystem;
use world::{RecordView, World, WorldView};

verus! {

/// Which entry of the main menu is selected.
#[derive(Debug, PartialEq, Eq, Structural, Copy, Clone)]
pub enum MainMenuSelection {
    NewGame,
    LoadGame,
    Quit,
}

/// The state of the turn scheduler.
#[derive(Debug, PartialEq, Eq, Structural, Copy, Clone)]
pub enum RunState {
    AwaitingInput,
    PreRun,
    PlayerTurn,
    MonsterTurn,
    ShowInventory,
    ShowDropItem,
    ShowTargeting { range: i32, item: Entity },
    ShowRemoveItem,
    MainMenu { menu_selection: MainMenuSelection },
    SaveGame,
    NextLevel,
}

/// What the user has asked for since the last tick, decoded by whoever
/// reads the keyboard and shows the menus.
#[derive(Debug, PartialEq, Eq, Structural, Copy, Clone)]
pub enum InputEvent {
    /// Nothing yet.
    NoResponse,
    /// The open menu or the targeting was dismissed.
    Cancel,
    /// Step, or strike, in the direction `(dx, dy)`.
    Move { dx: i32, dy: i32 },
    /// Pick up what lies here.
    PickUp,
    OpenInventory,
    OpenDropMenu,
    OpenRemoveMenu,
    Save,
    /// Take the stairs.
    Descend,
    /// `item` was chosen in the open menu.
    ItemSelected { item: Entity },
    /// The tile `target` was chosen for the item in hand.
    TargetSelected { target: Position },
}

/// What a tick tells its caller besides the new state of the world.
#[derive(Debug, PartialEq, Eq, Structural, Copy, Clone)]
pub struct TickOutcome {
    /// The player's health is spent: the run is over.
    pub player_dead: bool,
    /// The game is to be saved now.
    pub save_requested: bool,
}

/// The game: the world and, in it, the state of the scheduler.
pub struct State {
    pub ecs: World,
}

impl WorldView {
    /// The world with the scheduler in the state `runstate`.
    pub open spec fn with_runstate(self, runstate: RunState) -> WorldView {
        WorldView { runstate, ..self }
    }

    /// The second half of a pass: melee, damage, picking up, using,
    /// dropping and taking off, in this order, and then the commit.
    pub open spec fn resolved(self) -> WorldView {
        self.melee_resolved().damage_applied().pickups_resolved().uses_resolved().drops_resolved().removals_resolved().commit()
    }

    /// `self` is what one pass of the systems over `before` leaves, with
    /// `find_path` as the path search: sight is refreshed, then the monsters
    /// act, then the spatial index is rebuilt, and then the intents are
    /// resolved and the commit is made.
    pub open spec fn passed<F: Fn(&TileMap, usize, usize) -> NavigationPath>(
        self,
        before: WorldView,
        find_path: &F,
    ) -> bool {
        exists|seen: WorldView, moved: WorldView, mapped: WorldView|
            {
                &&& #[trigger] seen.sight_refreshed(before)
                &&& #[trigger] moved.monsters_moved(seen, find_path)
                &&& #[trigger] mapped.reindexed(moved)
                &&& self == mapped.resolved()
            }
    }

    /// The world with the player's intent to use `item`, aimed at `target`.
    pub open spec fn intending_use(self, item: Entity, target: Option<Position>) -> WorldView {
        self.with_record(
            self.player.id as int,
            RecordView { wants_to_use: Some(WantsToUseItem { item, target }), ..self.entities[self.player.id as int] },
        )
    }

    /// The world with the player's intent to drop `item`.
    pub open spec fn intending_drop(self, item: Entity) -> WorldView {
        self.with_record(
            self.player.id as int,
            RecordView { wants_to_drop: Some(WantsToDropItem { item }), ..self.entities[self.player.id as int] },
        )
    }

    /// The world with the player's intent to take `item` off.
    pub open spec fn intending_remove(self, item: Entity) -> WorldView {
        self.with_record(
            self.player.id as int,
            RecordView { wants_to_remove: Some(WantsToRemoveItem { item }), ..self.entities[self.player.id as int] },
        )
    }

    /// The world after `input` has been taken in a state that waits for
    /// the user. An input that the state has no use for changes nothing.
    pub open spec fn input_taken(self, input: InputEvent) -> WorldView {
        match self.runstate {
            RunState::AwaitingInput => match input {
                InputEvent::Move { dx, dy } => self.player_moved(dx, dy).with_runstate(RunState::PlayerTurn),
                InputEvent::PickUp => self.item_sought().with_runstate(RunState::PlayerTurn),
                InputEvent::OpenInventory => self.with_runstate(RunState::ShowInventory),
                InputEvent::OpenDropMenu => self.with_runstate(RunState::ShowDropItem),
                InputEvent::OpenRemoveMenu => self.with_runstate(RunState::ShowRemoveItem),
                InputEvent::Save => self.with_runstate(RunState::SaveGame),
                InputEvent::Descend => if self.on_stairs() {
                    self.with_runstate(RunState::NextLevel)
                } else {
                    self.logged(gamelog::LogEvent::NoWayDown)
                },
                _ => self,
            },
            RunState::ShowInventory => match input {
                InputEvent::Cancel => self.with_runstate(RunState::AwaitingInput),
                InputEvent::ItemSelected { item } => if self.valid(item) && self.entities[item.id as int].ranged
                    is Some {
                    self.with_runstate(
                        RunState::ShowTargeting { range: self.entities[item.id as int].ranged->0.range, item },
                    )
                } else {
                    self.intending_use(item, None).with_runstate(RunState::PlayerTurn)
                },
                _ => self,
            },
            RunState::ShowDropItem => match input {
                InputEvent::Cancel => self.with_runstate(RunState::AwaitingInput),
                InputEvent::ItemSelected { item } => self.intending_drop(item).with_runstate(RunState::PlayerTurn),
                _ => self,
            },
            RunState::ShowRemoveItem => match input {
                InputEvent::Cancel => self.with_runstate(RunState::AwaitingInput),
                InputEvent::ItemSelected { item } => self.intending_remove(item).with_runstate(RunState::PlayerTurn),
                _ => self,
            },
            RunState::ShowTargeting { range, item } => match input {
                InputEvent::Cancel => self.with_runstate(RunState::AwaitingInput),
                InputEvent::TargetSelected { target } => self.intending_use(item, Some(target)).with_runstate(
                    RunState::PlayerTurn,
                ),
                _ => self,
            },
            RunState::SaveGame => self.with_runstate(
                RunState::MainMenu { menu_selection: MainMenuSelection::LoadGame },
            ),
            _ => self,
        }
    }

    /// The state runs the systems.
    pub open spec fn runs_systems(self) -> bool {
        self.runstate == RunState::PreRun || self.runstate == RunState::PlayerTurn || self.runstate
            == RunState::MonsterTurn
    }

    /// The state of the scheduler after a tick with `input`.
    pub open spec fn next_runstate(self, input: InputEvent) -> RunState {
        match self.runstate {
            RunState::PreRun => RunState::AwaitingInput,
            RunState::PlayerTurn => RunState::MonsterTurn,
            RunState::MonsterTurn => RunState::AwaitingInput,
            RunState::NextLevel => RunState::PreRun,
            _ => self.input_taken(input).runstate,
        }
    }

    /// `self` is what the scheduler's step from `before` may leave, before
    /// the death sweep. A state that runs the systems makes one pass and
    /// moves on: from `PreRun` and from `MonsterTurn` to `AwaitingInput`,
    /// from `PlayerTurn` to `MonsterTurn`. `NextLevel` descends and moves on
    /// to `PreRun`. Every other state takes the input.
    pub open spec fn stepped_from<F: Fn(&TileMap, usize, usize) -> NavigationPath>(
        self,
        before: WorldView,
        input: InputEvent,
        find_path: &F,
    ) -> bool {
        match before.runstate {
            RunState::PreRun => self.runstate == RunState::AwaitingInput && self.with_runstate(
                before.runstate,
            ).passed(before, find_path),
            RunState::PlayerTurn => self.runstate == RunState::MonsterTurn && self.with_runstate(
                before.runstate,
            ).passed(before, find_path),
            RunState::MonsterTurn => self.runstate == RunState::AwaitingInput && self.with_runstate(
                before.runstate,
            ).passed(before, find_path),
            RunState::NextLevel => self.runstate == RunState::PreRun && self.with_runstate(
                before.runstate,
            ).descended_from(before),
            _ => self == before.input_taken(input),
        }
    }

    /// `self` is what a tick from `before` may leave: the scheduler's step,
    /// then the death sweep, then the commit of the deaths.
    pub open spec fn ticked<F: Fn(&TileMap, usize, usize) -> NavigationPath>(
        self,
        before: WorldView,
        input: InputEvent,
        find_path: &F,
    ) -> bool {
        exists|stepped: WorldView|
            #[trigger] stepped.stepped_from(before, input, find_path) && self == stepped.swept().commit()
    }

    /// Every tile that is revealed in `before` is revealed in `self`.
    pub open spec fn keeps_revealed(self, before: WorldView) -> bool {
        &&& self.map.revealed_tiles@.len() == before.map.revealed_tiles@.len()
        &&& forall|t: int|
            0 <= t < before.map.revealed_tiles@.len() && before.map.revealed_tiles@[t] ==> self.map.revealed_tiles@[t]
    }
}

impl World {
    /// Sets the state of the turn scheduler.
    pub fn set_runstate(&mut self, runstate: RunState)
        ensures
            final(self)@ == old(self)@.with_runstate(runstate),
            final(self).entities@.len() == old(self).entities@.len(),
            final(self).records_viewed(),
    {
        self.runstate = runstate;
        assert(self@.entities =~= old(self)@.entities);
    }
}

impl State {
    /// A new game on a freshly generated first level: the player stands on
    /// the centre of the first room, the other rooms are filled, and the
    /// scheduler is about to make its first pass.
    pub fn new(rng: rltk::RandomNumberGenerator) -> (gs: State)
        ensures
            gs.ecs@.wf(),
            gs.ecs@.has_player(),
            gs.ecs@.runstate == RunState::PreRun,
            gs.ecs@.player == (Entity { id: 0 }),
            gs.ecs@.map.is_generated(1),
            gs.ecs@.entities[0] == spawner::player_record(
                gs.ecs@.map.rooms@[0].center_spec().0 as i32,
                gs.ecs@.map.rooms@[0].center_spec().1 as i32,
            ),
            forall|j: int| 1 <= j < gs.ecs@.entities.len() ==> #[trigger] gs.ecs@.is_newcomer(j),
            gs.ecs@.log == seq![gamelog::LogEvent::Welcome],
            gs.ecs@.pending_deletes.len() == 0,
            gs.ecs@.pending_creates.len() == 0,
    {
        let mut rng = rng;
        let map = TileMap::generate(1, &mut rng);
        assert(map.room_fits(map.rooms@[0]));
        let (player_x, player_y) = map.rooms[0].center();
        let mut ecs = World::new(map, rng);
        let player_entity = spawner::player(&mut ecs, player_x, player_y);
        ecs.player = player_entity;
        let ghost placed = ecs@;
        assert(ecs@.entities =~= placed.entities);
        let rooms_count = ecs.map.rooms.len();
        let mut k: usize = 1;
        while k < rooms_count
            invariant
                1 <= k <= rooms_count,
                rooms_count == ecs.map.rooms@.len(),
                ecs@.wf(),
                ecs.map.is_generated(1),
                ecs@ == (WorldView { entities: ecs@.entities, ..placed }),
                ecs@.entities.len() >= 1,
                placed.entities.len() == 1,
                ecs@.entities[0] == placed.entities[0],
                forall|j: int| 1 <= j < ecs@.entities.len() ==> #[trigger] ecs@.is_newcomer(j),
            decreases rooms_count - k,
        {
            let room = ecs.map.rooms[k];
            let ghost prev = ecs@;
            assert(ecs.map.room_fits(ecs.map.rooms@[k as int]));
            spawner::spawn_room(&mut ecs, &room, 1);
            proof {
                let (points, roll) = choose|points: Seq<spawner::SpawnPoint>, roll: int|
                    {
                        &&& #[trigger] prev.spawn_points_fit(points, room)
                        &&& WorldView::spawn_points_drawn(points, 1)
                        &&& #[trigger] WorldView::spawn_count_fits(points.len() as int, roll, 1)
                        &&& ecs@ == prev.populated(points)
                    };
                level_transition::lemma_populated(prev, points, room, points.len() as int);
                assert(ecs@.entities[0] == prev.entities[0]);
                assert forall|j: int| 1 <= j < ecs@.entities.len() implies #[trigger] ecs@.is_newcomer(j) by {
                    if j < prev.entities.len() {
                        assert(prev.is_newcomer(j));
                        assert(ecs@.entities[j] == prev.entities[j]);
                        let r = choose|r: int|
                            1 <= r < prev.map.rooms@.len() && prev.entities[j].is_newcomer_in(
                                #[trigger] prev.map.rooms@[r],
                            );
                        assert(ecs@.entities[j].is_newcomer_in(ecs@.map.rooms@[r]));
                    } else {
                        assert(ecs@.entities[j].is_newcomer_in(ecs@.map.rooms@[k as int]));
                    }
                }
            }
            k = k + 1;
        }
        State { ecs }
    }

    /// One pass of the systems, in their fixed order: visibility, the
    /// monsters, the spatial index, melee, damage, picking up, using,
    /// dropping, taking off; then the commit of the deletions that the pass
    /// has asked for. `find_path` is the path search that the monsters go by.
    pub fn run_systems<F: Fn(&TileMap, usize, usize) -> NavigationPath>(&mut self, find_path: &F)
        requires
            old(self).ecs@.wf(),
            forall|m: &TileMap, from: usize, to: usize|
                m.wf() && from < m.count() && to < m.count() ==> call_requires(find_path, (m, from, to)),
        ensures
            final(self).ecs@.passed(old(self).ecs@, find_path),
            final(self).ecs@.wf(),
            old(self).ecs@.has_player() ==> final(self).ecs@.has_player(),
            final(self).ecs@.runstate == old(self).ecs@.runstate,
            final(self).ecs@.player == old(self).ecs@.player,
            final(self).ecs@.keeps_revealed(old(self).ecs@),
            final(self).ecs@.entities.len() == old(self).ecs@.entities.len() + old(self).ecs@.pending_creates.len(),
    {
        let ghost before = self.ecs@;
        let mut vis = VisibilitySystem {  };
        vis.run_now(&mut self.ecs);
        let ghost seen = self.ecs@;
        let mut mob = MonsterAI {  };
        mob.run_now(&mut self.ecs, find_path);
        let ghost moved = self.ecs@;
        let mut mapindex = MapIndexingSystem {  };
        mapindex.run_now(&mut self.ecs);
        let ghost mapped = self.ecs@;
        let mut melee = MeleeCombatSystem {  };
        melee.run_now(&mut self.ecs);
        proof {
            melee_combat_system::lemma_same_places_wf(mapped, self.ecs@);
        }
        let ghost fought = self.ecs@;
        let mut damage = DamageSystem {  };
        damage.run_now(&mut self.ecs);
        proof {
            melee_combat_system::lemma_same_places_wf(fought, self.ecs@);
        }
        let mut item_collection = ItemCollectionSystem {  };
        item_collection.run_now(&mut self.ecs);
        let mut items = ItemUseSystem {  };
        items.run_now(&mut self.ecs);
        let mut drop_items = ItemDropSystem {  };
        drop_items.run_now(&mut self.ecs);
        let ghost dropped = self.ecs@;
        let mut remove_items = ItemRemoveSystem {  };
        remove_items.run_now(&mut self.ecs);
        proof {
            melee_combat_system::lemma_same_places_wf(dropped, self.ecs@);
        }
        self.ecs.maintain();
        proof {
            assert(seen.sight_refreshed(before));
            assert(moved.monsters_moved(seen, find_path));
            assert(mapped.reindexed(moved));
            assert(self.ecs@ == mapped.resolved());
            assert(self.ecs@.map == mapped.map);
            assert(seen.has_player() == before.has_player()) by {
                if before.player.id < before.entities.len() {
                    assert(seen.refreshed(before, before.player.id as int));
                }
            }
            assert(moved.has_player() == seen.has_player()) by {
                if seen.player.id < seen.entities.len() {
                    assert(moved.acted(seen, seen.player.id as int));
                }
            }
        }
    }

    /// One tick of the scheduler. A state that runs the systems makes one
    /// pass and moves on; `NextLevel` takes the player down; every other
    /// state takes `input`, which a state that has no use for it ignores.
    /// Then the death sweep runs and what it asks for is committed. The caller
    /// learns whether the player has died and whether the game is to be
    /// saved now. But for a descent, no tick takes back a revealed tile. A
    /// descent needs a level to go down to that is no deeper than `MAX_DEPTH`.
    #[verifier::rlimit(40)]
    pub fn tick<F: Fn(&TileMap, usize, usize) -> NavigationPath>(&mut self, input: InputEvent, find_path: &F) -> (outcome:
        TickOutcome)
        requires
            old(self).ecs@.wf(),
            old(self).ecs@.has_player(),
            old(self).ecs@.runstate == RunState::NextLevel ==> old(self).ecs.map.depth < MAX_DEPTH,
            forall|m: &TileMap, from: usize, to: usize|
                m.wf() && from < m.count() && to < m.count() ==> call_requires(find_path, (m, from, to)),
        ensures
            final(self).ecs@.ticked(old(self).ecs@, input, find_path),
            final(self).ecs@.runstate == old(self).ecs@.next_runstate(input),
            !old(self).ecs@.runs_systems() && old(self).ecs@.runstate != RunState::NextLevel ==> final(self).ecs@ == old(
                self,
            ).ecs@.input_taken(input).swept().commit(),
            final(self).ecs@.wf(),
            final(self).ecs@.has_player(),
            final(self).ecs@.player == old(self).ecs@.player,
            outcome.player_dead == final(self).ecs@.player_is_dead(),
            outcome.save_requested == (old(self).ecs@.runstate == RunState::SaveGame),
            old(self).ecs@.runstate != RunState::NextLevel ==> final(self).ecs@.keeps_revealed(old(self).ecs@),
    {
        let ghost before = self.ecs@;
        let runstate = self.ecs.runstate;
        let p = self.ecs.player.id;
        let mut save_requested = false;
        match runstate {
            RunState::PreRun => {
                self.run_systems(find_path);
                self.ecs.set_runstate(RunState::AwaitingInput);
            },
            RunState::PlayerTurn => {
                self.run_systems(find_path);
                self.ecs.set_runstate(RunState::MonsterTurn);
            },
            RunState::MonsterTurn => {
                self.run_systems(find_path);
                self.ecs.set_runstate(RunState::AwaitingInput);
            },
            RunState::NextLevel => {
                self.ecs.goto_next_level();
                self.ecs.set_runstate(RunState::PreRun);
            },
            RunState::AwaitingInput => match input {
                InputEvent::Move { dx, dy } => {
                    player::try_move_player(dx, dy, &mut self.ecs);
                    self.ecs.set_runstate(RunState::PlayerTurn);
                },
                InputEvent::PickUp => {
                    player::get_item(&mut self.ecs);
                    self.ecs.set_runstate(RunState::PlayerTurn);
                },
                InputEvent::OpenInventory => {
                    self.ecs.set_runstate(RunState::ShowInventory);
                },
                InputEvent::OpenDropMenu => {
                    self.ecs.set_runstate(RunState::ShowDropItem);
                },
                InputEvent::OpenRemoveMenu => {
                    self.ecs.set_runstate(RunState::ShowRemoveItem);
                },
                InputEvent::Save => {
                    self.ecs.set_runstate(RunState::SaveGame);
                },
                InputEvent::Descend => {
                    if player::try_next_level(&mut self.ecs) {
                        self.ecs.set_runstate(RunState::NextLevel);
                    }
                },
                _ => {},
            },
            RunState::ShowInventory => match input {
                InputEvent::Cancel => {
                    self.ecs.set_runstate(RunState::AwaitingInput);
                },
                InputEvent::ItemSelected { item } => {
                    let ranged = if self.ecs.is_alive(item) {
                        assert(self.ecs@.entities[item.id as int] == self.ecs.entities@[item.id as int]@);
                        self.ecs.entities[item.id].ranged
                    } else {
                        None
                    };
                    match ranged {
                        Some(r) => {
                            self.ecs.set_runstate(RunState::ShowTargeting { range: r.range, item });
                        },
                        None => {
                            self.ecs.set_wants_to_use(p, Some(WantsToUseItem { item, target: None }));
                            self.ecs.set_runstate(RunState::PlayerTurn);
                        },
                    }
                },
                _ => {},
            },
            RunState::ShowDropItem => match input {
                InputEvent::Cancel => {
                    self.ecs.set_runstate(RunState::AwaitingInput);
                },
                InputEvent::ItemSelected { item } => {
                    self.ecs.set_wants_to_drop(p, Some(WantsToDropItem { item }));
                    self.ecs.set_runstate(RunState::PlayerTurn);
                },
                _ => {},
            },
            RunState::ShowRemoveItem => match input {
                InputEvent::Cancel => {
                    self.ecs.set_runstate(RunState::AwaitingInput);
                },
                InputEvent::ItemSelected { item } => {
                    self.ecs.set_wants_to_remove(p, Some(WantsToRemoveItem { item }));
                    self.ecs.set_runstate(RunState::PlayerTurn);
                },
                _ => {},
            },
            RunState::ShowTargeting { range, item } => match input {
                InputEvent::Cancel => {
                    self.ecs.set_runstate(RunState::AwaitingInput);
                },
                InputEvent::TargetSelected { target } => {
                    self.ecs.set_wants_to_use(p, Some(WantsToUseItem { item, target: Some(target) }));
                    self.ecs.set_runstate(RunState::PlayerTurn);
                },
                _ => {},
            },
            RunState::SaveGame => {
                save_requested = true;
                self.ecs.set_runstate(RunState::MainMenu { menu_selection: MainMenuSelection::LoadGame });
            },
            RunState::MainMenu { .. } => {},
        }
        let ghost stepped = self.ecs@;
        proof {
            assert(stepped.stepped_from(before, input, find_path)) by {
                assert(stepped.with_runstate(before.runstate).entities =~= stepped.entities);
            }
            assert(stepped.has_player());
            assert(stepped.wf()) by {
                assert forall|i: int| 0 <= i < stepped.entities.len() implies stepped.record_wf(
                    #[trigger] stepped.entities[i],
                ) by {
                    if before.runstate != RunState::NextLevel && before.runstate != RunState::PreRun && before.runstate
                        != RunState::PlayerTurn && before.runstate != RunState::MonsterTurn {
                        if !(before.runstate == RunState::AwaitingInput && input is Move) {
                            assert(before.record_wf(before.entities[i]));
                        }
                    }
                }
            }
        }
        let player_dead = delete_the_dead(&mut self.ecs);
        proof {
            melee_combat_system::lemma_same_places_wf(stepped, self.ecs@);
        }
        self.ecs.maintain();
        proof {
            assert(self.ecs@ == stepped.swept().commit());
            assert(!stepped.swept().doomed(stepped.player.id as int));
        }
        TickOutcome { player_dead, save_requested }
    }
}

} // verus!
