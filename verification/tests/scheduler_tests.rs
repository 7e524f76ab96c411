use doghack::components::{
    CombatStats, Entity, EquipmentSlot, Equipped, InBackpack, Position, Ranged, WantsToDropItem, WantsToMelee,
    WantsToPickupItem, WantsToRemoveItem, WantsToUseItem,
};
use doghack::gamelog::LogEvent;
use doghack::map::{TileMap, TileType};
use doghack::monster_ai_system::NavigationPath;
use doghack::player::{get_item, try_move_player, try_next_level};
use doghack::spawner;
use doghack::world::{EntityRecord, World};
use doghack::{InputEvent, MainMenuSelection, Rect, RunState, State, TickOutcome};

struct PathMap<'a>(&'a TileMap);

impl<'a> rltk::BaseMap for PathMap<'a> {
    fn get_available_exits(&self, idx: usize) -> rltk::SmallVec<[(usize, f32); 10]> {
        let mut exits = rltk::SmallVec::new();
        for (to, cost) in self.0.get_available_exits(idx) {
            exits.push((to, cost as f32 / 100.0));
        }
        exits
    }

    fn get_pathing_distance(&self, idx1: usize, idx2: usize) -> f32 {
        (self.0.get_pathing_distance_squared(idx1, idx2) as f32).sqrt()
    }
}

fn a_star(map: &TileMap, from: usize, to: usize) -> NavigationPath {
    let path = rltk::a_star_search(from, to, &PathMap(map));
    NavigationPath { destination: path.destination, success: path.success, steps: path.steps }
}

/// A game on a map with one room, floor from (3, 3) to (12, 12), and the
/// player alone at (5, 5).
fn lonely() -> State {
    let mut map = TileMap::blank(1);
    map.add_room(Rect::new(2, 2, 10, 10), true);
    let mut ecs = World::new(map, rltk::RandomNumberGenerator::seeded(3));
    let player = spawner::player(&mut ecs, 5, 5);
    ecs.player = player;
    State { ecs }
}

fn in_state(runstate: RunState) -> State {
    let mut gs = lonely();
    gs.ecs.runstate = runstate;
    gs
}

fn item_of(owner: Entity) -> EntityRecord {
    let mut r = EntityRecord::new();
    r.item = true;
    r.in_backpack = Some(InBackpack { owner });
    r
}

const QUIET: TickOutcome = TickOutcome { player_dead: false, save_requested: false };

#[test]
fn new_game_places_the_player_in_the_first_room() {
    let gs = State::new(rltk::RandomNumberGenerator::seeded(5));
    assert_eq!(gs.ecs.runstate, RunState::PreRun);
    assert_eq!(gs.ecs.player, Entity { id: 0 });
    let (x, y) = gs.ecs.map.rooms[0].center();
    let player = &gs.ecs.entities[0];
    assert!(player.player && player.alive);
    assert_eq!(player.position, Some(Position { x, y }));
    assert_eq!(player.combat_stats, Some(CombatStats { max_hp: 30, hp: 30, defense: 2, power: 5 }));
    assert_eq!(gs.ecs.map.depth, 1);
    assert_eq!(gs.ecs.log.entries, vec![LogEvent::Welcome]);
    for r in gs.ecs.entities.iter().skip(1) {
        assert!(r.monster || r.item);
        let p = r.position.unwrap();
        assert!(gs.ecs.map.rooms.iter().skip(1).any(|room| p.x > room.x1 && p.x <= room.x2 && p.y > room.y1 && p.y <= room.y2));
    }
}

#[test]
fn pipeline_states_run_and_move_on() {
    let mut gs = in_state(RunState::PreRun);
    assert_eq!(gs.tick(InputEvent::NoResponse, &a_star), QUIET);
    assert_eq!(gs.ecs.runstate, RunState::AwaitingInput);
    // the pass has computed the player's sight
    assert!(!gs.ecs.entities[0].viewshed.as_ref().unwrap().dirty);
    assert!(gs.ecs.map.visible_tiles[gs.ecs.map.xy_idx(5, 5)]);

    let mut gs = in_state(RunState::PlayerTurn);
    gs.tick(InputEvent::Move { dx: 1, dy: 0 }, &a_star);
    assert_eq!(gs.ecs.runstate, RunState::MonsterTurn);
    assert_eq!(gs.ecs.entities[0].position, Some(Position { x: 5, y: 5 }));
    gs.tick(InputEvent::NoResponse, &a_star);
    assert_eq!(gs.ecs.runstate, RunState::AwaitingInput);
}

#[test]
fn awaiting_input_follows_the_command() {
    let cases = vec![
        (InputEvent::NoResponse, RunState::AwaitingInput),
        (InputEvent::Cancel, RunState::AwaitingInput),
        (InputEvent::Move { dx: 0, dy: 1 }, RunState::PlayerTurn),
        (InputEvent::PickUp, RunState::PlayerTurn),
        (InputEvent::OpenInventory, RunState::ShowInventory),
        (InputEvent::OpenDropMenu, RunState::ShowDropItem),
        (InputEvent::OpenRemoveMenu, RunState::ShowRemoveItem),
        (InputEvent::Save, RunState::SaveGame),
        (InputEvent::Descend, RunState::AwaitingInput),
        (InputEvent::ItemSelected { item: Entity { id: 0 } }, RunState::AwaitingInput),
        (InputEvent::TargetSelected { target: Position { x: 4, y: 4 } }, RunState::AwaitingInput),
    ];
    for (input, expected) in cases {
        let mut gs = in_state(RunState::AwaitingInput);
        assert_eq!(gs.tick(input, &a_star), QUIET);
        assert_eq!(gs.ecs.runstate, expected, "{:?}", input);
    }
}

#[test]
fn moving_steps_onto_free_floor_and_stops_at_walls() {
    let mut gs = in_state(RunState::AwaitingInput);
    gs.ecs.entities[0].viewshed.as_mut().unwrap().dirty = false;
    gs.ecs.map.populate_blocked();
    gs.tick(InputEvent::Move { dx: -1, dy: 1 }, &a_star);
    assert_eq!(gs.ecs.entities[0].position, Some(Position { x: 4, y: 6 }));
    assert!(gs.ecs.entities[0].viewshed.as_ref().unwrap().dirty);

    let mut ecs = lonely().ecs;
    ecs.map.populate_blocked();
    ecs.entities[0].position = Some(Position { x: 3, y: 3 });
    ecs.entities[0].viewshed.as_mut().unwrap().dirty = false;
    try_move_player(-1, 0, &mut ecs);
    assert_eq!(ecs.entities[0].position, Some(Position { x: 3, y: 3 }));
    assert!(!ecs.entities[0].viewshed.as_ref().unwrap().dirty);
    try_move_player(0, -5, &mut ecs);
    try_move_player(i32::MAX, i32::MAX, &mut ecs);
    try_move_player(i32::MIN, 0, &mut ecs);
    assert_eq!(ecs.entities[0].position, Some(Position { x: 3, y: 3 }));
    assert!(ecs.entities[0].wants_to_melee.is_none());
}

#[test]
fn moving_into_a_fighter_strikes_instead() {
    let mut ecs = lonely().ecs;
    spawner::ketchup(&mut ecs, 6, 5);
    spawner::monster(&mut ecs, 6, 5, 9, "Potato");
    let monster = Entity { id: 2 };
    doghack::map_indexing_system::MapIndexingSystem {}.run_now(&mut ecs);
    try_move_player(1, 0, &mut ecs);
    assert_eq!(ecs.entities[0].wants_to_melee, Some(WantsToMelee { target: monster }));
    assert_eq!(ecs.entities[0].position, Some(Position { x: 5, y: 5 }));
    // standing still is no attack on oneself
    ecs.entities[0].wants_to_melee = None;
    try_move_player(0, 0, &mut ecs);
    assert!(ecs.entities[0].wants_to_melee.is_none());
}

#[test]
fn reaching_for_an_item_takes_the_first_on_the_tile() {
    let mut ecs = lonely().ecs;
    get_item(&mut ecs);
    assert!(ecs.entities[0].wants_to_pickup.is_none());
    assert_eq!(ecs.log.entries.last(), Some(&LogEvent::NothingToPickUp));
    spawner::ketchup(&mut ecs, 6, 5);
    spawner::spatula(&mut ecs, 5, 5);
    spawner::fork(&mut ecs, 5, 5);
    get_item(&mut ecs);
    assert_eq!(
        ecs.entities[0].wants_to_pickup,
        Some(WantsToPickupItem { collected_by: Entity { id: 0 }, item: Entity { id: 2 } })
    );
}

#[test]
fn aiming_needs_sight_and_range() {
    let mut gs = in_state(RunState::PreRun);
    gs.tick(InputEvent::NoResponse, &a_star);
    let ecs = &gs.ecs;
    // the player stands at (5, 5) in a room with floor from (3, 3) to (12, 12)
    assert!(ecs.can_target(Position { x: 5, y: 5 }, 0));
    assert!(ecs.can_target(Position { x: 8, y: 9 }, 5));
    assert!(!ecs.can_target(Position { x: 8, y: 9 }, 4));
    assert!(ecs.can_target(Position { x: 11, y: 5 }, 6));
    assert!(!ecs.can_target(Position { x: 12, y: 5 }, 6));
    assert!(!ecs.can_target(Position { x: 5, y: 5 }, -1));
    // out of sight, however far the reach
    assert!(!ecs.can_target(Position { x: 40, y: 20 }, 100));
    assert!(!ecs.can_target(Position { x: i32::MIN, y: i32::MAX }, i32::MAX));
}

#[test]
fn descending_needs_the_stairs() {
    let mut gs = in_state(RunState::AwaitingInput);
    gs.tick(InputEvent::Descend, &a_star);
    assert_eq!(gs.ecs.runstate, RunState::AwaitingInput);
    assert_eq!(gs.ecs.log.entries.last(), Some(&LogEvent::NoWayDown));
    assert!(!try_next_level(&mut gs.ecs));

    let here = gs.ecs.map.xy_idx(5, 5);
    gs.ecs.map.tiles[here] = TileType::DownStairs;
    let log = gs.ecs.log.entries.clone();
    gs.tick(InputEvent::Descend, &a_star);
    assert_eq!(gs.ecs.runstate, RunState::NextLevel);
    assert_eq!(gs.ecs.log.entries, log);
    assert!(try_next_level(&mut gs.ecs));
}

#[test]
fn inventory_menu_uses_or_aims_the_chosen_item() {
    let mut gs = in_state(RunState::ShowInventory);
    let player = gs.ecs.player;
    let plain = gs.ecs.create_entity(item_of(player));
    let mut wand = item_of(player);
    wand.ranged = Some(Ranged { range: 6 });
    let wand = gs.ecs.create_entity(wand);

    assert_eq!(gs.tick(InputEvent::NoResponse, &a_star), QUIET);
    assert_eq!(gs.ecs.runstate, RunState::ShowInventory);
    gs.tick(InputEvent::Move { dx: 1, dy: 0 }, &a_star);
    assert_eq!(gs.ecs.runstate, RunState::ShowInventory);
    assert_eq!(gs.ecs.entities[0].position, Some(Position { x: 5, y: 5 }));

    gs.tick(InputEvent::ItemSelected { item: wand }, &a_star);
    assert_eq!(gs.ecs.runstate, RunState::ShowTargeting { range: 6, item: wand });
    assert!(gs.ecs.entities[0].wants_to_use.is_none());

    gs.tick(InputEvent::NoResponse, &a_star);
    assert_eq!(gs.ecs.runstate, RunState::ShowTargeting { range: 6, item: wand });
    gs.tick(InputEvent::TargetSelected { target: Position { x: 7, y: 7 } }, &a_star);
    assert_eq!(gs.ecs.runstate, RunState::PlayerTurn);
    assert_eq!(
        gs.ecs.entities[0].wants_to_use,
        Some(WantsToUseItem { item: wand, target: Some(Position { x: 7, y: 7 }) })
    );

    let mut gs2 = in_state(RunState::ShowInventory);
    let plain2 = gs2.ecs.create_entity(item_of(player));
    assert_eq!(plain2, plain);
    gs2.tick(InputEvent::ItemSelected { item: plain2 }, &a_star);
    assert_eq!(gs2.ecs.runstate, RunState::PlayerTurn);
    assert_eq!(gs2.ecs.entities[0].wants_to_use, Some(WantsToUseItem { item: plain2, target: None }));

    for state in [
        RunState::ShowInventory,
        RunState::ShowDropItem,
        RunState::ShowRemoveItem,
        RunState::ShowTargeting { range: 6, item: wand },
    ] {
        let mut gs = in_state(state);
        gs.tick(InputEvent::Cancel, &a_star);
        assert_eq!(gs.ecs.runstate, RunState::AwaitingInput);
        assert!(gs.ecs.entities[0].wants_to_use.is_none());
    }
}

#[test]
fn drop_and_remove_menus_attach_their_intents() {
    let mut gs = in_state(RunState::ShowDropItem);
    let item = gs.ecs.create_entity(item_of(Entity { id: 0 }));
    gs.tick(InputEvent::ItemSelected { item }, &a_star);
    assert_eq!(gs.ecs.runstate, RunState::PlayerTurn);
    assert_eq!(gs.ecs.entities[0].wants_to_drop, Some(WantsToDropItem { item }));

    let mut gs = in_state(RunState::ShowRemoveItem);
    let item = gs.ecs.create_entity(item_of(Entity { id: 0 }));
    gs.tick(InputEvent::ItemSelected { item }, &a_star);
    assert_eq!(gs.ecs.runstate, RunState::PlayerTurn);
    assert_eq!(gs.ecs.entities[0].wants_to_remove, Some(WantsToRemoveItem { item }));
    // the intent is resolved by the next pass, and does not outlive it
    gs.tick(InputEvent::NoResponse, &a_star);
    assert_eq!(gs.ecs.runstate, RunState::MonsterTurn);
    assert!(gs.ecs.entities[0].wants_to_remove.is_none());
}

#[test]
fn saving_is_asked_for_once_and_leads_to_the_main_menu() {
    let mut gs = in_state(RunState::SaveGame);
    let outcome = gs.tick(InputEvent::NoResponse, &a_star);
    assert_eq!(outcome, TickOutcome { player_dead: false, save_requested: true });
    assert_eq!(gs.ecs.runstate, RunState::MainMenu { menu_selection: MainMenuSelection::LoadGame });
    let outcome = gs.tick(InputEvent::Move { dx: 1, dy: 0 }, &a_star);
    assert_eq!(outcome, QUIET);
    assert_eq!(gs.ecs.runstate, RunState::MainMenu { menu_selection: MainMenuSelection::LoadGame });
}

#[test]
fn descent_keeps_what_the_player_holds_and_nothing_else() {
    let mut gs = State::new(rltk::RandomNumberGenerator::seeded(9));
    let player = gs.ecs.player;
    let carried = gs.ecs.create_entity(item_of(player));
    let mut worn = EntityRecord::new();
    worn.item = true;
    worn.equipped = Some(Equipped { owner: player, slot: EquipmentSlot::Shield });
    let worn = gs.ecs.create_entity(worn);
    let (px, py) = gs.ecs.map.rooms[0].center();
    spawner::ketchup(&mut gs.ecs, px + 1, py);
    let floor_item = Entity { id: worn.id + 1 };
    spawner::monster(&mut gs.ecs, px - 1, py, 9, "Potato");
    let monster = Entity { id: worn.id + 2 };
    let stranger = gs.ecs.create_entity(item_of(monster));
    let before = gs.ecs.entities.len();
    gs.ecs.entities[player.id].combat_stats = Some(CombatStats { max_hp: 30, hp: 7, defense: 2, power: 5 });
    gs.ecs.entities[player.id].viewshed.as_mut().unwrap().dirty = false;
    let old_tiles = gs.ecs.map.tiles.clone();
    gs.ecs.map.revealed_tiles[0] = true;
    gs.ecs.runstate = RunState::NextLevel;

    let outcome = gs.tick(InputEvent::NoResponse, &a_star);

    assert_eq!(outcome, QUIET);
    assert_eq!(gs.ecs.runstate, RunState::PreRun);
    assert_eq!(gs.ecs.map.depth, 2);
    assert!(gs.ecs.map.tiles != old_tiles);
    assert!(gs.ecs.map.revealed_tiles.iter().all(|b| !*b));
    assert!(gs.ecs.is_alive(player));
    assert!(gs.ecs.is_alive(carried));
    assert_eq!(gs.ecs.entities[carried.id].in_backpack, Some(InBackpack { owner: player }));
    assert!(gs.ecs.is_alive(worn));
    assert!(!gs.ecs.is_alive(floor_item));
    assert!(!gs.ecs.is_alive(monster));
    assert!(!gs.ecs.is_alive(stranger));
    for id in 1..before {
        let kept = id == carried.id || id == worn.id;
        assert_eq!(gs.ecs.entities[id].alive, kept, "entity {}", id);
    }
    let (x, y) = gs.ecs.map.rooms[0].center();
    assert_eq!(gs.ecs.entities[player.id].position, Some(Position { x, y }));
    assert!(gs.ecs.entities[player.id].viewshed.as_ref().unwrap().dirty);
    assert_eq!(gs.ecs.entities[player.id].combat_stats.unwrap().hp, 15);
    assert_eq!(gs.ecs.log.entries.last(), Some(&LogEvent::Descended { depth: 2 }));
    for r in gs.ecs.entities.iter().skip(before) {
        assert!(r.alive && (r.monster || r.item));
        let p = r.position.unwrap();
        assert!(gs.ecs.map.rooms.iter().skip(1).any(|room| p.x > room.x1 && p.x <= room.x2 && p.y > room.y1 && p.y <= room.y2));
    }
}

#[test]
fn descent_drops_creations_that_wait() {
    let mut gs = lonely();
    let mut waiting = EntityRecord::new();
    waiting.position = Some(Position { x: 4, y: 4 });
    gs.ecs.queue_create(waiting);
    gs.ecs.goto_next_level();
    assert!(gs.ecs.pending_creates.is_empty());
    let count = gs.ecs.entities.len();
    gs.ecs.maintain();
    assert_eq!(gs.ecs.entities.len(), count);
}

#[test]
fn a_pass_commits_creations_that_wait() {
    let mut gs = lonely();
    let mut waiting = EntityRecord::new();
    waiting.position = Some(Position { x: 4, y: 4 });
    waiting.item = true;
    gs.ecs.queue_create(waiting);
    gs.run_systems(&a_star);
    assert_eq!(gs.ecs.entities.len(), 2);
    assert!(gs.ecs.is_alive(Entity { id: 1 }));
    assert!(gs.ecs.pending_creates.is_empty());
    // it was not there yet when the pass built the index
    assert!(gs.ecs.map.tile_content[gs.ecs.map.xy_idx(4, 4)].is_empty());
    gs.run_systems(&a_star);
    assert_eq!(gs.ecs.map.tile_content[gs.ecs.map.xy_idx(4, 4)], vec![Entity { id: 1 }]);
}

#[test]
fn descent_does_not_lower_health_above_half() {
    let mut gs = lonely();
    gs.ecs.entities[0].combat_stats = Some(CombatStats { max_hp: 30, hp: 22, defense: 2, power: 5 });
    gs.ecs.goto_next_level();
    assert_eq!(gs.ecs.entities[0].combat_stats.unwrap().hp, 22);
    assert_eq!(gs.ecs.map.depth, 2);
    gs.ecs.entities[0].combat_stats = Some(CombatStats { max_hp: 31, hp: 1, defense: 2, power: 5 });
    gs.ecs.goto_next_level();
    assert_eq!(gs.ecs.entities[0].combat_stats.unwrap().hp, 15);
    assert_eq!(gs.ecs.map.depth, 3);
}

#[test]
fn descent_works_at_any_depth() {
    for depth in [-7, 0, 40] {
        let mut gs = lonely();
        gs.ecs.map.depth = depth;
        spawner::ketchup(&mut gs.ecs, 6, 6);
        let tiles = gs.ecs.map.tiles.clone();
        gs.ecs.runstate = RunState::NextLevel;
        gs.tick(InputEvent::NoResponse, &a_star);
        assert_eq!(gs.ecs.runstate, RunState::PreRun);
        assert_eq!(gs.ecs.map.depth, depth + 1);
        assert!(gs.ecs.map.tiles != tiles);
        assert!(!gs.ecs.is_alive(Entity { id: 1 }));
        let (x, y) = gs.ecs.map.rooms[0].center();
        assert_eq!(gs.ecs.entities[0].position, Some(Position { x, y }));
        assert_eq!(gs.ecs.log.entries.last(), Some(&LogEvent::Descended { depth: depth + 1 }));
        let newcomers = gs.ecs.entities.len() - 2;
        if depth < 0 {
            // the roll less three and the depth less one is below one: nothing spawns
            assert_eq!(newcomers, 0);
        }
        if depth == 40 && gs.ecs.map.rooms.len() > 1 {
            assert!(newcomers >= gs.ecs.map.rooms.len() - 1);
        }
    }
}

#[test]
fn player_melees_a_monster_to_death() {
    let mut rng = rltk::RandomNumberGenerator::seeded(21);
    let map = TileMap::generate(1, &mut rng);
    let (px, py) = map.rooms[0].center();
    let mut ecs = World::new(map, rng);
    let player = spawner::player(&mut ecs, px, py);
    ecs.player = player;
    spawner::monster(&mut ecs, px + 2, py, 9, "Potato");
    let monster = Entity { id: 1 };
    assert_eq!(ecs.entities[monster.id].combat_stats, Some(CombatStats { max_hp: 16, hp: 16, defense: 1, power: 4 }));
    let mut gs = State { ecs };

    gs.tick(InputEvent::NoResponse, &a_star);
    assert_eq!(gs.ecs.runstate, RunState::AwaitingInput);
    // the monster has seen the player and closed in
    assert_eq!(gs.ecs.entities[monster.id].position, Some(Position { x: px + 1, y: py }));

    let mut last_hp = 16;
    let mut player_hp = 30;
    for cycle in 1..=4 {
        assert!(gs.ecs.is_alive(monster));
        gs.tick(InputEvent::Move { dx: 1, dy: 0 }, &a_star);
        assert_eq!(gs.ecs.runstate, RunState::PlayerTurn);
        assert_eq!(gs.ecs.entities[player.id].wants_to_melee, Some(WantsToMelee { target: monster }));
        let outcome = gs.tick(InputEvent::NoResponse, &a_star);
        assert!(!outcome.player_dead);
        assert_eq!(gs.ecs.runstate, RunState::MonsterTurn);
        assert!(gs.ecs.entities[player.id].wants_to_melee.is_none());
        if cycle < 4 {
            let hp = gs.ecs.entities[monster.id].combat_stats.unwrap().hp;
            assert!(hp < last_hp);
            assert_eq!(hp, 16 - 4 * cycle);
            last_hp = hp;
        }
        gs.tick(InputEvent::NoResponse, &a_star);
        assert_eq!(gs.ecs.runstate, RunState::AwaitingInput);
        let now = gs.ecs.entities[player.id].combat_stats.unwrap().hp;
        assert!(now <= player_hp);
        player_hp = now;
        // no intent and no waiting damage outlives a tick
        for r in gs.ecs.entities.iter() {
            assert!(r.wants_to_melee.is_none() && r.suffer_damage.is_none());
        }
    }
    assert_eq!(last_hp, 4);
    assert!(!gs.ecs.is_alive(monster));
    assert!(gs.ecs.entities[monster.id].position.is_none());
    assert!(gs.ecs.log.entries.contains(&LogEvent::Died { who: monster }));
    assert!(gs.ecs.is_alive(player));
    assert!(player_hp < 30 && player_hp > 0);
    // the tile is free again after the next pass
    gs.tick(InputEvent::Move { dx: 1, dy: 0 }, &a_star);
    assert_eq!(gs.ecs.entities[player.id].position, Some(Position { x: px + 1, y: py }));
}

#[test]
fn death_of_the_player_is_signalled_and_the_player_stays() {
    let mut gs = in_state(RunState::AwaitingInput);
    gs.ecs.entities[0].combat_stats = Some(CombatStats { max_hp: 30, hp: 0, defense: 2, power: 5 });
    let outcome = gs.tick(InputEvent::NoResponse, &a_star);
    assert!(outcome.player_dead);
    assert!(gs.ecs.is_alive(Entity { id: 0 }));
    assert_eq!(gs.ecs.log.entries.last(), Some(&LogEvent::PlayerDied));
}

#[test]
fn ticks_never_take_back_revealed_tiles() {
    let mut gs = State::new(rltk::RandomNumberGenerator::seeded(13));
    let mut revealed = gs.ecs.map.revealed_tiles.clone();
    let moves = [(1, 0), (1, 0), (0, 1), (-1, 0), (0, -1), (1, 1), (1, 0), (0, 1)];
    for (dx, dy) in moves {
        for input in [InputEvent::NoResponse, InputEvent::Move { dx, dy }, InputEvent::NoResponse] {
            gs.tick(input, &a_star);
            for idx in 0..revealed.len() {
                if revealed[idx] {
                    assert!(gs.ecs.map.revealed_tiles[idx]);
                }
                if gs.ecs.map.visible_tiles[idx] {
                    assert!(gs.ecs.map.revealed_tiles[idx]);
                }
            }
            revealed = gs.ecs.map.revealed_tiles.clone();
        }
    }
    assert!(revealed.iter().any(|b| *b));
}

#[test]
fn run_systems_resolves_intents_in_one_pass() {
    let mut gs = lonely();
    spawner::ketchup(&mut gs.ecs, 5, 5);
    let ketchup = Entity { id: 1 };
    gs.ecs.entities[0].combat_stats = Some(CombatStats { max_hp: 30, hp: 10, defense: 2, power: 5 });
    gs.ecs.entities[0].wants_to_pickup = Some(WantsToPickupItem { collected_by: Entity { id: 0 }, item: ketchup });
    gs.ecs.entities[0].wants_to_use = Some(WantsToUseItem { item: ketchup, target: None });
    gs.run_systems(&a_star);
    // picked up, used, and deleted by the commit of the same pass
    assert_eq!(gs.ecs.entities[0].combat_stats.unwrap().hp, 18);
    assert!(!gs.ecs.is_alive(ketchup));
    assert!(gs.ecs.pending_deletes.is_empty());
    assert!(gs.ecs.entities[0].wants_to_pickup.is_none());
    assert!(gs.ecs.entities[0].wants_to_use.is_none());
    assert_eq!(gs.ecs.runstate, RunState::PreRun);
}
