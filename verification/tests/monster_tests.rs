use doghack::components::{CombatStats, Entity, Position, Viewshed, WantsToMelee};
use doghack::map::TileMap;
use doghack::map_indexing_system::MapIndexingSystem;
use doghack::monster_ai_system::{
    holds_position, within_melee_range, MonsterAI, MonsterDecision, NavigationPath,
};
use doghack::visibility_system::VisibilitySystem;
use doghack::world::{EntityRecord, World};
use doghack::Rect;

struct PathMap<'a>(&'a TileMap);

impl<'a> rltk::BaseMap for PathMap<'a> {
    fn is_opaque(&self, idx: usize) -> bool {
        rltk::BaseMap::is_opaque(self.0, idx)
    }

    fn get_available_exits(&self, idx: usize) -> rltk::SmallVec<[(usize, f32); 10]> {
        let mut exits = rltk::SmallVec::new();
        for (to, cost) in self.0.get_available_exits(idx) {
            exits.push((to, cost as f32 / 100.0));
        }
        exits
    }

    fn get_pathing_distance(&self, idx1: usize, idx2: usize) -> f32 {
        (self.0.get_pathing_distance_squared(idx1, idx2) as f32).sqrt()
    }
}

fn a_star(map: &TileMap, from: usize, to: usize) -> NavigationPath {
    let path = rltk::a_star_search(from, to, &PathMap(map));
    NavigationPath { destination: path.destination, success: path.success, steps: path.steps }
}

fn no_path(_map: &TileMap, _from: usize, to: usize) -> NavigationPath {
    NavigationPath { destination: to, success: false, steps: Vec::new() }
}

/// A world whose map has one room with floor from (3, 3) to (12, 12).
fn arena() -> World {
    let mut map = TileMap::blank(1);
    map.add_room(Rect::new(2, 2, 10, 10), true);
    World::new(map, rltk::RandomNumberGenerator::seeded(1))
}

fn creature(x: i32, y: i32, monster: bool) -> EntityRecord {
    let mut r = EntityRecord::new();
    r.position = Some(Position { x, y });
    r.combat_stats = Some(CombatStats { max_hp: 16, hp: 16, defense: 1, power: 4 });
    r.viewshed = Some(Viewshed { visible_tiles: Vec::new(), range: 8, dirty: true });
    r.monster = monster;
    r.blocks_tile = monster;
    r
}

fn prepared(ecs: &mut World) {
    VisibilitySystem {}.run_now(ecs);
    MapIndexingSystem {}.run_now(ecs);
}

#[test]
fn melee_range_is_one_step_diagonals_included() {
    let at = Position { x: 5, y: 5 };
    for dy in -2..=2 {
        for dx in -2..=2 {
            let near = dx >= -1 && dx <= 1 && dy >= -1 && dy <= 1;
            assert_eq!(within_melee_range(at, Position { x: 5 + dx, y: 5 + dy }), near);
            let d = ((dx * dx + dy * dy) as f32).sqrt();
            assert_eq!(near, d <= 1.5);
        }
    }
    assert!(!within_melee_range(Position { x: i32::MIN, y: 0 }, Position { x: i32::MAX, y: 0 }));
}

#[test]
fn holds_position_finds_exactly_the_tiles_held() {
    let tiles = vec![Position { x: 1, y: 2 }, Position { x: 3, y: 4 }];
    assert!(holds_position(&tiles, Position { x: 3, y: 4 }));
    assert!(!holds_position(&tiles, Position { x: 4, y: 3 }));
    assert!(!holds_position(&Vec::new(), Position { x: 0, y: 0 }));
}

#[test]
fn monster_that_does_not_see_the_player_stays() {
    let mut ecs = arena();
    ecs.map.add_room(Rect::new(40, 20, 8, 8), true);
    let _player = ecs.create_entity(creature(45, 25, false));
    let monster = ecs.create_entity(creature(5, 5, true));
    prepared(&mut ecs);
    assert_eq!(ecs.monster_decision(monster.id), MonsterDecision::Idle);
    MonsterAI {}.run_now(&mut ecs, &a_star);
    assert_eq!(ecs.entities[monster.id].position, Some(Position { x: 5, y: 5 }));
    assert!(ecs.entities[monster.id].wants_to_melee.is_none());
    assert!(!ecs.entities[monster.id].viewshed.as_ref().unwrap().dirty);
}

#[test]
fn adjacent_monster_strikes_and_does_not_move() {
    let mut ecs = arena();
    let player = ecs.create_entity(creature(5, 5, false));
    let monster = ecs.create_entity(creature(6, 6, true));
    prepared(&mut ecs);
    assert_eq!(ecs.monster_decision(monster.id), MonsterDecision::Melee);
    MonsterAI {}.run_now(&mut ecs, &a_star);
    assert_eq!(ecs.entities[monster.id].wants_to_melee, Some(WantsToMelee { target: player }));
    assert_eq!(ecs.entities[monster.id].position, Some(Position { x: 6, y: 6 }));
    assert!(ecs.entities[player.id].wants_to_melee.is_none());
}

#[test]
fn distant_monster_takes_one_step_toward_the_player() {
    let mut ecs = arena();
    let _player = ecs.create_entity(creature(4, 7, false));
    let monster = ecs.create_entity(creature(9, 7, true));
    prepared(&mut ecs);
    let from = ecs.map.xy_idx(9, 7);
    let to = ecs.map.xy_idx(4, 7);
    assert_eq!(ecs.monster_decision(monster.id), MonsterDecision::Seek { from, to });
    MonsterAI {}.run_now(&mut ecs, &a_star);
    assert_eq!(ecs.entities[monster.id].position, Some(Position { x: 8, y: 7 }));
    assert!(ecs.entities[monster.id].viewshed.as_ref().unwrap().dirty);
    assert!(ecs.entities[monster.id].wants_to_melee.is_none());
    assert!(!ecs.map.blocked[from]);
    assert!(ecs.map.blocked[ecs.map.xy_idx(8, 7)]);
}

#[test]
fn monster_without_a_path_stays() {
    let mut ecs = arena();
    let _player = ecs.create_entity(creature(4, 7, false));
    let monster = ecs.create_entity(creature(9, 7, true));
    prepared(&mut ecs);
    let blocked = ecs.map.blocked.clone();
    MonsterAI {}.run_now(&mut ecs, &no_path);
    assert_eq!(ecs.entities[monster.id].position, Some(Position { x: 9, y: 7 }));
    assert!(!ecs.entities[monster.id].viewshed.as_ref().unwrap().dirty);
    assert_eq!(ecs.map.blocked, blocked);
}

#[test]
fn of_two_monsters_after_one_tile_the_first_gets_it() {
    let mut ecs = arena();
    let _player = ecs.create_entity(creature(4, 7, false));
    let first = ecs.create_entity(creature(9, 7, true));
    let second = ecs.create_entity(creature(9, 8, true));
    prepared(&mut ecs);
    let wanted = ecs.map.xy_idx(8, 7);
    let contested = move |_map: &TileMap, from: usize, to: usize| NavigationPath {
        destination: to,
        success: true,
        steps: vec![from, wanted, to],
    };
    MonsterAI {}.run_now(&mut ecs, &contested);
    assert_eq!(ecs.entities[first.id].position, Some(Position { x: 8, y: 7 }));
    assert_eq!(ecs.entities[second.id].position, Some(Position { x: 9, y: 8 }));
    assert!(ecs.entities[first.id].viewshed.as_ref().unwrap().dirty);
    assert!(!ecs.entities[second.id].viewshed.as_ref().unwrap().dirty);
    assert!(ecs.map.blocked[wanted]);
    assert!(!ecs.map.blocked[ecs.map.xy_idx(9, 7)]);
    assert!(ecs.map.blocked[ecs.map.xy_idx(9, 8)]);
}

#[test]
fn follow_refuses_steps_that_are_missing_blocked_or_off_the_map() {
    let mut ecs = arena();
    let _player = ecs.create_entity(creature(4, 7, false));
    let monster = ecs.create_entity(creature(9, 7, true));
    prepared(&mut ecs);
    let from = ecs.map.xy_idx(9, 7);
    let wall = ecs.map.xy_idx(2, 2);
    let free = ecs.map.xy_idx(9, 6);
    let cases = vec![
        NavigationPath { destination: free, success: false, steps: vec![from, free] },
        NavigationPath { destination: free, success: true, steps: vec![from] },
        NavigationPath { destination: free, success: true, steps: vec![] },
        NavigationPath { destination: wall, success: true, steps: vec![from, wall] },
        NavigationPath { destination: 0, success: true, steps: vec![from, 80 * 42] },
        NavigationPath { destination: 0, success: true, steps: vec![from, usize::MAX] },
    ];
    for path in cases.iter() {
        assert!(!ecs.monster_follow(monster.id, path));
        assert_eq!(ecs.entities[monster.id].position, Some(Position { x: 9, y: 7 }));
    }
    let good = NavigationPath { destination: free, success: true, steps: vec![from, free, 0] };
    assert!(ecs.monster_follow(monster.id, &good));
    assert_eq!(ecs.entities[monster.id].position, Some(Position { x: 9, y: 6 }));
}

#[test]
fn the_player_is_never_moved_by_the_monsters_pass() {
    let mut ecs = arena();
    let mut hero = creature(4, 7, false);
    hero.monster = true;
    let player = ecs.create_entity(hero);
    let _monster = ecs.create_entity(creature(9, 7, true));
    prepared(&mut ecs);
    assert_eq!(ecs.monster_decision(player.id), MonsterDecision::Idle);
    MonsterAI {}.run_now(&mut ecs, &a_star);
    assert_eq!(ecs.entities[player.id].position, Some(Position { x: 4, y: 7 }));
    assert_eq!(ecs.player, Entity { id: 0 });
}
