use doghack::components::{
    Color, CombatStats, Entity, Position, Renderable, SufferDamage, Viewshed, WantsToMelee,
};
use doghack::damage_system::{delete_the_dead, sum_amounts, DamageSystem};
use doghack::gamelog::LogEvent;
use doghack::map::{TileMap, TileType};
use doghack::map_indexing_system::MapIndexingSystem;
use doghack::melee_combat_system::{saturate, MeleeCombatSystem};
use doghack::visibility_system::VisibilitySystem;
use doghack::world::{EntityRecord, World};
use doghack::Rect;

/// A world whose map has one room with floor from (3, 3) to (12, 12).
fn arena() -> World {
    let mut map = TileMap::blank(1);
    map.add_room(Rect::new(2, 2, 10, 10), true);
    World::new(map, rltk::RandomNumberGenerator::seeded(1))
}

fn fighter(x: i32, y: i32, hp: i32, defense: i32, power: i32) -> EntityRecord {
    let mut r = EntityRecord::new();
    r.position = Some(Position { x, y });
    r.combat_stats = Some(CombatStats { max_hp: hp, hp, defense, power });
    r
}

fn watcher(x: i32, y: i32, range: i32) -> EntityRecord {
    let mut r = fighter(x, y, 30, 2, 5);
    r.viewshed = Some(Viewshed { visible_tiles: Vec::new(), range, dirty: true });
    r
}

fn amounts(ecs: &World, e: Entity) -> Option<Vec<i32>> {
    ecs.entities[e.id].suffer_damage.as_ref().map(|d| d.amounts.clone())
}

#[test]
fn new_world_is_empty_and_about_to_run() {
    let ecs = arena();
    assert!(ecs.entities.is_empty());
    assert!(ecs.pending_creates.is_empty());
    assert!(ecs.pending_deletes.is_empty());
    assert_eq!(ecs.runstate, doghack::RunState::PreRun);
    assert_eq!(ecs.player, Entity { id: 0 });
    assert_eq!(ecs.log.entries, vec![LogEvent::Welcome]);
}

#[test]
fn entities_get_ascending_identifiers() {
    let mut ecs = arena();
    let a = ecs.create_entity(fighter(3, 3, 10, 0, 1));
    let b = ecs.create_entity(fighter(4, 3, 10, 0, 1));
    assert_eq!((a.id, b.id), (0, 1));
    assert!(ecs.is_alive(a) && ecs.is_alive(b));
    assert!(!ecs.is_alive(Entity { id: 2 }));
}

#[test]
fn deletion_waits_for_the_commit() {
    let mut ecs = arena();
    let _player = ecs.create_entity(fighter(3, 3, 10, 0, 1));
    let victim = ecs.create_entity(fighter(4, 3, 10, 0, 1));
    ecs.queue_delete(victim);
    assert!(ecs.is_alive(victim));
    assert_eq!(ecs.entities[victim.id].position, Some(Position { x: 4, y: 3 }));
    ecs.maintain();
    assert!(!ecs.is_alive(victim));
    assert_eq!(ecs.entities[victim.id].position, None);
    assert!(ecs.entities[victim.id].combat_stats.is_none());
    assert!(ecs.pending_deletes.is_empty());
    let next = ecs.create_entity(fighter(5, 3, 10, 0, 1));
    assert_eq!(next.id, 2);
}

#[test]
fn soundness_is_told_by_the_world_itself() {
    let mut ecs = arena();
    assert!(ecs.is_well_formed());
    assert!(!ecs.is_sound());
    let player = ecs.create_entity(watcher(4, 4, 8));
    assert!(ecs.is_sound());
    ecs.entities[player.id].position = Some(Position { x: 80, y: 4 });
    assert!(!ecs.is_sound());
    ecs.entities[player.id].position = Some(Position { x: 79, y: 41 });
    assert!(ecs.is_sound());
    ecs.entities[player.id].viewshed.as_mut().unwrap().range = 23171;
    assert!(!ecs.is_well_formed());
    ecs.entities[player.id].viewshed.as_mut().unwrap().range = 23170;
    assert!(ecs.is_sound());
    ecs.queue_create(fighter(-1, 0, 1, 0, 0));
    assert!(!ecs.is_sound());
    ecs.pending_creates.clear();
    ecs.map.blocked.pop();
    assert!(!ecs.map.is_sound());
    assert!(!ecs.is_sound());
    ecs.map.blocked.push(false);
    assert!(ecs.map.is_sound());
    ecs.map.width = 0;
    assert!(!ecs.map.is_sound());
}

#[test]
fn a_restored_map_takes_the_place_of_the_old_one() {
    let mut ecs = arena();
    let player = ecs.create_entity(watcher(4, 4, 8));
    VisibilitySystem {}.run_now(&mut ecs);
    MapIndexingSystem {}.run_now(&mut ecs);
    let mut other = TileMap::blank(3);
    other.add_room(Rect::new(1, 1, 8, 8), true);
    other.revealed_tiles[7] = true;
    let tiles = other.tiles.clone();
    assert!(ecs.restore_map(other));
    assert_eq!(ecs.map.depth, 3);
    assert_eq!(ecs.map.tiles, tiles);
    assert!(ecs.map.revealed_tiles[7]);
    assert!(ecs.entities[player.id].viewshed.as_ref().unwrap().dirty);
    assert_eq!(ecs.entities[player.id].position, Some(Position { x: 4, y: 4 }));
    assert!(ecs.is_sound());
    // a map that is out of shape is refused, and nothing changes
    let mut broken = TileMap::blank(9);
    broken.tiles.pop();
    assert!(!ecs.restore_map(broken));
    assert_eq!(ecs.map.depth, 3);
    assert_eq!(ecs.map.tiles, tiles);
}

#[test]
fn creation_waits_for_the_commit() {
    let mut ecs = arena();
    let player = ecs.create_entity(fighter(3, 3, 10, 0, 1));
    let doomed = ecs.create_entity(fighter(4, 3, 10, 0, 1));
    ecs.queue_create(fighter(5, 3, 7, 0, 1));
    ecs.queue_create(fighter(6, 3, 8, 0, 1));
    ecs.queue_delete(doomed);
    assert_eq!(ecs.entities.len(), 2);
    assert_eq!(ecs.pending_creates.len(), 2);
    assert!(!ecs.is_alive(Entity { id: 2 }));
    // a pass of a system does not see what waits
    MapIndexingSystem {}.run_now(&mut ecs);
    let listed: usize = ecs.map.tile_content.iter().map(|c| c.len()).sum();
    assert_eq!(listed, 2);
    ecs.maintain();
    assert_eq!(ecs.entities.len(), 4);
    assert!(ecs.pending_creates.is_empty() && ecs.pending_deletes.is_empty());
    assert!(ecs.is_alive(player) && !ecs.is_alive(doomed));
    assert!(ecs.is_alive(Entity { id: 2 }) && ecs.is_alive(Entity { id: 3 }));
    assert_eq!(ecs.entities[2].position, Some(Position { x: 5, y: 3 }));
    assert_eq!(ecs.entities[2].combat_stats.unwrap().hp, 7);
    assert_eq!(ecs.entities[3].combat_stats.unwrap().hp, 8);
    ecs.maintain();
    assert_eq!(ecs.entities.len(), 4);
}

#[test]
fn commit_never_deletes_the_player() {
    let mut ecs = arena();
    let player = ecs.create_entity(fighter(3, 3, 10, 0, 1));
    ecs.queue_delete(player);
    ecs.queue_delete(Entity { id: 77 });
    ecs.maintain();
    assert!(ecs.is_alive(player));
    assert!(ecs.pending_deletes.is_empty());
}

#[test]
fn draw_order_puts_the_lowest_render_order_last() {
    let look = |render_order: i32| Renderable { glyph: 1, fg: Color::white(), bg: Color::black(), render_order };
    let mut ecs = arena();
    let mut records = Vec::new();
    for order in [0, 2, 1, 2, 1, 0, 2] {
        let mut r = fighter(4, 4, 10, 0, 1);
        r.renderable = Some(look(order));
        records.push(r);
    }
    records[3].alive = false;
    records[4].position = None;
    for r in records {
        ecs.create_entity(r);
    }
    ecs.create_entity(fighter(4, 4, 10, 0, 1));
    let order: Vec<usize> = ecs.draw_order().iter().map(|e| e.id).collect();
    assert_eq!(order, vec![1, 6, 2, 0, 5]);
    assert!(arena().draw_order().is_empty());
}

#[test]
fn indexing_blocks_walls_and_blocking_entities_only() {
    let mut ecs = arena();
    let _player = ecs.create_entity(fighter(3, 3, 10, 0, 1));
    let mut blocker = fighter(5, 6, 10, 0, 1);
    blocker.blocks_tile = true;
    let blocker = ecs.create_entity(blocker);
    let mut ghost = fighter(7, 7, 10, 0, 1);
    ghost.blocks_tile = true;
    ghost.alive = false;
    ecs.create_entity(ghost);
    let mut adrift = EntityRecord::new();
    adrift.blocks_tile = true;
    ecs.create_entity(adrift);
    // stale data that the system has to overwrite
    ecs.map.blocked[0] = false;
    let stale = ecs.map.xy_idx(9, 9);
    ecs.map.blocked[stale] = true;
    ecs.map.tile_content[stale].push(Entity { id: 42 });

    MapIndexingSystem {}.run_now(&mut ecs);

    let blocker_idx = ecs.map.xy_idx(5, 6);
    for idx in 0..ecs.map.tiles.len() {
        let expected = ecs.map.tiles[idx] == TileType::Wall || idx == blocker_idx;
        assert_eq!(ecs.map.blocked[idx], expected, "tile {}", idx);
    }
    assert_eq!(ecs.map.tile_content[blocker_idx], vec![blocker]);
    assert_eq!(ecs.map.tile_content[ecs.map.xy_idx(3, 3)], vec![Entity { id: 0 }]);
    assert!(ecs.map.tile_content[ecs.map.xy_idx(7, 7)].is_empty());
    assert!(ecs.map.tile_content[stale].is_empty());
    let listed: usize = ecs.map.tile_content.iter().map(|c| c.len()).sum();
    assert_eq!(listed, 2);
}

#[test]
fn indexing_lists_occupants_by_ascending_identifier() {
    let mut ecs = arena();
    let a = ecs.create_entity(fighter(4, 4, 10, 0, 1));
    let _b = ecs.create_entity(fighter(5, 4, 10, 0, 1));
    let c = ecs.create_entity(fighter(4, 4, 10, 0, 1));
    MapIndexingSystem {}.run_now(&mut ecs);
    MapIndexingSystem {}.run_now(&mut ecs);
    assert_eq!(ecs.map.tile_content[ecs.map.xy_idx(4, 4)], vec![a, c]);
}

#[test]
fn player_sees_the_room_and_reveals_it() {
    let mut ecs = arena();
    let player = ecs.create_entity(watcher(7, 7, 8));
    VisibilitySystem {}.run_now(&mut ecs);
    let viewshed = ecs.entities[player.id].viewshed.as_ref().unwrap();
    assert!(!viewshed.dirty);
    assert_eq!(viewshed.range, 8);
    assert!(viewshed.visible_tiles.contains(&Position { x: 7, y: 7 }));
    // every floor tile of the room is in sight, and nothing beyond its walls
    for y in 3..=12 {
        for x in 3..=12 {
            assert!(viewshed.visible_tiles.contains(&Position { x, y }), "floor {},{}", x, y);
        }
    }
    for p in viewshed.visible_tiles.iter() {
        assert!(p.x >= 2 && p.x <= 13 && p.y >= 2 && p.y <= 13, "saw {},{}", p.x, p.y);
    }
    let mut sorted: Vec<(i32, i32)> = viewshed.visible_tiles.iter().map(|p| (p.x, p.y)).collect();
    sorted.sort();
    sorted.dedup();
    assert_eq!(sorted.len(), viewshed.visible_tiles.len());
    for idx in 0..ecs.map.tiles.len() {
        let x = (idx % 80) as i32;
        let y = (idx / 80) as i32;
        let seen = viewshed.visible_tiles.contains(&Position { x, y });
        assert_eq!(ecs.map.visible_tiles[idx], seen);
        assert_eq!(ecs.map.revealed_tiles[idx], seen);
    }
}

#[test]
fn sight_ends_at_the_range() {
    let mut ecs = arena();
    let player = ecs.create_entity(watcher(7, 7, 2));
    VisibilitySystem {}.run_now(&mut ecs);
    let viewshed = ecs.entities[player.id].viewshed.as_ref().unwrap();
    assert!(viewshed.visible_tiles.contains(&Position { x: 9, y: 7 }));
    assert!(viewshed.visible_tiles.contains(&Position { x: 7, y: 5 }));
    assert!(!viewshed.visible_tiles.contains(&Position { x: 10, y: 7 }));
    for p in viewshed.visible_tiles.iter() {
        assert!((p.x - 7).abs() <= 2 && (p.y - 7).abs() <= 2);
    }
}

#[test]
fn visibility_without_dirty_viewsheds_changes_nothing() {
    let mut ecs = arena();
    let player = ecs.create_entity(watcher(7, 7, 8));
    ecs.create_entity(watcher(4, 4, 8));
    VisibilitySystem {}.run_now(&mut ecs);
    let visible = ecs.map.visible_tiles.clone();
    let revealed = ecs.map.revealed_tiles.clone();
    let tiles = ecs.entities[player.id].viewshed.as_ref().unwrap().visible_tiles.clone();
    VisibilitySystem {}.run_now(&mut ecs);
    assert_eq!(ecs.map.visible_tiles, visible);
    assert_eq!(ecs.map.revealed_tiles, revealed);
    assert_eq!(ecs.entities[player.id].viewshed.as_ref().unwrap().visible_tiles, tiles);
    assert!(ecs.entities.iter().all(|r| r.viewshed.as_ref().map_or(true, |v| !v.dirty)));
}

#[test]
fn clean_viewshed_is_not_recomputed() {
    let mut ecs = arena();
    let mut r = watcher(7, 7, 8);
    r.viewshed = Some(Viewshed { visible_tiles: vec![Position { x: 1, y: 1 }], range: 8, dirty: false });
    let player = ecs.create_entity(r);
    VisibilitySystem {}.run_now(&mut ecs);
    assert_eq!(
        ecs.entities[player.id].viewshed.as_ref().unwrap().visible_tiles,
        vec![Position { x: 1, y: 1 }]
    );
    assert!(ecs.map.visible_tiles.iter().all(|b| !*b));
}

#[test]
fn revealed_tiles_are_never_lost() {
    let mut ecs = arena();
    ecs.map.add_room(Rect::new(30, 2, 10, 10), true);
    let player = ecs.create_entity(watcher(4, 4, 3));
    VisibilitySystem {}.run_now(&mut ecs);
    let first = ecs.map.revealed_tiles.clone();
    assert!(first.iter().any(|b| *b));
    ecs.entities[player.id].position = Some(Position { x: 35, y: 7 });
    ecs.entities[player.id].viewshed.as_mut().unwrap().dirty = true;
    VisibilitySystem {}.run_now(&mut ecs);
    for idx in 0..first.len() {
        if first[idx] {
            assert!(ecs.map.revealed_tiles[idx]);
        }
        if ecs.map.visible_tiles[idx] {
            assert!(ecs.map.revealed_tiles[idx]);
        }
    }
    let start = ecs.map.xy_idx(4, 4);
    assert!(!ecs.map.visible_tiles[start]);
    assert!(ecs.map.revealed_tiles[start]);
    let now = ecs.map.xy_idx(35, 7);
    assert!(ecs.map.visible_tiles[now]);
}

#[test]
fn monsters_see_without_marking_the_map() {
    let mut ecs = arena();
    let mut still = watcher(4, 4, 8);
    still.viewshed.as_mut().unwrap().dirty = false;
    ecs.create_entity(still);
    let monster = ecs.create_entity(watcher(9, 9, 8));
    VisibilitySystem {}.run_now(&mut ecs);
    let viewshed = ecs.entities[monster.id].viewshed.as_ref().unwrap();
    assert!(!viewshed.dirty);
    assert!(viewshed.visible_tiles.contains(&Position { x: 4, y: 4 }));
    assert!(ecs.map.visible_tiles.iter().all(|b| !*b));
    assert!(ecs.map.revealed_tiles.iter().all(|b| !*b));
}

#[test]
fn viewshed_without_a_place_stays_dirty() {
    let mut ecs = arena();
    ecs.create_entity(watcher(4, 4, 8));
    let mut r = EntityRecord::new();
    r.viewshed = Some(Viewshed { visible_tiles: Vec::new(), range: 8, dirty: true });
    let adrift = ecs.create_entity(r);
    VisibilitySystem {}.run_now(&mut ecs);
    assert!(ecs.entities[adrift.id].viewshed.as_ref().unwrap().dirty);
}

#[test]
fn melee_of_power_five_on_defense_two_deals_three() {
    let mut ecs = arena();
    let attacker = ecs.create_entity(fighter(4, 4, 30, 2, 5));
    let defender = ecs.create_entity(fighter(5, 4, 16, 2, 4));
    ecs.entities[attacker.id].wants_to_melee = Some(WantsToMelee { target: defender });
    MeleeCombatSystem {}.run_now(&mut ecs);
    assert_eq!(amounts(&ecs, defender), Some(vec![3]));
    assert_eq!(amounts(&ecs, defender).unwrap().iter().sum::<i32>(), 3);
    assert!(ecs.entities[attacker.id].wants_to_melee.is_none());
    assert_eq!(ecs.entities[defender.id].combat_stats.unwrap().hp, 16);
    assert_eq!(
        ecs.log.entries.last(),
        Some(&LogEvent::Hit { attacker, target: defender, damage: 3 })
    );
}

#[test]
fn melee_against_equal_or_higher_defense_is_logged_and_deals_nothing() {
    for defense in [5, 9] {
        let mut ecs = arena();
        let attacker = ecs.create_entity(fighter(4, 4, 30, 2, 5));
        let defender = ecs.create_entity(fighter(5, 4, 16, defense, 4));
        ecs.entities[attacker.id].wants_to_melee = Some(WantsToMelee { target: defender });
        MeleeCombatSystem {}.run_now(&mut ecs);
        assert!(ecs.entities[defender.id].suffer_damage.is_none());
        assert!(ecs.entities[attacker.id].wants_to_melee.is_none());
        assert_eq!(ecs.log.entries, vec![LogEvent::Welcome, LogEvent::NoDamage { attacker, target: defender }]);
    }
}

#[test]
fn melee_blows_on_one_defender_add_up_in_attacker_order() {
    let mut ecs = arena();
    let a = ecs.create_entity(fighter(4, 4, 30, 0, 3));
    let d = ecs.create_entity(fighter(5, 4, 16, 1, 4));
    let b = ecs.create_entity(fighter(6, 4, 30, 0, 7));
    ecs.entities[d.id].suffer_damage = Some(SufferDamage { amounts: vec![1] });
    ecs.entities[b.id].wants_to_melee = Some(WantsToMelee { target: d });
    ecs.entities[a.id].wants_to_melee = Some(WantsToMelee { target: d });
    MeleeCombatSystem {}.run_now(&mut ecs);
    assert_eq!(amounts(&ecs, d), Some(vec![1, 2, 6]));
}

#[test]
fn melee_at_a_vanished_target_only_removes_the_intent() {
    let mut ecs = arena();
    let attacker = ecs.create_entity(fighter(4, 4, 30, 2, 5));
    let gone = ecs.create_entity(fighter(5, 4, 16, 2, 4));
    ecs.queue_delete(gone);
    ecs.maintain();
    ecs.entities[attacker.id].wants_to_melee = Some(WantsToMelee { target: gone });
    let log = ecs.log.entries.clone();
    MeleeCombatSystem {}.run_now(&mut ecs);
    assert!(ecs.entities[attacker.id].wants_to_melee.is_none());
    assert!(ecs.entities[gone.id].suffer_damage.is_none());
    assert_eq!(ecs.log.entries, log);

    ecs.entities[attacker.id].wants_to_melee = Some(WantsToMelee { target: Entity { id: 999 } });
    MeleeCombatSystem {}.run_now(&mut ecs);
    assert!(ecs.entities[attacker.id].wants_to_melee.is_none());
}

#[test]
fn melee_damage_stays_within_i32() {
    let mut ecs = arena();
    let attacker = ecs.create_entity(fighter(4, 4, 30, 0, i32::MAX));
    let defender = ecs.create_entity(fighter(5, 4, 16, i32::MIN, 4));
    ecs.entities[attacker.id].wants_to_melee = Some(WantsToMelee { target: defender });
    MeleeCombatSystem {}.run_now(&mut ecs);
    assert_eq!(amounts(&ecs, defender), Some(vec![i32::MAX]));
    assert_eq!(saturate(i64::MAX), i32::MAX);
    assert_eq!(saturate(i64::MIN), i32::MIN);
    assert_eq!(saturate(-17), -17);
}

#[test]
fn damage_takes_the_sum_from_health_and_clears_the_accumulator() {
    let mut ecs = arena();
    let a = ecs.create_entity(fighter(4, 4, 16, 1, 4));
    let b = ecs.create_entity(fighter(5, 4, 16, 1, 4));
    let c = ecs.create_entity(fighter(6, 4, 16, 1, 4));
    ecs.entities[a.id].suffer_damage = Some(SufferDamage { amounts: vec![3, 4, 1] });
    ecs.entities[b.id].suffer_damage = Some(SufferDamage { amounts: vec![20] });
    DamageSystem {}.run_now(&mut ecs);
    assert_eq!(ecs.entities[a.id].combat_stats.unwrap().hp, 8);
    assert_eq!(ecs.entities[b.id].combat_stats.unwrap().hp, -4);
    assert_eq!(ecs.entities[c.id].combat_stats.unwrap().hp, 16);
    assert_eq!(ecs.entities[a.id].combat_stats.unwrap().max_hp, 16);
    assert!(ecs.entities.iter().all(|r| r.suffer_damage.is_none()));
    // both are still there: removal is the sweep's business
    assert!(ecs.is_alive(a) && ecs.is_alive(b));
    assert!(ecs.pending_deletes.is_empty());
}

#[test]
fn damage_on_an_entity_without_health_is_dropped() {
    let mut ecs = arena();
    let mut r = EntityRecord::new();
    r.suffer_damage = Some(SufferDamage { amounts: vec![5] });
    let e = ecs.create_entity(r);
    DamageSystem {}.run_now(&mut ecs);
    assert!(ecs.entities[e.id].suffer_damage.is_none());
    assert!(ecs.entities[e.id].combat_stats.is_none());
}

#[test]
fn damage_sum_is_exact_and_health_saturates() {
    assert_eq!(sum_amounts(&vec![]), 0);
    assert_eq!(sum_amounts(&vec![i32::MAX, i32::MAX, 1]), 2 * (i32::MAX as i128) + 1);
    assert_eq!(sum_amounts(&vec![-5, 3]), -2);
    let mut ecs = arena();
    let a = ecs.create_entity(fighter(4, 4, 16, 1, 4));
    ecs.entities[a.id].combat_stats = Some(CombatStats { max_hp: 16, hp: i32::MIN + 5, defense: 0, power: 0 });
    ecs.entities[a.id].suffer_damage = Some(SufferDamage { amounts: vec![i32::MAX, i32::MAX] });
    DamageSystem {}.run_now(&mut ecs);
    assert_eq!(ecs.entities[a.id].combat_stats.unwrap().hp, i32::MIN);
}

#[test]
fn sweep_queues_the_dead_and_spares_the_player() {
    let mut ecs = arena();
    let player = ecs.create_entity(fighter(4, 4, 30, 2, 5));
    let dead = ecs.create_entity(fighter(5, 4, 16, 1, 4));
    let hurt = ecs.create_entity(fighter(6, 4, 16, 1, 4));
    let gone = ecs.create_entity(fighter(7, 4, 16, 1, 4));
    ecs.entities[dead.id].combat_stats.as_mut().unwrap().hp = 0;
    ecs.entities[hurt.id].combat_stats.as_mut().unwrap().hp = 1;
    ecs.entities[gone.id].combat_stats.as_mut().unwrap().hp = -7;
    let player_dead = delete_the_dead(&mut ecs);
    assert!(!player_dead);
    assert_eq!(ecs.pending_deletes, vec![dead, gone]);
    assert!(ecs.is_alive(dead));
    assert_eq!(
        ecs.log.entries,
        vec![LogEvent::Welcome, LogEvent::Died { who: dead }, LogEvent::Died { who: gone }]
    );
    ecs.maintain();
    assert!(!ecs.is_alive(dead) && !ecs.is_alive(gone));
    assert!(ecs.is_alive(hurt) && ecs.is_alive(player));
}

#[test]
fn sweep_signals_the_death_of_the_player_without_deleting() {
    let mut ecs = arena();
    let player = ecs.create_entity(fighter(4, 4, 30, 2, 5));
    ecs.entities[player.id].combat_stats.as_mut().unwrap().hp = -1;
    let player_dead = delete_the_dead(&mut ecs);
    assert!(player_dead);
    assert!(ecs.pending_deletes.is_empty());
    assert_eq!(ecs.log.entries.last(), Some(&LogEvent::PlayerDied));
    ecs.maintain();
    assert!(ecs.is_alive(player));
}
