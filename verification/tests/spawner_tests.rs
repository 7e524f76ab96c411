use doghack::components::{
    AreaOfEffect, Color, CombatStats, Confusion, DefenseBonus, EquipmentSlot, Equippable, InflictsDamage,
    MeleePowerBonus, Position, ProvidesHealing, Ranged, Renderable,
};
use doghack::map::TileMap;
use doghack::random_table::RandomTable;
use doghack::spawner;
use doghack::world::World;
use doghack::Rect;

/// A world whose map has one room with floor from (3, 3) to (12, 12).
fn arena() -> World {
    let mut map = TileMap::blank(1);
    map.add_room(Rect::new(2, 2, 10, 10), true);
    World::new(map, rltk::RandomNumberGenerator::seeded(1))
}

const WHITE: Color = Color { r: 255, g: 255, b: 255 };
const BLACK: Color = Color { r: 0, g: 0, b: 0 };

#[test]
fn the_player_sees_eight_tiles_far_and_starts_healthy() {
    let mut ecs = arena();
    let e = spawner::player(&mut ecs, 4, 9);
    assert_eq!(e.id, 0);
    let r = &ecs.entities[0];
    assert!(r.alive && r.player && !r.monster && !r.item && !r.blocks_tile);
    assert_eq!(r.position, Some(Position { x: 4, y: 9 }));
    assert_eq!(r.renderable, Some(Renderable { glyph: 3, fg: WHITE, bg: BLACK, render_order: 0 }));
    assert_eq!(r.name.as_deref(), Some("Player"));
    assert_eq!(r.combat_stats, Some(CombatStats { max_hp: 30, hp: 30, defense: 2, power: 5 }));
    let v = r.viewshed.as_ref().unwrap();
    assert!(v.dirty && v.range == 8 && v.visible_tiles.is_empty());
}

#[test]
fn monsters_block_their_tile_and_are_drawn_above_items() {
    let mut ecs = arena();
    spawner::potato(&mut ecs, 4, 4);
    spawner::broccoli(&mut ecs, 5, 4);
    let potato = &ecs.entities[0];
    assert!(potato.monster && potato.blocks_tile && !potato.player && !potato.item);
    assert_eq!(potato.name.as_deref(), Some("Potato"));
    assert_eq!(potato.renderable, Some(Renderable { glyph: 9, fg: WHITE, bg: BLACK, render_order: 1 }));
    assert_eq!(potato.combat_stats, Some(CombatStats { max_hp: 16, hp: 16, defense: 1, power: 4 }));
    assert!(potato.viewshed.as_ref().unwrap().dirty);
    let broccoli = &ecs.entities[1];
    assert_eq!(broccoli.name.as_deref(), Some("Broccoli"));
    assert_eq!(broccoli.renderable.unwrap().glyph, 4);
    assert_eq!(broccoli.position, Some(Position { x: 5, y: 4 }));
}

#[test]
fn consumables_carry_their_effects() {
    let mut ecs = arena();
    spawner::ketchup(&mut ecs, 4, 4);
    spawner::meat_beam_scroll(&mut ecs, 4, 4);
    spawner::fireball_scroll(&mut ecs, 4, 4);
    spawner::food_coma_scroll(&mut ecs, 4, 4);
    for r in ecs.entities.iter() {
        assert!(r.item && r.consumable && !r.monster && !r.blocks_tile);
        assert_eq!(r.renderable.unwrap().render_order, 2);
        assert_eq!(r.position, Some(Position { x: 4, y: 4 }));
        assert!(r.equippable.is_none() && r.viewshed.is_none() && r.combat_stats.is_none());
    }
    let ketchup = &ecs.entities[0];
    assert_eq!(ketchup.name.as_deref(), Some("Ketchup"));
    assert_eq!(ketchup.renderable.unwrap().glyph, 5);
    assert_eq!(ketchup.provides_healing, Some(ProvidesHealing { heal_amount: 8 }));
    assert!(ketchup.ranged.is_none());
    let beam = &ecs.entities[1];
    assert_eq!(beam.name.as_deref(), Some("Meat Beam Scroll"));
    assert_eq!(beam.renderable.unwrap().glyph, 7);
    assert_eq!(beam.ranged, Some(Ranged { range: 6 }));
    assert_eq!(beam.inflicts_damage, Some(InflictsDamage { damage: 8 }));
    assert!(beam.area_of_effect.is_none());
    let fireball = &ecs.entities[2];
    assert_eq!(fireball.name.as_deref(), Some("Fireball Scroll"));
    assert_eq!(fireball.renderable.unwrap().glyph, 6);
    assert_eq!(fireball.inflicts_damage, Some(InflictsDamage { damage: 20 }));
    assert_eq!(fireball.area_of_effect, Some(AreaOfEffect { radius: 3 }));
    let coma = &ecs.entities[3];
    assert_eq!(coma.name.as_deref(), Some("Food Coma Scroll"));
    assert_eq!(coma.renderable.unwrap().glyph, 8);
    assert_eq!(coma.confusion, Some(Confusion { turns: 4 }));
    assert!(coma.inflicts_damage.is_none());
}

#[test]
fn weapons_and_shields_are_equipment() {
    let mut ecs = arena();
    spawner::spatula(&mut ecs, 4, 4);
    spawner::fork(&mut ecs, 4, 4);
    spawner::bread_knife(&mut ecs, 4, 4);
    spawner::shield(&mut ecs, 4, 4);
    spawner::tower_shield(&mut ecs, 4, 4);
    let expected = [("Spatula", 1, 1), ("Fork", 2, 2), ("Bread Knife", 0, 4)];
    for (i, (name, glyph, power)) in expected.iter().enumerate() {
        let r = &ecs.entities[i];
        assert!(r.item && !r.consumable);
        assert_eq!(r.name.as_deref(), Some(*name));
        assert_eq!(r.renderable, Some(Renderable { glyph: *glyph, fg: WHITE, bg: BLACK, render_order: 2 }));
        assert_eq!(r.equippable, Some(Equippable { slot: EquipmentSlot::Melee }));
        assert_eq!(r.melee_power_bonus, Some(MeleePowerBonus { power: *power }));
        assert!(r.defense_bonus.is_none());
    }
    let shield = &ecs.entities[3];
    assert_eq!(shield.name.as_deref(), Some("Shield"));
    // the glyph is that of '(' in code page 437
    assert_eq!(
        shield.renderable,
        Some(Renderable { glyph: 40, fg: Color { r: 0, g: 255, b: 255 }, bg: BLACK, render_order: 2 })
    );
    assert_eq!(shield.renderable.unwrap().glyph, rltk::to_cp437('('));
    assert_eq!(shield.equippable, Some(Equippable { slot: EquipmentSlot::Shield }));
    assert_eq!(shield.defense_bonus, Some(DefenseBonus { defense: 1 }));
    let tower = &ecs.entities[4];
    assert_eq!(tower.name.as_deref(), Some("Tower Shield"));
    assert_eq!(tower.renderable.unwrap().fg, Color { r: 255, g: 255, b: 0 });
    assert_eq!(tower.defense_bonus, Some(DefenseBonus { defense: 3 }));
    assert!(tower.item && tower.melee_power_bonus.is_none());
}

#[test]
fn colours_are_the_named_ones() {
    assert_eq!(Color::white(), WHITE);
    assert_eq!(Color::black(), BLACK);
    assert_eq!(Color::cyan(), Color { r: 0, g: 255, b: 255 });
    assert_eq!(Color::yellow(), Color { r: 255, g: 255, b: 0 });
}

#[test]
fn spawn_named_knows_the_names_of_the_table() {
    let mut ecs = arena();
    let names = [
        "Potato",
        "Broccoli",
        "Ketchup",
        "Fireball Scroll",
        "Food Coma Scroll",
        "Meat Beam Scroll",
        "Spatula",
        "Fork",
        "Bread Knife",
        "Shield",
        "Tower Shield",
    ];
    for (i, name) in names.iter().enumerate() {
        spawner::spawn_named(&mut ecs, &name.to_string(), 3 + i as i32, 5);
        assert_eq!(ecs.entities.len(), i + 1);
        assert_eq!(ecs.entities[i].name.as_deref(), Some(*name));
        assert_eq!(ecs.entities[i].position, Some(Position { x: 3 + i as i32, y: 5 }));
    }
    for unknown in ["None", "potato", ""] {
        spawner::spawn_named(&mut ecs, &unknown.to_string(), 4, 4);
    }
    assert_eq!(ecs.entities.len(), names.len());
}

#[test]
fn table_draws_by_weight() {
    let table = RandomTable::new().add("a", 3).add("skipped", 0).add("b", 1).add("less", -4).add("c", 2);
    assert_eq!(table.total_weight, 6);
    assert_eq!(table.entries.len(), 3);
    let drawn: Vec<String> = (0..6).map(|roll| table.pick(roll)).collect();
    assert_eq!(drawn, vec!["a", "a", "a", "b", "c", "c"]);
    assert_eq!(table.pick(6), "None");
    assert_eq!(table.pick(-1), "a");
    let mut rng = rltk::RandomNumberGenerator::seeded(4);
    let mut seen = [0usize; 3];
    for _ in 0..600 {
        match table.roll(&mut rng).as_str() {
            "a" => seen[0] += 1,
            "b" => seen[1] += 1,
            "c" => seen[2] += 1,
            other => panic!("drew {}", other),
        }
    }
    assert!(seen[0] > seen[2] && seen[2] > seen[1] && seen[1] > 0);
}

#[test]
fn empty_table_draws_none() {
    let table = RandomTable::new();
    let mut rng = rltk::RandomNumberGenerator::seeded(4);
    assert_eq!(table.roll(&mut rng), "None");
    assert_eq!(table.pick(0), "None");
    let table = RandomTable::new().add("never", 0);
    assert_eq!(table.roll(&mut rng), "None");
}

#[test]
fn room_table_grows_with_the_depth() {
    let weights = |depth: i32| -> Vec<(String, i32)> {
        spawner::room_table(depth).entries.iter().map(|e| (e.name.clone(), e.weight)).collect()
    };
    let named = |list: &[(&str, i32)]| -> Vec<(String, i32)> { list.iter().map(|(n, w)| (n.to_string(), *w)).collect() };
    assert_eq!(
        weights(1),
        named(&[
            ("Broccoli", 10),
            ("Potato", 2),
            ("Ketchup", 7),
            ("Fireball Scroll", 2),
            ("Food Coma Scroll", 2),
            ("Meat Beam Scroll", 4),
            ("Spatula", 3),
            ("Shield", 3),
        ])
    );
    assert_eq!(spawner::room_table(1).total_weight, 33);
    assert_eq!(
        weights(4),
        named(&[
            ("Broccoli", 10),
            ("Potato", 5),
            ("Ketchup", 7),
            ("Fireball Scroll", 4),
            ("Food Coma Scroll", 4),
            ("Meat Beam Scroll", 4),
            ("Spatula", 3),
            ("Fork", 3),
            ("Bread Knife", 2),
            ("Shield", 3),
            ("Tower Shield", 3),
        ])
    );
    assert_eq!(spawner::room_table(0).total_weight, 32);
    // halves are rounded toward zero, and what has no weight is left out
    assert_eq!(
        weights(-3),
        named(&[
            ("Broccoli", 10),
            ("Ketchup", 7),
            ("Fireball Scroll", 1),
            ("Food Coma Scroll", 1),
            ("Meat Beam Scroll", 4),
            ("Spatula", 3),
            ("Shield", 3),
        ])
    );
    assert_eq!(weights(i32::MIN), named(&[("Broccoli", 10), ("Ketchup", 7), ("Meat Beam Scroll", 4), ("Spatula", 3), ("Shield", 3)]));
    // the deepest level: the total weight still fits
    assert_eq!(spawner::MAX_DEPTH, 429_496_723);
    assert_eq!(spawner::room_table(spawner::MAX_DEPTH).total_weight, 2_147_483_642);
}

#[test]
fn a_room_is_filled_on_its_floor_one_thing_per_tile() {
    for seed in 0..30u64 {
        let mut map = TileMap::blank(1);
        let room = Rect::new(20, 10, 8, 6);
        map.add_room(room, true);
        let mut ecs = World::new(map, rltk::RandomNumberGenerator::seeded(seed));
        spawner::player(&mut ecs, 24, 13);
        let depth = 1 + (seed % 5) as i32;
        spawner::spawn_room(&mut ecs, &room, depth);
        let spawned = ecs.entities.len() - 1;
        assert!(spawned as i32 <= spawner::MAX_MONSTERS + depth - 1);
        if depth >= 4 {
            assert!(spawned >= 1);
        }
        let mut tiles = Vec::new();
        for r in ecs.entities.iter().skip(1) {
            assert!(r.alive && (r.monster != r.item));
            let p = r.position.unwrap();
            assert!(p.x > room.x1 && p.x <= room.x2 && p.y > room.y1 && p.y <= room.y2);
            tiles.push((p.x, p.y));
        }
        tiles.sort();
        tiles.dedup();
        assert_eq!(tiles.len(), spawned);
        assert!(ecs.entities[0].player);
    }
}

#[test]
fn a_room_above_the_first_level_gets_nothing() {
    for seed in 0..10u64 {
        let mut map = TileMap::blank(1);
        let room = Rect::new(20, 10, 8, 6);
        map.add_room(room, true);
        let mut ecs = World::new(map, rltk::RandomNumberGenerator::seeded(seed));
        spawner::spawn_room(&mut ecs, &room, -3);
        spawner::spawn_room(&mut ecs, &room, i32::MIN);
        assert!(ecs.entities.is_empty());
    }
}

#[test]
fn spawn_points_are_spawned_in_their_order() {
    let mut ecs = arena();
    let points = vec![
        spawner::SpawnPoint { idx: 5 * 80 + 4, name: "Fork".to_string() },
        spawner::SpawnPoint { idx: 6 * 80 + 7, name: "Nothing".to_string() },
        spawner::SpawnPoint { idx: 3 * 80 + 12, name: "Potato".to_string() },
    ];
    spawner::spawn_points(&mut ecs, &points);
    assert_eq!(ecs.entities.len(), 2);
    assert_eq!(ecs.entities[0].name.as_deref(), Some("Fork"));
    assert_eq!(ecs.entities[0].position, Some(Position { x: 4, y: 5 }));
    assert_eq!(ecs.entities[1].name.as_deref(), Some("Potato"));
    assert_eq!(ecs.entities[1].position, Some(Position { x: 12, y: 3 }));
}
