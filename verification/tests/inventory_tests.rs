use doghack::components::{
    AreaOfEffect, CombatStats, Confusion, Entity, EquipmentSlot, Equippable, Equipped, InBackpack, InflictsDamage,
    Position, ProvidesHealing, Ranged, WantsToDropItem, WantsToPickupItem, WantsToRemoveItem, WantsToUseItem,
};
use doghack::gamelog::LogEvent;
use doghack::inventory_system::{ItemCollectionSystem, ItemDropSystem, ItemRemoveSystem, ItemUseSystem};
use doghack::map::TileMap;
use doghack::map_indexing_system::MapIndexingSystem;
use doghack::world::{EntityRecord, World};
use doghack::Rect;

/// A world whose map has one room with floor from (3, 3) to (12, 12).
fn arena() -> World {
    let mut map = TileMap::blank(1);
    map.add_room(Rect::new(2, 2, 10, 10), true);
    World::new(map, rltk::RandomNumberGenerator::seeded(1))
}

fn fighter(x: i32, y: i32, hp: i32, max_hp: i32) -> EntityRecord {
    let mut r = EntityRecord::new();
    r.position = Some(Position { x, y });
    r.combat_stats = Some(CombatStats { max_hp, hp, defense: 1, power: 4 });
    r
}

fn thing(x: i32, y: i32) -> EntityRecord {
    let mut r = EntityRecord::new();
    r.position = Some(Position { x, y });
    r.item = true;
    r
}

fn potion(x: i32, y: i32, heal_amount: i32) -> EntityRecord {
    let mut r = thing(x, y);
    r.consumable = true;
    r.provides_healing = Some(ProvidesHealing { heal_amount });
    r
}

fn weapon(slot: EquipmentSlot, owner: Entity) -> EntityRecord {
    let mut r = EntityRecord::new();
    r.item = true;
    r.equippable = Some(Equippable { slot });
    r.in_backpack = Some(InBackpack { owner });
    r
}

fn amounts(ecs: &World, e: Entity) -> Option<Vec<i32>> {
    ecs.entities[e.id].suffer_damage.as_ref().map(|d| d.amounts.clone())
}

#[test]
fn pickup_moves_the_item_from_the_map_to_the_backpack() {
    let mut ecs = arena();
    let player = ecs.create_entity(fighter(4, 4, 30, 30));
    let item = ecs.create_entity(thing(4, 4));
    ecs.entities[player.id].wants_to_pickup = Some(WantsToPickupItem { collected_by: player, item });
    ItemCollectionSystem {}.run_now(&mut ecs);
    assert_eq!(ecs.entities[item.id].position, None);
    assert_eq!(ecs.entities[item.id].in_backpack, Some(InBackpack { owner: player }));
    assert!(ecs.entities[player.id].wants_to_pickup.is_none());
    assert_eq!(ecs.log.entries.last(), Some(&LogEvent::PickedUp { who: player, item }));
    assert_eq!(ecs.entities[player.id].position, Some(Position { x: 4, y: 4 }));
}

#[test]
fn pickup_of_what_is_gone_or_held_only_removes_the_intent() {
    let mut ecs = arena();
    let player = ecs.create_entity(fighter(4, 4, 30, 30));
    let other = ecs.create_entity(fighter(5, 5, 30, 30));
    let held = ecs.create_entity(weapon(EquipmentSlot::Melee, other));
    let log = ecs.log.entries.clone();
    for item in [held, Entity { id: 500 }, other] {
        ecs.entities[player.id].wants_to_pickup = Some(WantsToPickupItem { collected_by: player, item });
        ItemCollectionSystem {}.run_now(&mut ecs);
        assert!(ecs.entities[player.id].wants_to_pickup.is_none());
    }
    assert_eq!(ecs.entities[held.id].in_backpack, Some(InBackpack { owner: other }));
    assert_eq!(ecs.entities[other.id].position, Some(Position { x: 5, y: 5 }));
    assert_eq!(ecs.log.entries, log);
}

#[test]
fn of_two_collectors_the_lower_identifier_gets_the_item() {
    let mut ecs = arena();
    let first = ecs.create_entity(fighter(4, 4, 30, 30));
    let second = ecs.create_entity(fighter(4, 4, 30, 30));
    let item = ecs.create_entity(thing(4, 4));
    ecs.entities[second.id].wants_to_pickup = Some(WantsToPickupItem { collected_by: second, item });
    ecs.entities[first.id].wants_to_pickup = Some(WantsToPickupItem { collected_by: first, item });
    ItemCollectionSystem {}.run_now(&mut ecs);
    assert_eq!(ecs.entities[item.id].in_backpack, Some(InBackpack { owner: first }));
    assert!(ecs.entities[first.id].wants_to_pickup.is_none());
    assert!(ecs.entities[second.id].wants_to_pickup.is_none());
}

#[test]
fn pickup_then_use_of_a_healing_consumable() {
    let mut ecs = arena();
    let player = ecs.create_entity(fighter(4, 4, 10, 30));
    let item = ecs.create_entity(potion(4, 4, 8));
    ecs.entities[player.id].wants_to_pickup = Some(WantsToPickupItem { collected_by: player, item });
    ItemCollectionSystem {}.run_now(&mut ecs);
    ecs.entities[player.id].wants_to_use = Some(WantsToUseItem { item, target: None });
    ItemUseSystem {}.run_now(&mut ecs);
    assert_eq!(ecs.entities[player.id].combat_stats.unwrap().hp, 18);
    assert_eq!(ecs.entities[player.id].combat_stats.unwrap().max_hp, 30);
    assert!(ecs.entities[player.id].wants_to_use.is_none());
    assert_eq!(ecs.pending_deletes, vec![item]);
    assert!(ecs.is_alive(item));
    assert_eq!(ecs.log.entries.last(), Some(&LogEvent::Healed { who: player, item, hp: 18 }));
    ecs.maintain();
    assert!(!ecs.is_alive(item));

    // the same item a tick later: nothing happens
    let log = ecs.log.entries.clone();
    ecs.entities[player.id].wants_to_use = Some(WantsToUseItem { item, target: None });
    ItemUseSystem {}.run_now(&mut ecs);
    assert_eq!(ecs.entities[player.id].combat_stats.unwrap().hp, 18);
    assert!(ecs.entities[player.id].wants_to_use.is_none());
    assert!(ecs.pending_deletes.is_empty());
    assert_eq!(ecs.log.entries, log);
}

#[test]
fn healing_stops_at_the_maximum() {
    let mut ecs = arena();
    let player = ecs.create_entity(fighter(4, 4, 25, 30));
    let item = ecs.create_entity(potion(4, 4, 8));
    ecs.entities[player.id].wants_to_use = Some(WantsToUseItem { item, target: None });
    ItemUseSystem {}.run_now(&mut ecs);
    assert_eq!(ecs.entities[player.id].combat_stats.unwrap().hp, 30);
    let big = ecs.create_entity(potion(4, 4, i32::MAX));
    ecs.entities[player.id].combat_stats.as_mut().unwrap().hp = 5;
    ecs.entities[player.id].wants_to_use = Some(WantsToUseItem { item: big, target: None });
    ItemUseSystem {}.run_now(&mut ecs);
    assert_eq!(ecs.entities[player.id].combat_stats.unwrap().hp, 30);
}

#[test]
fn drop_puts_the_item_where_the_owner_stands() {
    let mut ecs = arena();
    let player = ecs.create_entity(fighter(6, 9, 30, 30));
    let item = ecs.create_entity(weapon(EquipmentSlot::Melee, player));
    ecs.entities[player.id].wants_to_drop = Some(WantsToDropItem { item });
    ItemDropSystem {}.run_now(&mut ecs);
    assert_eq!(ecs.entities[item.id].position, Some(Position { x: 6, y: 9 }));
    assert_eq!(ecs.entities[item.id].in_backpack, None);
    assert!(ecs.entities[player.id].wants_to_drop.is_none());
    assert_eq!(ecs.log.entries.last(), Some(&LogEvent::Dropped { who: player, item }));
}

#[test]
fn drop_of_what_is_not_carried_only_removes_the_intent() {
    let mut ecs = arena();
    let player = ecs.create_entity(fighter(6, 9, 30, 30));
    let other = ecs.create_entity(fighter(5, 5, 30, 30));
    let theirs = ecs.create_entity(weapon(EquipmentSlot::Melee, other));
    let lying = ecs.create_entity(thing(3, 3));
    for item in [theirs, lying, Entity { id: 99 }] {
        ecs.entities[player.id].wants_to_drop = Some(WantsToDropItem { item });
        ItemDropSystem {}.run_now(&mut ecs);
        assert!(ecs.entities[player.id].wants_to_drop.is_none());
    }
    assert_eq!(ecs.entities[theirs.id].in_backpack, Some(InBackpack { owner: other }));
    assert_eq!(ecs.entities[theirs.id].position, None);
    assert_eq!(ecs.entities[lying.id].position, Some(Position { x: 3, y: 3 }));
    assert_eq!(ecs.log.entries, vec![LogEvent::Welcome]);
}

#[test]
fn remove_puts_equipment_back_into_the_backpack() {
    let mut ecs = arena();
    let player = ecs.create_entity(fighter(6, 9, 30, 30));
    let mut sword = weapon(EquipmentSlot::Melee, player);
    sword.in_backpack = None;
    sword.equipped = Some(Equipped { owner: player, slot: EquipmentSlot::Melee });
    let sword = ecs.create_entity(sword);
    ecs.entities[player.id].wants_to_remove = Some(WantsToRemoveItem { item: sword });
    ItemRemoveSystem {}.run_now(&mut ecs);
    assert_eq!(ecs.entities[sword.id].equipped, None);
    assert_eq!(ecs.entities[sword.id].in_backpack, Some(InBackpack { owner: player }));
    assert!(ecs.entities[player.id].wants_to_remove.is_none());
    assert_eq!(ecs.log.entries.last(), Some(&LogEvent::Unequipped { who: player, item: sword }));
    // again: the relation is gone, so only the intent goes
    ecs.entities[player.id].wants_to_remove = Some(WantsToRemoveItem { item: sword });
    let log = ecs.log.entries.clone();
    ItemRemoveSystem {}.run_now(&mut ecs);
    assert!(ecs.entities[player.id].wants_to_remove.is_none());
    assert_eq!(ecs.entities[sword.id].in_backpack, Some(InBackpack { owner: player }));
    assert_eq!(ecs.log.entries, log);
}

#[test]
fn equipping_a_second_weapon_puts_the_first_back() {
    let mut ecs = arena();
    let player = ecs.create_entity(fighter(6, 9, 30, 30));
    let spatula = ecs.create_entity(weapon(EquipmentSlot::Melee, player));
    let fork = ecs.create_entity(weapon(EquipmentSlot::Melee, player));
    let shield = ecs.create_entity(weapon(EquipmentSlot::Shield, player));
    for item in [shield, spatula, fork] {
        ecs.entities[player.id].wants_to_use = Some(WantsToUseItem { item, target: None });
        ItemUseSystem {}.run_now(&mut ecs);
    }
    let melee = Equipped { owner: player, slot: EquipmentSlot::Melee };
    let in_melee: Vec<usize> = (0..ecs.entities.len()).filter(|i| ecs.entities[*i].equipped == Some(melee)).collect();
    assert_eq!(in_melee, vec![fork.id]);
    assert_eq!(ecs.entities[fork.id].in_backpack, None);
    assert_eq!(ecs.entities[spatula.id].equipped, None);
    assert_eq!(ecs.entities[spatula.id].in_backpack, Some(InBackpack { owner: player }));
    assert_eq!(
        ecs.entities[shield.id].equipped,
        Some(Equipped { owner: player, slot: EquipmentSlot::Shield })
    );
    assert!(ecs.pending_deletes.is_empty());
    assert_eq!(
        ecs.log.entries,
        vec![
            LogEvent::Welcome,
            LogEvent::Equipped { who: player, item: shield },
            LogEvent::Equipped { who: player, item: spatula },
            LogEvent::Unequipped { who: player, item: spatula },
            LogEvent::Equipped { who: player, item: fork },
        ]
    );
}

#[test]
fn equipment_of_another_owner_is_left_alone() {
    let mut ecs = arena();
    let player = ecs.create_entity(fighter(6, 9, 30, 30));
    let other = ecs.create_entity(fighter(5, 5, 30, 30));
    let mut theirs = weapon(EquipmentSlot::Melee, other);
    theirs.in_backpack = None;
    theirs.equipped = Some(Equipped { owner: other, slot: EquipmentSlot::Melee });
    let theirs = ecs.create_entity(theirs);
    let mine = ecs.create_entity(weapon(EquipmentSlot::Melee, player));
    ecs.entities[player.id].wants_to_use = Some(WantsToUseItem { item: mine, target: None });
    ItemUseSystem {}.run_now(&mut ecs);
    assert_eq!(ecs.entities[theirs.id].equipped, Some(Equipped { owner: other, slot: EquipmentSlot::Melee }));
    assert_eq!(ecs.entities[mine.id].equipped, Some(Equipped { owner: player, slot: EquipmentSlot::Melee }));
}

#[test]
fn ranged_damage_waits_on_the_occupants_of_the_target_tile() {
    let mut ecs = arena();
    let player = ecs.create_entity(fighter(4, 4, 30, 30));
    let near = ecs.create_entity(fighter(8, 8, 16, 16));
    let also = ecs.create_entity(fighter(8, 8, 16, 16));
    let far = ecs.create_entity(fighter(9, 8, 16, 16));
    let mut scroll = thing(4, 4);
    scroll.consumable = true;
    scroll.ranged = Some(Ranged { range: 6 });
    scroll.inflicts_damage = Some(InflictsDamage { damage: 8 });
    let scroll = ecs.create_entity(scroll);
    MapIndexingSystem {}.run_now(&mut ecs);
    ecs.entities[player.id].wants_to_use =
        Some(WantsToUseItem { item: scroll, target: Some(Position { x: 8, y: 8 }) });
    ItemUseSystem {}.run_now(&mut ecs);
    assert_eq!(amounts(&ecs, near), Some(vec![8]));
    assert_eq!(amounts(&ecs, also), Some(vec![8]));
    assert_eq!(amounts(&ecs, far), None);
    assert_eq!(amounts(&ecs, player), None);
    // the damage waits: health is untouched until the damage system runs
    assert_eq!(ecs.entities[near.id].combat_stats.unwrap().hp, 16);
    assert_eq!(ecs.pending_deletes, vec![scroll]);
    assert_eq!(
        ecs.log.entries,
        vec![
            LogEvent::Welcome,
            LogEvent::ItemHit { who: player, item: scroll, target: near, damage: 8 },
            LogEvent::ItemHit { who: player, item: scroll, target: also, damage: 8 },
        ]
    );
}

#[test]
fn area_damage_reaches_every_occupant_within_the_radius() {
    let mut ecs = arena();
    let player = ecs.create_entity(fighter(3, 3, 30, 30));
    let centre = ecs.create_entity(fighter(8, 8, 16, 16));
    let edge = ecs.create_entity(fighter(11, 8, 16, 16));
    let diagonal = ecs.create_entity(fighter(10, 10, 16, 16));
    let outside = ecs.create_entity(fighter(11, 9, 16, 16));
    let beyond = ecs.create_entity(fighter(12, 8, 16, 16));
    let mut scroll = thing(3, 3);
    scroll.consumable = true;
    scroll.ranged = Some(Ranged { range: 6 });
    scroll.inflicts_damage = Some(InflictsDamage { damage: 20 });
    scroll.area_of_effect = Some(AreaOfEffect { radius: 3 });
    let scroll = ecs.create_entity(scroll);
    MapIndexingSystem {}.run_now(&mut ecs);
    ecs.entities[player.id].wants_to_use =
        Some(WantsToUseItem { item: scroll, target: Some(Position { x: 8, y: 8 }) });
    ItemUseSystem {}.run_now(&mut ecs);
    assert_eq!(amounts(&ecs, centre), Some(vec![20]));
    assert_eq!(amounts(&ecs, edge), Some(vec![20]));
    assert_eq!(amounts(&ecs, diagonal), Some(vec![20]));
    assert_eq!(amounts(&ecs, outside), None);
    assert_eq!(amounts(&ecs, beyond), None);
    assert_eq!(amounts(&ecs, player), None);
}

#[test]
fn confusion_is_put_on_the_occupants_of_the_target_tile() {
    let mut ecs = arena();
    let player = ecs.create_entity(fighter(4, 4, 30, 30));
    let monster = ecs.create_entity(fighter(8, 8, 16, 16));
    let mut scroll = thing(4, 4);
    scroll.consumable = true;
    scroll.ranged = Some(Ranged { range: 6 });
    scroll.confusion = Some(Confusion { turns: 4 });
    let scroll = ecs.create_entity(scroll);
    MapIndexingSystem {}.run_now(&mut ecs);
    ecs.entities[player.id].wants_to_use =
        Some(WantsToUseItem { item: scroll, target: Some(Position { x: 8, y: 8 }) });
    ItemUseSystem {}.run_now(&mut ecs);
    assert_eq!(ecs.entities[monster.id].confusion, Some(Confusion { turns: 4 }));
    assert!(ecs.entities[monster.id].suffer_damage.is_none());
    assert_eq!(ecs.entities[player.id].confusion, None);
    assert_eq!(
        ecs.log.entries.last(),
        Some(&LogEvent::Confused { who: player, item: scroll, target: monster, turns: 4 })
    );
}

#[test]
fn aimed_item_without_a_target_on_the_map_has_no_aimed_effect() {
    let mut ecs = arena();
    let player = ecs.create_entity(fighter(4, 4, 30, 30));
    let monster = ecs.create_entity(fighter(8, 8, 16, 16));
    let mut scroll = thing(4, 4);
    scroll.ranged = Some(Ranged { range: 6 });
    scroll.inflicts_damage = Some(InflictsDamage { damage: 8 });
    let scroll = ecs.create_entity(scroll);
    MapIndexingSystem {}.run_now(&mut ecs);
    for target in [None, Some(Position { x: -1, y: 8 }), Some(Position { x: 8, y: 42 })] {
        ecs.entities[player.id].wants_to_use = Some(WantsToUseItem { item: scroll, target });
        ItemUseSystem {}.run_now(&mut ecs);
        assert!(ecs.entities[player.id].wants_to_use.is_none());
    }
    assert_eq!(amounts(&ecs, monster), None);
    // not a consumable: it is never queued for deletion
    assert!(ecs.pending_deletes.is_empty());
}
