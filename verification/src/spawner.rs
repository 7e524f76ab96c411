//! Creates the player, the monsters and the items, and fills a room with a
//! random choice of the latter two.

use crate::components::{
    AreaOfEffect, Color, CombatStats, Confusion, DefenseBonus, Entity, EquipmentSlot, Equippable, InflictsDamage,
    MeleePowerBonus, Position, ProvidesHealing, Ranged, Renderable, Viewshed, ViewshedView,
};
use crate::random_table::{drawn_from, total_weight_of, with_entry, RandomTable};
use crate::melee_combat_system::saturate;
use crate::rect::{half, halved, Rect};
use crate::rng::roll_dice;
use crate::world::{EntityRecord, RecordView, World, WorldView};
use vstd::prelude::*;

verus! {

broadcast use vstd::string::to_string_from_display_ensures_for_str;

/// The most monsters that a room of the first level gets.
pub const MAX_MONSTERS: i32 = 4;

/// The deepest level whose rooms can be filled: beyond it the weights of
/// the spawn table add up to more than an `i32` holds.
pub const MAX_DEPTH: i32 = 429496723;

/// How far the player and the monsters see.
pub const SIGHT_RANGE: i32 = 8;

/// The code page 437 glyph for a character: what `rltk::to_cp437` returns.
pub uninterp spec fn cp437(c: char) -> u16;

/// `rltk::to_cp437`: the glyph of the code page 437 font that stands for
/// the character, a fixed table.
#[verifier::external_body]
fn to_cp437(c: char) -> (glyph: u16)
    ensures
        glyph == cp437(c),
{
    rltk::to_cp437(c)
}

/// White.
pub open spec fn white() -> Color {
    Color { r: 255, g: 255, b: 255 }
}

/// Black.
pub open spec fn black() -> Color {
    Color { r: 0, g: 0, b: 0 }
}

/// The record of the player at `(x, y)`.
pub open spec fn player_record(x: i32, y: i32) -> RecordView {
    RecordView {
        position: Some(Position { x, y }),
        renderable: Some(Renderable { glyph: 3, fg: white(), bg: black(), render_order: 0 }),
        player: true,
        viewshed: Some(ViewshedView { visible_tiles: Seq::empty(), range: SIGHT_RANGE, dirty: true }),
        name: Some("Player"@),
        combat_stats: Some(CombatStats { max_hp: 30, hp: 30, defense: 2, power: 5 }),
        ..RecordView::blank(true)
    }
}

/// The record of a monster at `(x, y)`.
pub open spec fn monster_record(x: i32, y: i32, glyph: u16, name: Seq<char>) -> RecordView {
    RecordView {
        position: Some(Position { x, y }),
        renderable: Some(Renderable { glyph, fg: white(), bg: black(), render_order: 1 }),
        viewshed: Some(ViewshedView { visible_tiles: Seq::empty(), range: SIGHT_RANGE, dirty: true }),
        monster: true,
        name: Some(name),
        blocks_tile: true,
        combat_stats: Some(CombatStats { max_hp: 16, hp: 16, defense: 1, power: 4 }),
        ..RecordView::blank(true)
    }
}

/// The record of a thing at `(x, y)` that is drawn below the creatures.
pub open spec fn entity_record(x: i32, y: i32, name: Seq<char>, glyph: u16) -> RecordView {
    RecordView {
        position: Some(Position { x, y }),
        renderable: Some(Renderable { glyph, fg: white(), bg: black(), render_order: 2 }),
        name: Some(name),
        ..RecordView::blank(true)
    }
}

/// The record of an item at `(x, y)`.
pub open spec fn item_record(x: i32, y: i32, name: Seq<char>, glyph: u16) -> RecordView {
    RecordView { item: true, ..entity_record(x, y, name, glyph) }
}

/// The record of a scroll at `(x, y)`: an item that is used up.
pub open spec fn scroll_record(x: i32, y: i32, name: Seq<char>, glyph: u16) -> RecordView {
    RecordView { consumable: true, ..item_record(x, y, name, glyph) }
}

/// The record of a bottle of ketchup, which heals, at `(x, y)`.
pub open spec fn ketchup_record(x: i32, y: i32) -> RecordView {
    RecordView {
        consumable: true,
        provides_healing: Some(ProvidesHealing { heal_amount: 8 }),
        ..item_record(x, y, "Ketchup"@, 5)
    }
}

/// The record of a scroll at `(x, y)` that hurts who stands on one tile.
pub open spec fn meat_beam_scroll_record(x: i32, y: i32) -> RecordView {
    RecordView {
        ranged: Some(Ranged { range: 6 }),
        inflicts_damage: Some(InflictsDamage { damage: 8 }),
        ..scroll_record(x, y, "Meat Beam Scroll"@, 7)
    }
}

/// The record of a scroll at `(x, y)` that hurts everyone around one tile.
pub open spec fn fireball_scroll_record(x: i32, y: i32) -> RecordView {
    RecordView {
        ranged: Some(Ranged { range: 6 }),
        inflicts_damage: Some(InflictsDamage { damage: 20 }),
        area_of_effect: Some(AreaOfEffect { radius: 3 }),
        ..scroll_record(x, y, "Fireball Scroll"@, 6)
    }
}

/// The record of a scroll at `(x, y)` that confuses who stands on one tile.
pub open spec fn food_coma_scroll_record(x: i32, y: i32) -> RecordView {
    RecordView {
        ranged: Some(Ranged { range: 6 }),
        confusion: Some(Confusion { turns: 4 }),
        ..scroll_record(x, y, "Food Coma Scroll"@, 8)
    }
}

/// The record of a weapon at `(x, y)` that adds `power` to a blow.
pub open spec fn melee_weapon_record(x: i32, y: i32, name: Seq<char>, glyph: u16, power: i32) -> RecordView {
    RecordView {
        equippable: Some(Equippable { slot: EquipmentSlot::Melee }),
        melee_power_bonus: Some(MeleePowerBonus { power }),
        ..item_record(x, y, name, glyph)
    }
}

/// The record of a shield at `(x, y)` that adds `defense` to the defence.
pub open spec fn shield_record(x: i32, y: i32, name: Seq<char>, fg: Color, defense: i32) -> RecordView {
    RecordView {
        position: Some(Position { x, y }),
        renderable: Some(Renderable { glyph: cp437('('), fg, bg: black(), render_order: 2 }),
        name: Some(name),
        item: true,
        equippable: Some(Equippable { slot: EquipmentSlot::Shield }),
        defense_bonus: Some(DefenseBonus { defense }),
        ..RecordView::blank(true)
    }
}

/// The record of what goes by `name` in the spawn table, at `(x, y)`;
/// `None` for a name that the table does not know.
pub open spec fn record_named(name: Seq<char>, x: i32, y: i32) -> Option<RecordView> {
    if name == "Potato"@ {
        Some(monster_record(x, y, 9, "Potato"@))
    } else if name == "Broccoli"@ {
        Some(monster_record(x, y, 4, "Broccoli"@))
    } else if name == "Ketchup"@ {
        Some(ketchup_record(x, y))
    } else if name == "Fireball Scroll"@ {
        Some(fireball_scroll_record(x, y))
    } else if name == "Food Coma Scroll"@ {
        Some(food_coma_scroll_record(x, y))
    } else if name == "Meat Beam Scroll"@ {
        Some(meat_beam_scroll_record(x, y))
    } else if name == "Spatula"@ {
        Some(melee_weapon_record(x, y, "Spatula"@, 1, 1))
    } else if name == "Fork"@ {
        Some(melee_weapon_record(x, y, "Fork"@, 2, 2))
    } else if name == "Bread Knife"@ {
        Some(melee_weapon_record(x, y, "Bread Knife"@, 0, 4))
    } else if name == "Shield"@ {
        Some(shield_record(x, y, "Shield"@, Color { r: 0, g: 255, b: 255 }, 1))
    } else if name == "Tower Shield"@ {
        Some(shield_record(x, y, "Tower Shield"@, Color { r: 255, g: 255, b: 0 }, 3))
    } else {
        None
    }
}

impl WorldView {
    /// The world with one more entity, whose record is `r`.
    pub open spec fn spawned(self, r: RecordView) -> WorldView {
        WorldView { entities: self.entities.push(r), ..self }
    }

    /// The world with what goes by `name` added at `(x, y)`; unchanged for a
    /// name that the spawn table does not know.
    pub open spec fn spawned_named(self, name: Seq<char>, x: i32, y: i32) -> WorldView {
        match record_named(name, x, y) {
            Some(r) => self.spawned(r),
            None => self,
        }
    }
}

/// A fresh viewshed: dirty, empty, with the usual range.
fn sighted() -> (viewshed: Viewshed)
    ensures
        viewshed@ == (ViewshedView { visible_tiles: Seq::empty(), range: SIGHT_RANGE, dirty: true }),
{
    let viewshed = Viewshed { visible_tiles: Vec::new(), range: SIGHT_RANGE, dirty: true };
    assert(viewshed@.visible_tiles =~= Seq::empty());
    viewshed
}

/// Spawns the player at `(x, y)` and returns their identity.
pub fn player(ecs: &mut World, player_x: i32, player_y: i32) -> (e: Entity)
    requires
        old(ecs)@.wf(),
        old(ecs).map.in_bounds(player_x as int, player_y as int),
    ensures
        final(ecs)@ == old(ecs)@.spawned(player_record(player_x, player_y)),
        final(ecs)@.wf(),
        e.id == old(ecs)@.entities.len(),
{
    let mut record = EntityRecord::new();
    record.position = Some(Position { x: player_x, y: player_y });
    record.renderable = Some(Renderable { glyph: 3, fg: Color::white(), bg: Color::black(), render_order: 0 });
    record.player = true;
    record.viewshed = Some(sighted());
    record.name = Some("Player".to_string());
    record.combat_stats = Some(CombatStats { max_hp: 30, hp: 30, defense: 2, power: 5 });
    assert(record@ =~~= player_record(player_x, player_y));
    ecs.create_entity(record)
}

/// The entries of the spawn table for rooms of the level `depth`, in their
/// order: what is common on every level, and what gets more common, or
/// appears at all, further down.
pub open spec fn room_entries(depth: int) -> Seq<(Seq<char>, int)> {
    let t0 = with_entry(Seq::empty(), "Broccoli"@, 10);
    let t1 = with_entry(t0, "Potato"@, 1 + depth);
    let t2 = with_entry(t1, "Ketchup"@, 7);
    let t3 = with_entry(t2, "Fireball Scroll"@, 2 + half(depth));
    let t4 = with_entry(t3, "Food Coma Scroll"@, 2 + half(depth));
    let t5 = with_entry(t4, "Meat Beam Scroll"@, 4);
    let t6 = with_entry(t5, "Spatula"@, 3);
    let t7 = with_entry(t6, "Fork"@, depth - 1);
    let t8 = with_entry(t7, "Bread Knife"@, depth - 2);
    let t9 = with_entry(t8, "Shield"@, 3);
    with_entry(t9, "Tower Shield"@, depth - 1)
}

/// The spawn table for rooms of the level `map_depth`.
pub fn room_table(map_depth: i32) -> (table: RandomTable)
    requires
        map_depth <= MAX_DEPTH,
    ensures
        table@ == room_entries(map_depth as int),
        table.wf(),
        table.total_weight > 0,
{
    let depth = map_depth as i64;
    let t0 = RandomTable::new().add("Broccoli", 10);
    let t1 = t0.add("Potato", 1 + map_depth);
    let t2 = t1.add("Ketchup", 7);
    let t3 = t2.add("Fireball Scroll", 2 + halved(map_depth));
    let t4 = t3.add("Food Coma Scroll", 2 + halved(map_depth));
    let t5 = t4.add("Meat Beam Scroll", 4);
    let t6 = t5.add("Spatula", 3);
    let t7 = t6.add("Fork", saturate(depth - 1));
    let t8 = t7.add("Bread Knife", saturate(depth - 2));
    let t9 = t8.add("Shield", 3);
    t9.add("Tower Shield", saturate(depth - 1))
}

/// A monster at `(x, y)`.
pub fn monster(ecs: &mut World, x: i32, y: i32, glyph: u16, name: &str)
    requires
        old(ecs)@.wf(),
        old(ecs).map.in_bounds(x as int, y as int),
    ensures
        final(ecs)@ == old(ecs)@.spawned(monster_record(x, y, glyph, name@)),
        final(ecs)@.wf(),
{
    let mut record = EntityRecord::new();
    record.position = Some(Position { x, y });
    record.renderable = Some(Renderable { glyph, fg: Color::white(), bg: Color::black(), render_order: 1 });
    record.viewshed = Some(sighted());
    record.monster = true;
    record.name = Some(name.to_string());
    record.blocks_tile = true;
    record.combat_stats = Some(CombatStats { max_hp: 16, hp: 16, defense: 1, power: 4 });
    assert(record@ =~~= monster_record(x, y, glyph, name@));
    ecs.create_entity(record);
}

/// A broccoli, a monster, at `(x, y)`.
pub fn broccoli(ecs: &mut World, x: i32, y: i32)
    requires
        old(ecs)@.wf(),
        old(ecs).map.in_bounds(x as int, y as int),
    ensures
        final(ecs)@ == old(ecs)@.spawned(monster_record(x, y, 4, "Broccoli"@)),
        final(ecs)@.wf(),
{
    monster(ecs, x, y, 4, "Broccoli");
}

/// A potato, a monster, at `(x, y)`.
pub fn potato(ecs: &mut World, x: i32, y: i32)
    requires
        old(ecs)@.wf(),
        old(ecs).map.in_bounds(x as int, y as int),
    ensures
        final(ecs)@ == old(ecs)@.spawned(monster_record(x, y, 9, "Potato"@)),
        final(ecs)@.wf(),
{
    monster(ecs, x, y, 9, "Potato");
}

/// The record of a thing at `(x, y)` that is drawn below the creatures.
pub fn entity(x: i32, y: i32, name: &str, glyph: u16) -> (record: EntityRecord)
    ensures
        record@ == entity_record(x, y, name@, glyph),
{
    let mut record = EntityRecord::new();
    record.position = Some(Position { x, y });
    record.renderable = Some(Renderable { glyph, fg: Color::white(), bg: Color::black(), render_order: 2 });
    record.name = Some(name.to_string());
    assert(record@ =~~= entity_record(x, y, name@, glyph));
    record
}

/// The record of an item at `(x, y)`.
pub fn item(x: i32, y: i32, name: &str, glyph: u16) -> (record: EntityRecord)
    ensures
        record@ == item_record(x, y, name@, glyph),
{
    let mut record = entity(x, y, name, glyph);
    record.item = true;
    assert(record@ =~~= item_record(x, y, name@, glyph));
    record
}

/// The record of a scroll at `(x, y)`: an item that is used up.
pub fn scroll(x: i32, y: i32, name: &str, glyph: u16) -> (record: EntityRecord)
    ensures
        record@ == scroll_record(x, y, name@, glyph),
{
    let mut record = item(x, y, name, glyph);
    record.consumable = true;
    assert(record@ =~~= scroll_record(x, y, name@, glyph));
    record
}

/// A bottle of ketchup at `(x, y)`.
pub fn ketchup(ecs: &mut World, x: i32, y: i32)
    requires
        old(ecs)@.wf(),
        old(ecs).map.in_bounds(x as int, y as int),
    ensures
        final(ecs)@ == old(ecs)@.spawned(ketchup_record(x, y)),
        final(ecs)@.wf(),
{
    let mut record = item(x, y, "Ketchup", 5);
    record.consumable = true;
    record.provides_healing = Some(ProvidesHealing { heal_amount: 8 });
    assert(record@ =~~= ketchup_record(x, y));
    ecs.create_entity(record);
}

/// A meat beam scroll at `(x, y)`.
pub fn meat_beam_scroll(ecs: &mut World, x: i32, y: i32)
    requires
        old(ecs)@.wf(),
        old(ecs).map.in_bounds(x as int, y as int),
    ensures
        final(ecs)@ == old(ecs)@.spawned(meat_beam_scroll_record(x, y)),
        final(ecs)@.wf(),
{
    let mut record = scroll(x, y, "Meat Beam Scroll", 7);
    record.ranged = Some(Ranged { range: 6 });
    record.inflicts_damage = Some(InflictsDamage { damage: 8 });
    assert(record@ =~~= meat_beam_scroll_record(x, y));
    ecs.create_entity(record);
}

/// A fireball scroll at `(x, y)`.
pub fn fireball_scroll(ecs: &mut World, x: i32, y: i32)
    requires
        old(ecs)@.wf(),
        old(ecs).map.in_bounds(x as int, y as int),
    ensures
        final(ecs)@ == old(ecs)@.spawned(fireball_scroll_record(x, y)),
        final(ecs)@.wf(),
{
    let mut record = scroll(x, y, "Fireball Scroll", 6);
    record.ranged = Some(Ranged { range: 6 });
    record.inflicts_damage = Some(InflictsDamage { damage: 20 });
    record.area_of_effect = Some(AreaOfEffect { radius: 3 });
    assert(record@ =~~= fireball_scroll_record(x, y));
    ecs.create_entity(record);
}

/// A food coma scroll at `(x, y)`.
pub fn food_coma_scroll(ecs: &mut World, x: i32, y: i32)
    requires
        old(ecs)@.wf(),
        old(ecs).map.in_bounds(x as int, y as int),
    ensures
        final(ecs)@ == old(ecs)@.spawned(food_coma_scroll_record(x, y)),
        final(ecs)@.wf(),
{
    let mut record = scroll(x, y, "Food Coma Scroll", 8);
    record.ranged = Some(Ranged { range: 6 });
    record.confusion = Some(Confusion { turns: 4 });
    assert(record@ =~~= food_coma_scroll_record(x, y));
    ecs.create_entity(record);
}

/// The record of a weapon at `(x, y)` that adds `power` to a blow.
pub fn melee_weapon(x: i32, y: i32, name: &str, glyph: u16, power: i32) -> (record: EntityRecord)
    ensures
        record@ == melee_weapon_record(x, y, name@, glyph, power),
{
    let mut record = item(x, y, name, glyph);
    record.equippable = Some(Equippable { slot: EquipmentSlot::Melee });
    record.melee_power_bonus = Some(MeleePowerBonus { power });
    assert(record@ =~~= melee_weapon_record(x, y, name@, glyph, power));
    record
}

/// A spatula at `(x, y)`.
pub fn spatula(ecs: &mut World, x: i32, y: i32)
    requires
        old(ecs)@.wf(),
        old(ecs).map.in_bounds(x as int, y as int),
    ensures
        final(ecs)@ == old(ecs)@.spawned(melee_weapon_record(x, y, "Spatula"@, 1, 1)),
        final(ecs)@.wf(),
{
    ecs.create_entity(melee_weapon(x, y, "Spatula", 1, 1));
}

/// A fork at `(x, y)`.
pub fn fork(ecs: &mut World, x: i32, y: i32)
    requires
        old(ecs)@.wf(),
        old(ecs).map.in_bounds(x as int, y as int),
    ensures
        final(ecs)@ == old(ecs)@.spawned(melee_weapon_record(x, y, "Fork"@, 2, 2)),
        final(ecs)@.wf(),
{
    ecs.create_entity(melee_weapon(x, y, "Fork", 2, 2));
}

/// A bread knife at `(x, y)`.
pub fn bread_knife(ecs: &mut World, x: i32, y: i32)
    requires
        old(ecs)@.wf(),
        old(ecs).map.in_bounds(x as int, y as int),
    ensures
        final(ecs)@ == old(ecs)@.spawned(melee_weapon_record(x, y, "Bread Knife"@, 0, 4)),
        final(ecs)@.wf(),
{
    ecs.create_entity(melee_weapon(x, y, "Bread Knife", 0, 4));
}

/// The record of a shield at `(x, y)`.
fn shield_of(x: i32, y: i32, name: &str, fg: Color, defense: i32) -> (record: EntityRecord)
    ensures
        record@ == shield_record(x, y, name@, fg, defense),
{
    let mut record = EntityRecord::new();
    record.position = Some(Position { x, y });
    record.renderable = Some(Renderable { glyph: to_cp437('('), fg, bg: Color::black(), render_order: 2 });
    record.name = Some(name.to_string());
    record.item = true;
    record.equippable = Some(Equippable { slot: EquipmentSlot::Shield });
    record.defense_bonus = Some(DefenseBonus { defense });
    assert(record@ =~~= shield_record(x, y, name@, fg, defense));
    record
}

/// A shield at `(x, y)`.
pub fn shield(ecs: &mut World, x: i32, y: i32)
    requires
        old(ecs)@.wf(),
        old(ecs).map.in_bounds(x as int, y as int),
    ensures
        final(ecs)@ == old(ecs)@.spawned(shield_record(x, y, "Shield"@, Color { r: 0, g: 255, b: 255 }, 1)),
        final(ecs)@.wf(),
{
    ecs.create_entity(shield_of(x, y, "Shield", Color::cyan(), 1));
}

/// A tower shield at `(x, y)`.
pub fn tower_shield(ecs: &mut World, x: i32, y: i32)
    requires
        old(ecs)@.wf(),
        old(ecs).map.in_bounds(x as int, y as int),
    ensures
        final(ecs)@ == old(ecs)@.spawned(shield_record(x, y, "Tower Shield"@, Color { r: 255, g: 255, b: 0 }, 3)),
        final(ecs)@.wf(),
{
    ecs.create_entity(shield_of(x, y, "Tower Shield", Color::yellow(), 3));
}

/// Whether `name` reads as `literal`.
fn is_named(name: &String, literal: &str) -> (same: bool)
    ensures
        same == (name@ == literal@),
{
    let other = literal.to_string();
    *name == other
}

/// Spawns what goes by `name` in the spawn table at `(x, y)`. A name that
/// the table does not know spawns nothing.
pub fn spawn_named(ecs: &mut World, name: &String, x: i32, y: i32)
    requires
        old(ecs)@.wf(),
        old(ecs).map.in_bounds(x as int, y as int),
    ensures
        final(ecs)@ == old(ecs)@.spawned_named(name@, x, y),
        final(ecs)@.wf(),
{
    if is_named(name, "Potato") {
        potato(ecs, x, y)
    } else if is_named(name, "Broccoli") {
        broccoli(ecs, x, y)
    } else if is_named(name, "Ketchup") {
        ketchup(ecs, x, y)
    } else if is_named(name, "Fireball Scroll") {
        fireball_scroll(ecs, x, y)
    } else if is_named(name, "Food Coma Scroll") {
        food_coma_scroll(ecs, x, y)
    } else if is_named(name, "Meat Beam Scroll") {
        meat_beam_scroll(ecs, x, y)
    } else if is_named(name, "Spatula") {
        spatula(ecs, x, y)
    } else if is_named(name, "Fork") {
        fork(ecs, x, y)
    } else if is_named(name, "Bread Knife") {
        bread_knife(ecs, x, y)
    } else if is_named(name, "Shield") {
        shield(ecs, x, y)
    } else if is_named(name, "Tower Shield") {
        tower_shield(ecs, x, y)
    }
}

/// Something to spawn: the index of its tile and its name in the spawn table.
pub struct SpawnPoint {
    pub idx: usize,
    pub name: String,
}

impl WorldView {
    /// The world after the first `k` of `points` are spawned, in their order.
    pub open spec fn populate_among(self, points: Seq<SpawnPoint>, k: int) -> WorldView
        decreases k,
    {
        if k <= 0 {
            self
        } else {
            let before = self.populate_among(points, k - 1);
            let p = points[k - 1];
            before.spawned_named(
                p.name@,
                (p.idx % (self.map.width as usize)) as i32,
                (p.idx / (self.map.width as usize)) as i32,
            )
        }
    }

    /// The world after all of `points` are spawned.
    pub open spec fn populated(self, points: Seq<SpawnPoint>) -> WorldView {
        self.populate_among(points, points.len() as int)
    }

    /// Every one of `points` has a name that the spawn table of the level
    /// `depth` draws for some number below its total weight.
    pub open spec fn spawn_points_drawn(points: Seq<SpawnPoint>, depth: int) -> bool {
        forall|k: int|
            0 <= k < points.len() ==> exists|roll: int|
                0 <= roll < total_weight_of(room_entries(depth)) && (#[trigger] points[k]).name@ == #[trigger] drawn_from(
                    room_entries(depth),
                    roll,
                )
    }

    /// `count` spawns go with the number `roll` shown by a die of
    /// `MAX_MONSTERS + 3` sides on the level `depth`: no more than the roll
    /// less three and the depth less one, and at least one where that is one
    /// or more.
    pub open spec fn spawn_count_fits(count: int, roll: int, depth: int) -> bool {
        &&& 1 <= roll <= MAX_MONSTERS + 3
        &&& 0 <= count
        &&& count <= roll - 3 + (depth - 1) || count == 0
        &&& roll - 3 + (depth - 1) >= 1 ==> count >= 1
    }

    /// Every one of `points` lies on the floor of `room`, and no two of them
    /// on the same tile.
    pub open spec fn spawn_points_fit(self, points: Seq<SpawnPoint>, room: Rect) -> bool {
        &&& forall|k: int|
            0 <= k < points.len() ==> (#[trigger] points[k]).idx < self.map.count() && room.interior(
                points[k].idx as int % (self.map.width as int),
                points[k].idx as int / (self.map.width as int),
            )
        &&& forall|j: int, k: int| 0 <= j < k < points.len() ==> (#[trigger] points[j]).idx != (#[trigger] points[k]).idx
    }
}

/// Spawns `points`, in their order.
pub fn spawn_points(ecs: &mut World, points: &Vec<SpawnPoint>)
    requires
        old(ecs)@.wf(),
        forall|k: int| 0 <= k < points@.len() ==> (#[trigger] points@[k]).idx < old(ecs).map.count(),
    ensures
        final(ecs)@ == old(ecs)@.populated(points@),
        final(ecs)@.wf(),
{
    let mut k: usize = 0;
    while k < points.len()
        invariant
            0 <= k <= points@.len(),
            forall|j: int| 0 <= j < points@.len() ==> (#[trigger] points@[j]).idx < old(ecs).map.count(),
            ecs@ == old(ecs)@.populate_among(points@, k as int),
            ecs@.wf(),
            ecs.map == old(ecs).map,
        decreases points@.len() - k,
    {
        let idx = points[k].idx;
        proof {
            crate::map::lemma_coords_in_range(ecs.map.width as int, ecs.map.height as int, idx as int);
        }
        let width = ecs.map.width as usize;
        let x: i32 = (idx % width) as i32;
        let y: i32 = (idx / width) as i32;
        spawn_named(ecs, &points[k].name, x, y);
        k = k + 1;
    }
}

/// Whether one of `points` has the tile `idx`.
fn is_taken(points: &Vec<SpawnPoint>, idx: usize) -> (taken: bool)
    ensures
        taken == exists|k: int| 0 <= k < points@.len() && (#[trigger] points@[k]).idx == idx,
{
    let mut k: usize = 0;
    while k < points.len()
        invariant
            0 <= k <= points@.len(),
            forall|j: int| 0 <= j < k ==> (#[trigger] points@[j]).idx != idx,
        decreases points@.len() - k,
    {
        if points[k].idx == idx {
            return true;
        }
        k = k + 1;
    }
    false
}

/// Fills a room with monsters and items. A die of `MAX_MONSTERS + 3` sides
/// is rolled; the roll less three, and the depth less one, is the number of
/// spawns asked for. For each, up to twenty tiles of the room's floor are
/// tried until one is found that no earlier spawn has taken, and what spawns
/// there is drawn from the spawn table of the depth. The first spawn always
/// finds its tile.
pub fn spawn_room(ecs: &mut World, room: &Rect, map_depth: i32)
    requires
        old(ecs)@.wf(),
        old(ecs).map.room_fits(*room),
        map_depth <= MAX_DEPTH,
    ensures
        final(ecs)@.wf(),
        exists|points: Seq<SpawnPoint>, roll: int|
            {
                &&& #[trigger] old(ecs)@.spawn_points_fit(points, *room)
                &&& WorldView::spawn_points_drawn(points, map_depth as int)
                &&& #[trigger] WorldView::spawn_count_fits(points.len() as int, roll, map_depth as int)
                &&& final(ecs)@ == old(ecs)@.populated(points)
            },
{
    let spawn_table = room_table(map_depth);
    let mut spawn_points_found: Vec<SpawnPoint> = Vec::new();
    let rolled = roll_dice(&mut ecs.rng, 1, MAX_MONSTERS + 3);
    let num_spawns: i64 = rolled as i64 - 3 + (map_depth as i64 - 1);
    let mut i: i64 = 0;
    assert(ecs@.entities =~= old(ecs)@.entities);
    while i < num_spawns
        invariant
            0 <= i,
            i <= num_spawns || i == 0,
            spawn_points_found@.len() <= i,
            i >= 1 ==> spawn_points_found@.len() >= 1,
            ecs@ == old(ecs)@,
            ecs@.wf(),
            ecs.map.room_fits(*room),
            spawn_table.wf(),
            spawn_table.total_weight > 0,
            spawn_table@ == room_entries(map_depth as int),
            old(ecs)@.spawn_points_fit(spawn_points_found@, *room),
            WorldView::spawn_points_drawn(spawn_points_found@, map_depth as int),
        decreases num_spawns - i,
    {
        let mut added = false;
        let mut tries: i32 = 0;
        while !added && tries < 20
            invariant
                0 <= tries <= 20,
                0 <= i < num_spawns,
                i >= 1 ==> spawn_points_found@.len() >= 1,
                added ==> spawn_points_found@.len() >= 1,
                !added && i == 0 ==> spawn_points_found@.len() == 0,
                !added ==> tries == 0 || i >= 1,
                spawn_points_found@.len() <= i + if added {
                    1int
                } else {
                    0int
                },
                ecs@ == old(ecs)@,
                ecs@.wf(),
                ecs.map.room_fits(*room),
                spawn_table.wf(),
                spawn_table.total_weight > 0,
                spawn_table@ == room_entries(map_depth as int),
                old(ecs)@.spawn_points_fit(spawn_points_found@, *room),
                WorldView::spawn_points_drawn(spawn_points_found@, map_depth as int),
            decreases
                    (if added {
                        0int
                    } else {
                        1int
                    }),
                    20 - tries,
        {
            let width = room.x2 - room.x1;
            let height = room.y2 - room.y1;
            let x = room.x1 + roll_dice(&mut ecs.rng, 1, width);
            let y = room.y1 + roll_dice(&mut ecs.rng, 1, height);
            assert(ecs@.entities =~= old(ecs)@.entities);
            let idx = ecs.map.xy_idx(x, y);
            if !is_taken(&spawn_points_found, idx) {
                let name = spawn_table.roll(&mut ecs.rng);
                assert(ecs@.entities =~= old(ecs)@.entities);
                let ghost found = spawn_points_found@;
                spawn_points_found.push(SpawnPoint { idx, name });
                proof {
                    crate::map::lemma_index_in_range(ecs.map.width as int, ecs.map.height as int, x as int, y as int);
                    assert forall|k: int| 0 <= k < spawn_points_found@.len() implies (
                    #[trigger] spawn_points_found@[k]).idx < old(ecs)@.map.count() && room.interior(
                        spawn_points_found@[k].idx as int % (old(ecs)@.map.width as int),
                        spawn_points_found@[k].idx as int / (old(ecs)@.map.width as int),
                    ) by {
                        if k < found.len() {
                            assert(spawn_points_found@[k] == found[k]);
                        }
                    }
                    assert forall|j: int, k: int| 0 <= j < k < spawn_points_found@.len() implies (
                    #[trigger] spawn_points_found@[j]).idx != (#[trigger] spawn_points_found@[k]).idx by {
                        assert(spawn_points_found@[j] == found[j]);
                        if k < found.len() {
                            assert(spawn_points_found@[k] == found[k]);
                        }
                    }
                    assert forall|k: int| 0 <= k < spawn_points_found@.len() implies exists|roll: int|
                        0 <= roll < total_weight_of(room_entries(map_depth as int)) && (
                        #[trigger] spawn_points_found@[k]).name@ == #[trigger] drawn_from(
                            room_entries(map_depth as int),
                            roll,
                        ) by {
                        if k < found.len() {
                            assert(spawn_points_found@[k] == found[k]);
                        } else {
                            let roll = choose|roll: int|
                                0 <= roll < spawn_table.total_weight && spawn_points_found@[k].name@
                                    == #[trigger] drawn_from(spawn_table@, roll);
                            assert(0 <= roll < total_weight_of(room_entries(map_depth as int)));
                        }
                    }
                }
                added = true;
            } else {
                tries = tries + 1;
            }
        }
        i = i + 1;
    }
    spawn_points(ecs, &spawn_points_found);
    assert(old(ecs)@.spawn_points_fit(spawn_points_found@, *room));
    assert(WorldView::spawn_points_drawn(spawn_points_found@, map_depth as int));
    assert(WorldView::spawn_count_fits(spawn_points_found@.len() as int, rolled as int, map_depth as int));
}

} // verus!
