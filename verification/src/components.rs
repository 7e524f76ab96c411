//! The component data that entities carry.
//!
//! An entity is an identifier; everything known of it is held in components.
//! Presence-only components are flags of the entity's record (see
//! `world::EntityRecord`), the others are the structs below.

use vstd::prelude::*;

verus! {

/// Identifier of an entity. Identifiers are handed out once and never reused,
/// so an identifier also serves as the entity's stable external identity.
#[derive(Clone, Copy, PartialEq, Eq, Structural, Debug)]
pub struct Entity {
    pub id: usize,
}

/// Tile coordinates.
#[derive(Clone, Copy, PartialEq, Eq, Structural, Debug)]
pub struct Position {
    pub x: i32,
    pub y: i32,
}

impl Position {
    /// The position as a pair of mathematical integers.
    pub open spec fn point(self) -> (int, int) {
        (self.x as int, self.y as int)
    }
}

/// A colour as red, green and blue intensities.
#[derive(Clone, Copy, PartialEq, Eq, Structural, Debug)]
pub struct Color {
    pub r: u8,
    pub g: u8,
    pub b: u8,
}

impl Color {
    /// White.
    pub fn white() -> (c: Color)
        ensures
            c == (Color { r: 255, g: 255, b: 255 }),
    {
        Color { r: 255, g: 255, b: 255 }
    }

    /// Black.
    pub fn black() -> (c: Color)
        ensures
            c == (Color { r: 0, g: 0, b: 0 }),
    {
        Color { r: 0, g: 0, b: 0 }
    }

    /// Cyan.
    pub fn cyan() -> (c: Color)
        ensures
            c == (Color { r: 0, g: 255, b: 255 }),
    {
        Color { r: 0, g: 255, b: 255 }
    }

    /// Yellow.
    pub fn yellow() -> (c: Color)
        ensures
            c == (Color { r: 255, g: 255, b: 0 }),
    {
        Color { r: 255, g: 255, b: 0 }
    }
}

/// Display hint. Among entities on one tile the one with the lowest
/// `render_order` is drawn on top.
#[derive(Clone, Copy, PartialEq, Eq, Structural, Debug)]
pub struct Renderable {
    pub glyph: u16,
    pub fg: Color,
    pub bg: Color,
    pub render_order: i32,
}

/// The largest sight range a viewshed may have: the largest whose square,
/// times four, an `i32` holds, which is what the field-of-view computation
/// reserves room for.
pub const MAX_VIEW_RANGE: i32 = 23170;

/// An entity's cached field of view.
#[derive(Debug)]
pub struct Viewshed {
    pub visible_tiles: Vec<Position>,
    pub range: i32,
    pub dirty: bool,
}

/// A viewshed as a mathematical value.
#[verifier::ext_equal]
pub struct ViewshedView {
    pub visible_tiles: Seq<Position>,
    pub range: i32,
    pub dirty: bool,
}

impl View for Viewshed {
    type V = ViewshedView;

    open spec fn view(&self) -> ViewshedView {
        ViewshedView { visible_tiles: self.visible_tiles@, range: self.range, dirty: self.dirty }
    }
}

impl ViewshedView {
    /// The set of tiles that the viewshed holds.
    pub open spec fn visible_set(self) -> Set<(int, int)> {
        Set::new(|p: (int, int)| exists|i: int| 0 <= i < self.visible_tiles.len() && (#[trigger] self.visible_tiles[i]).point() == p)
    }

    /// Whether the viewshed holds the tile `p`.
    pub open spec fn sees(self, p: Position) -> bool {
        self.visible_tiles.contains(p)
    }
}

/// Health and fighting strength.
#[derive(Clone, Copy, PartialEq, Eq, Structural, Debug)]
pub struct CombatStats {
    pub max_hp: i32,
    pub hp: i32,
    pub defense: i32,
    pub power: i32,
}

/// Damage dealt to an entity and not yet taken from its health.
#[derive(Debug)]
pub struct SufferDamage {
    pub amounts: Vec<i32>,
}

impl View for SufferDamage {
    type V = Seq<i32>;

    open spec fn view(&self) -> Seq<i32> {
        self.amounts@
    }
}

/// The item can be aimed at a tile up to `range` tiles away.
#[derive(Clone, Copy, PartialEq, Eq, Structural, Debug)]
pub struct Ranged {
    pub range: i32,
}

/// The item affects every tile within `radius` tiles of its target.
#[derive(Clone, Copy, PartialEq, Eq, Structural, Debug)]
pub struct AreaOfEffect {
    pub radius: i32,
}

/// The item does `damage` points of damage to whom it affects.
#[derive(Clone, Copy, PartialEq, Eq, Structural, Debug)]
pub struct InflictsDamage {
    pub damage: i32,
}

/// The item restores `heal_amount` points of health to its user.
#[derive(Clone, Copy, PartialEq, Eq, Structural, Debug)]
pub struct ProvidesHealing {
    pub heal_amount: i32,
}

/// Confused for `turns` more turns; on an item, the confusion that it causes.
#[derive(Clone, Copy, PartialEq, Eq, Structural, Debug)]
pub struct Confusion {
    pub turns: i32,
}

/// Where a piece of equipment is worn or held.
#[derive(Clone, Copy, PartialEq, Eq, Structural, Debug)]
pub enum EquipmentSlot {
    Melee,
    Shield,
}

/// The item can be equipped in `slot`.
#[derive(Clone, Copy, PartialEq, Eq, Structural, Debug)]
pub struct Equippable {
    pub slot: EquipmentSlot,
}

/// The item adds `power` to the blows of who wields it.
#[derive(Clone, Copy, PartialEq, Eq, Structural, Debug)]
pub struct MeleePowerBonus {
    pub power: i32,
}

/// The item adds `defense` to the defence of who wears it.
#[derive(Clone, Copy, PartialEq, Eq, Structural, Debug)]
pub struct DefenseBonus {
    pub defense: i32,
}

/// The item is carried by `owner`.
#[derive(Clone, Copy, PartialEq, Eq, Structural, Debug)]
pub struct InBackpack {
    pub owner: Entity,
}

/// The item is worn or wielded by `owner` in `slot`.
#[derive(Clone, Copy, PartialEq, Eq, Structural, Debug)]
pub struct Equipped {
    pub owner: Entity,
    pub slot: EquipmentSlot,
}

/// Intent: attack `target` in melee.
#[derive(Clone, Copy, PartialEq, Eq, Structural, Debug)]
pub struct WantsToMelee {
    pub target: Entity,
}

/// Intent: `collected_by` picks `item` up from the floor.
#[derive(Clone, Copy, PartialEq, Eq, Structural, Debug)]
pub struct WantsToPickupItem {
    pub collected_by: Entity,
    pub item: Entity,
}

/// Intent: use `item`, aimed at `target` where the item is aimed.
#[derive(Clone, Copy, PartialEq, Eq, Structural, Debug)]
pub struct WantsToUseItem {
    pub item: Entity,
    pub target: Option<Position>,
}

/// Intent: put `item` down on the owner's tile.
#[derive(Clone, Copy, PartialEq, Eq, Structural, Debug)]
pub struct WantsToDropItem {
    pub item: Entity,
}

/// Intent: take off the equipped `item`.
#[derive(Clone, Copy, PartialEq, Eq, Structural, Debug)]
pub struct WantsToRemoveItem {
    pub item: Entity,
}

} // verus!
