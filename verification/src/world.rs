//! The entity store: one record per entity, holding its components, and the
//! resources that all systems share.

use crate::components::{
    AreaOfEffect, CombatStats, Confusion, DefenseBonus, Entity, Equippable, Equipped, InBackpack, InflictsDamage,
    MeleePowerBonus, Position, ProvidesHealing, Ranged, Renderable, SufferDamage, Viewshed, ViewshedView,
    WantsToDropItem, WantsToMelee, WantsToPickupItem, WantsToRemoveItem, WantsToUseItem, MAX_VIEW_RANGE,
};
use crate::gamelog::{GameLog, LogEvent};
use crate::map::TileMap;
use crate::RunState;
use vstd::prelude::*;

verus! {

/// Everything known of one entity. A component that the entity lacks is
/// `None`, a tag that it lacks is `false`.
pub struct EntityRecord {
    /// Cleared when the entity is deleted; a deleted entity has no components.
    pub alive: bool,
    pub position: Option<Position>,
    pub renderable: Option<Renderable>,
    /// Tag: the entity that the user steers.
    pub player: bool,
    /// Tag: a hostile creature that acts by itself.
    pub monster: bool,
    /// Tag: nothing else may enter the tile the entity stands on.
    pub blocks_tile: bool,
    /// Tag: the entity can be picked up.
    pub item: bool,
    /// Tag: the item is used up by its first use.
    pub consumable: bool,
    pub combat_stats: Option<CombatStats>,
    pub ranged: Option<Ranged>,
    pub area_of_effect: Option<AreaOfEffect>,
    pub inflicts_damage: Option<InflictsDamage>,
    pub provides_healing: Option<ProvidesHealing>,
    pub confusion: Option<Confusion>,
    pub equippable: Option<Equippable>,
    pub melee_power_bonus: Option<MeleePowerBonus>,
    pub defense_bonus: Option<DefenseBonus>,
    pub in_backpack: Option<InBackpack>,
    pub equipped: Option<Equipped>,
    pub wants_to_melee: Option<WantsToMelee>,
    pub wants_to_pickup: Option<WantsToPickupItem>,
    pub wants_to_use: Option<WantsToUseItem>,
    pub wants_to_drop: Option<WantsToDropItem>,
    pub wants_to_remove: Option<WantsToRemoveItem>,
    pub name: Option<String>,
    pub viewshed: Option<Viewshed>,
    pub suffer_damage: Option<SufferDamage>,
}

/// An entity's record as a mathematical value.
#[verifier::ext_equal]
pub struct RecordView {
    pub alive: bool,
    pub position: Option<Position>,
    pub renderable: Option<Renderable>,
    pub player: bool,
    pub monster: bool,
    pub blocks_tile: bool,
    pub item: bool,
    pub consumable: bool,
    pub combat_stats: Option<CombatStats>,
    pub ranged: Option<Ranged>,
    pub area_of_effect: Option<AreaOfEffect>,
    pub inflicts_damage: Option<InflictsDamage>,
    pub provides_healing: Option<ProvidesHealing>,
    pub confusion: Option<Confusion>,
    pub equippable: Option<Equippable>,
    pub melee_power_bonus: Option<MeleePowerBonus>,
    pub defense_bonus: Option<DefenseBonus>,
    pub in_backpack: Option<InBackpack>,
    pub equipped: Option<Equipped>,
    pub wants_to_melee: Option<WantsToMelee>,
    pub wants_to_pickup: Option<WantsToPickupItem>,
    pub wants_to_use: Option<WantsToUseItem>,
    pub wants_to_drop: Option<WantsToDropItem>,
    pub wants_to_remove: Option<WantsToRemoveItem>,
    pub name: Option<Seq<char>>,
    pub viewshed: Option<ViewshedView>,
    pub suffer_damage: Option<Seq<i32>>,
}

impl View for EntityRecord {
    type V = RecordView;

    open spec fn view(&self) -> RecordView {
        RecordView {
            alive: self.alive,
            position: self.position,
            renderable: self.renderable,
            player: self.player,
            monster: self.monster,
            blocks_tile: self.blocks_tile,
            item: self.item,
            consumable: self.consumable,
            combat_stats: self.combat_stats,
            ranged: self.ranged,
            area_of_effect: self.area_of_effect,
            inflicts_damage: self.inflicts_damage,
            provides_healing: self.provides_healing,
            confusion: self.confusion,
            equippable: self.equippable,
            melee_power_bonus: self.melee_power_bonus,
            defense_bonus: self.defense_bonus,
            in_backpack: self.in_backpack,
            equipped: self.equipped,
            wants_to_melee: self.wants_to_melee,
            wants_to_pickup: self.wants_to_pickup,
            wants_to_use: self.wants_to_use,
            wants_to_drop: self.wants_to_drop,
            wants_to_remove: self.wants_to_remove,
            name: match self.name {
                Some(n) => Some(n@),
                None => None,
            },
            viewshed: match self.viewshed {
                Some(v) => Some(v@),
                None => None,
            },
            suffer_damage: match self.suffer_damage {
                Some(d) => Some(d@),
                None => None,
            },
        }
    }
}

impl RecordView {
    /// The record with its viewshed, if it has one, marked dirty.
    pub open spec fn dirtied(self) -> RecordView {
        RecordView {
            viewshed: match self.viewshed {
                Some(v) => Some(ViewshedView { dirty: true, ..v }),
                None => None,
            },
            ..self
        }
    }

    /// The record without any component.
    pub open spec fn blank(alive: bool) -> RecordView {
        RecordView {
            alive: alive,
            position: None,
            renderable: None,
            player: false,
            monster: false,
            blocks_tile: false,
            item: false,
            consumable: false,
            combat_stats: None,
            ranged: None,
            area_of_effect: None,
            inflicts_damage: None,
            provides_healing: None,
            confusion: None,
            equippable: None,
            melee_power_bonus: None,
            defense_bonus: None,
            in_backpack: None,
            equipped: None,
            wants_to_melee: None,
            wants_to_pickup: None,
            wants_to_use: None,
            wants_to_drop: None,
            wants_to_remove: None,
            name: None,
            viewshed: None,
            suffer_damage: None,
        }
    }
}

impl EntityRecord {
    /// A live entity without any component.
    pub fn new() -> (record: EntityRecord)
        ensures
            record@ == RecordView::blank(true),
    {
        EntityRecord {
            alive: true,
            position: None,
            renderable: None,
            player: false,
            monster: false,
            blocks_tile: false,
            item: false,
            consumable: false,
            combat_stats: None,
            ranged: None,
            area_of_effect: None,
            inflicts_damage: None,
            provides_healing: None,
            confusion: None,
            equippable: None,
            melee_power_bonus: None,
            defense_bonus: None,
            in_backpack: None,
            equipped: None,
            wants_to_melee: None,
            wants_to_pickup: None,
            wants_to_use: None,
            wants_to_drop: None,
            wants_to_remove: None,
            name: None,
            viewshed: None,
            suffer_damage: None,
        }
    }

    /// What is left of an entity after its deletion.
    pub fn dead() -> (record: EntityRecord)
        ensures
            record@ == RecordView::blank(false),
    {
        EntityRecord {
            alive: false,
            position: None,
            renderable: None,
            player: false,
            monster: false,
            blocks_tile: false,
            item: false,
            consumable: false,
            combat_stats: None,
            ranged: None,
            area_of_effect: None,
            inflicts_damage: None,
            provides_healing: None,
            confusion: None,
            equippable: None,
            melee_power_bonus: None,
            defense_bonus: None,
            in_backpack: None,
            equipped: None,
            wants_to_melee: None,
            wants_to_pickup: None,
            wants_to_use: None,
            wants_to_drop: None,
            wants_to_remove: None,
            name: None,
            viewshed: None,
            suffer_damage: None,
        }
    }
}

/// The shared state of the simulation: the entities with their components,
/// the creations and deletions that wait for the next commit, and the
/// resources (the map, the player's identity, the turn state, the log and the
/// random source).
pub struct World {
    /// The record of the entity `Entity { id }` stands at index `id`.
    pub entities: Vec<EntityRecord>,
    /// The entities whose creation waits for the next commit.
    pub pending_creates: Vec<EntityRecord>,
    /// The entities whose deletion waits for the next commit.
    pub pending_deletes: Vec<Entity>,
    pub map: TileMap,
    pub player: Entity,
    pub runstate: RunState,
    pub log: GameLog,
    pub rng: rltk::RandomNumberGenerator,
}

/// The world as a mathematical value. The random source has no part in it.
#[verifier::ext_equal]
pub struct WorldView {
    pub entities: Seq<RecordView>,
    pub pending_creates: Seq<RecordView>,
    pub pending_deletes: Seq<Entity>,
    pub map: TileMap,
    pub player: Entity,
    pub runstate: RunState,
    pub log: Seq<LogEvent>,
}

impl View for World {
    type V = WorldView;

    open spec fn view(&self) -> WorldView {
        WorldView {
            entities: Seq::new(self.entities@.len(), |i: int| self.entities@[i]@),
            pending_creates: Seq::new(self.pending_creates@.len(), |i: int| self.pending_creates@[i]@),
            pending_deletes: self.pending_deletes@,
            map: self.map,
            player: self.player,
            runstate: self.runstate,
            log: self.log@,
        }
    }
}

impl WorldView {
    /// `e` names an entity that exists and has not been deleted.
    pub open spec fn valid(self, e: Entity) -> bool {
        e.id < self.entities.len() && self.entities[e.id as int].alive
    }

    /// A record fits the map: its position lies on the grid and its sight
    /// range is within the limit.
    pub open spec fn record_wf(self, r: RecordView) -> bool {
        &&& r.position matches Some(p) ==> self.map.in_bounds(p.x as int, p.y as int)
        &&& r.viewshed matches Some(v) ==> 0 <= v.range <= MAX_VIEW_RANGE
    }

    /// The map is well formed and every record fits it, those of the
    /// entities whose creation waits included.
    pub open spec fn wf(self) -> bool {
        &&& self.map.wf()
        &&& forall|i: int| 0 <= i < self.entities.len() ==> self.record_wf(#[trigger] self.entities[i])
        &&& forall|i: int| 0 <= i < self.pending_creates.len() ==> self.record_wf(#[trigger] self.pending_creates[i])
    }

    /// The player's identity names a live entity.
    pub open spec fn has_player(self) -> bool {
        self.valid(self.player)
    }

    /// The entity `i` is to be removed by the next commit: its deletion is
    /// waiting, and it is not the player, who is never removed.
    pub open spec fn doomed(self, i: int) -> bool {
        i != self.player.id && exists|k: int|
            0 <= k < self.pending_deletes.len() && (#[trigger] self.pending_deletes[k]).id == i
    }

    /// The world after a commit: every doomed entity is gone with all its
    /// components; the entities whose creation was waiting exist, with the
    /// next unused identifiers in the order in which they were asked for;
    /// and nothing waits any more.
    pub open spec fn commit(self) -> WorldView {
        WorldView {
            entities: Seq::new(
                self.entities.len(),
                |i: int|
                    if self.doomed(i) {
                        RecordView::blank(false)
                    } else {
                        self.entities[i]
                    },
            ) + self.pending_creates,
            pending_creates: Seq::empty(),
            pending_deletes: Seq::empty(),
            ..self
        }
    }

    /// The world on the map `map`, with every viewshed marked dirty.
    pub open spec fn on_map(self, map: TileMap) -> WorldView {
        WorldView {
            map,
            entities: Seq::new(self.entities.len(), |i: int| self.entities[i].dirtied()),
            ..self
        }
    }

    /// The world with the record of the entity `i` replaced by `r`.
    pub open spec fn with_record(self, i: int, r: RecordView) -> WorldView {
        WorldView { entities: self.entities.update(i, r), ..self }
    }

    /// The world with `event` appended to the log.
    pub open spec fn logged(self, event: LogEvent) -> WorldView {
        WorldView { log: self.log.push(event), ..self }
    }
}

impl World {
    /// The view holds, entity by entity, the views of the records.
    pub open spec fn records_viewed(&self) -> bool {
        &&& self@.entities.len() == self.entities@.len()
        &&& forall|m: int| 0 <= m < self.entities@.len() ==> (#[trigger] self.entities@[m])@ == self@.entities[m]
    }

    /// A world without entities on the given map. The player's identity
    /// names the first entity that will be created.
    pub fn new(map: TileMap, rng: rltk::RandomNumberGenerator) -> (world: World)
        ensures
            world@ == (WorldView {
                entities: Seq::empty(),
                pending_creates: Seq::empty(),
                pending_deletes: Seq::empty(),
                map: map,
                player: Entity { id: 0 },
                runstate: RunState::PreRun,
                log: seq![LogEvent::Welcome],
            }),
    {
        let world = World {
            entities: Vec::new(),
            pending_creates: Vec::new(),
            pending_deletes: Vec::new(),
            map,
            player: Entity { id: 0 },
            runstate: RunState::PreRun,
            log: GameLog::new(),
            rng,
        };
        assert(world@.entities =~= Seq::empty());
        assert(world@.pending_creates =~= Seq::empty());
        world
    }

    /// Whether `record` fits the map.
    pub fn record_fits(&self, record: &EntityRecord) -> (fits: bool)
        ensures
            fits == self@.record_wf(record@),
    {
        let placed = match record.position {
            Some(p) => p.x >= 0 && p.x < self.map.width && p.y >= 0 && p.y < self.map.height,
            None => true,
        };
        let sighted = match &record.viewshed {
            Some(v) => v.range >= 0 && v.range <= MAX_VIEW_RANGE,
            None => true,
        };
        placed && sighted
    }

    /// Whether the world is well formed and has its player: what the
    /// scheduler asks for before a tick.
    pub fn is_sound(&self) -> (sound: bool)
        ensures
            sound == (self@.wf() && self@.has_player()),
    {
        self.is_well_formed() && self.is_alive(self.player)
    }

    /// Whether the world is well formed.
    pub fn is_well_formed(&self) -> (sound: bool)
        ensures
            sound == self@.wf(),
    {
        if !self.map.is_sound() {
            return false;
        }
        let mut i: usize = 0;
        while i < self.entities.len()
            invariant
                0 <= i <= self.entities@.len(),
                forall|j: int| 0 <= j < i ==> self@.record_wf(#[trigger] self@.entities[j]),
            decreases self.entities@.len() - i,
        {
            assert(self@.entities[i as int] == self.entities@[i as int]@);
            if !self.record_fits(&self.entities[i]) {
                return false;
            }
            i = i + 1;
        }
        let mut k: usize = 0;
        while k < self.pending_creates.len()
            invariant
                0 <= k <= self.pending_creates@.len(),
                forall|j: int| 0 <= j < k ==> self@.record_wf(#[trigger] self@.pending_creates[j]),
            decreases self.pending_creates@.len() - k,
        {
            assert(self@.pending_creates[k as int] == self.pending_creates@[k as int]@);
            if !self.record_fits(&self.pending_creates[k]) {
                return false;
            }
            k = k + 1;
        }
        true
    }

    /// Puts `map` in the place of the world's map, as after loading a saved
    /// one, if the world is well formed with it: if the map is well formed
    /// and every entity stands on it. Every viewshed is then marked dirty,
    /// and the next pass rebuilds the occupant lists. Else nothing changes.
    pub fn restore_map(&mut self, map: TileMap) -> (restored: bool)
        ensures
            restored == old(self)@.on_map(map).wf(),
            restored ==> final(self)@ == old(self)@.on_map(map),
            !restored ==> final(self)@ == old(self)@,
    {
        let ghost before = self@;
        let mut other = map;
        std::mem::swap(&mut self.map, &mut other);
        assert(self@.entities =~= before.entities);
        assert(self@.pending_creates =~= before.pending_creates);
        proof {
            let with_map = WorldView { map, ..before };
            assert(self@ == with_map);
            assert(with_map.wf() == before.on_map(map).wf()) by {
                if with_map.wf() {
                    assert forall|i: int| 0 <= i < before.entities.len() implies before.on_map(map).record_wf(
                        #[trigger] before.on_map(map).entities[i],
                    ) by {
                        assert(with_map.record_wf(with_map.entities[i]));
                    }
                    assert forall|i: int| 0 <= i < before.pending_creates.len() implies before.on_map(map).record_wf(
                        #[trigger] before.on_map(map).pending_creates[i],
                    ) by {
                        assert(with_map.record_wf(with_map.pending_creates[i]));
                    }
                }
                if before.on_map(map).wf() {
                    assert forall|i: int| 0 <= i < before.entities.len() implies with_map.record_wf(
                        #[trigger] with_map.entities[i],
                    ) by {
                        assert(before.on_map(map).record_wf(before.on_map(map).entities[i]));
                    }
                    assert forall|i: int| 0 <= i < before.pending_creates.len() implies with_map.record_wf(
                        #[trigger] with_map.pending_creates[i],
                    ) by {
                        assert(before.on_map(map).record_wf(before.on_map(map).pending_creates[i]));
                    }
                }
            }
        }
        if !self.is_well_formed() {
            std::mem::swap(&mut self.map, &mut other);
            assert(self@.entities =~= before.entities);
            assert(self@.pending_creates =~= before.pending_creates);
            return false;
        }
        let n = self.entities.len();
        let mut i: usize = 0;
        assert(self.records_viewed());
        while i < n
            invariant
                0 <= i <= n,
                n == before.entities.len(),
                n == self.entities@.len(),
                self.records_viewed(),
                self@ == (WorldView { map, entities: self@.entities, ..before }),
                forall|j: int| 0 <= j < i ==> #[trigger] self@.entities[j] == before.entities[j].dirtied(),
                forall|j: int| i <= j < n ==> #[trigger] self@.entities[j] == before.entities[j],
            decreases n - i,
        {
            let ghost prev = self@;
            self.mark_dirty(i);
            proof {
                assert forall|j: int| 0 <= j < i + 1 implies #[trigger] self@.entities[j] == before.entities[j].dirtied() by {
                    if j < i {
                        assert(prev.entities[j] == before.entities[j].dirtied());
                    } else {
                        assert(prev.entities[j] == before.entities[j]);
                    }
                }
                assert forall|j: int| i + 1 <= j < n implies #[trigger] self@.entities[j] == before.entities[j] by {
                    assert(prev.entities[j] == before.entities[j]);
                }
            }
            i = i + 1;
        }
        assert(self@.entities =~= before.on_map(map).entities);
        true
    }

    /// Whether `e` names an entity that exists and has not been deleted.
    pub fn is_alive(&self, e: Entity) -> (alive: bool)
        ensures
            alive == self@.valid(e),
    {
        e.id < self.entities.len() && self.entities[e.id].alive
    }

    /// Adds an entity with the components of `record`, at once, and returns
    /// its identity, the next unused one. This is for setting a level up,
    /// while no pass is under way; during a pass, creations wait for the
    /// commit (see `queue_create`).
    pub fn create_entity(&mut self, record: EntityRecord) -> (e: Entity)
        requires
            old(self)@.wf(),
            old(self)@.record_wf(record@),
            record@.alive,
        ensures
            e.id == old(self)@.entities.len(),
            final(self)@ == (WorldView { entities: old(self)@.entities.push(record@), ..old(self)@ }),
            final(self)@.wf(),
            final(self)@.valid(e),
    {
        let e = Entity { id: self.entities.len() };
        self.entities.push(record);
        assert(self@.entities =~= old(self)@.entities.push(record@));
        e
    }

    /// Sets the place of the entity `j`.
    pub fn set_position(&mut self, j: usize, value: Option<Position>)
        requires
            j < old(self)@.entities.len(),
        ensures
            final(self).entities@.len() == old(self).entities@.len(),
            final(self).records_viewed(),
            final(self)@ == old(self)@.with_record(
                j as int,
                RecordView { position: value, ..old(self)@.entities[j as int] },
            ),
    {
        self.entities[j].position = value;
        proof {
            let expected = old(self)@.with_record(
                j as int,
                RecordView { position: value, ..old(self)@.entities[j as int] },
            );
            assert forall|m: int| 0 <= m < self@.entities.len() implies self@.entities[m] =~~= expected.entities[m] by {
                if m != j {
                    assert(self.entities@[m] == old(self).entities@[m]);
                }
            }
            assert(self@.entities =~= expected.entities);
        }
    }

    /// Sets the health and strength of the entity `j`.
    pub fn set_combat_stats(&mut self, j: usize, value: Option<CombatStats>)
        requires
            j < old(self)@.entities.len(),
        ensures
            final(self).entities@.len() == old(self).entities@.len(),
            final(self).records_viewed(),
            final(self)@ == old(self)@.with_record(
                j as int,
                RecordView { combat_stats: value, ..old(self)@.entities[j as int] },
            ),
    {
        self.entities[j].combat_stats = value;
        proof {
            let expected = old(self)@.with_record(
                j as int,
                RecordView { combat_stats: value, ..old(self)@.entities[j as int] },
            );
            assert forall|m: int| 0 <= m < self@.entities.len() implies self@.entities[m] =~~= expected.entities[m] by {
                if m != j {
                    assert(self.entities@[m] == old(self).entities@[m]);
                }
            }
            assert(self@.entities =~= expected.entities);
        }
    }

    /// Sets the confusion of the entity `j`.
    pub fn set_confusion(&mut self, j: usize, value: Option<Confusion>)
        requires
            j < old(self)@.entities.len(),
        ensures
            final(self).entities@.len() == old(self).entities@.len(),
            final(self).records_viewed(),
            final(self)@ == old(self)@.with_record(
                j as int,
                RecordView { confusion: value, ..old(self)@.entities[j as int] },
            ),
    {
        self.entities[j].confusion = value;
        proof {
            let expected = old(self)@.with_record(
                j as int,
                RecordView { confusion: value, ..old(self)@.entities[j as int] },
            );
            assert forall|m: int| 0 <= m < self@.entities.len() implies self@.entities[m] =~~= expected.entities[m] by {
                if m != j {
                    assert(self.entities@[m] == old(self).entities@[m]);
                }
            }
            assert(self@.entities =~= expected.entities);
        }
    }

    /// Sets the backpack relation of the entity `j`.
    pub fn set_in_backpack(&mut self, j: usize, value: Option<InBackpack>)
        requires
            j < old(self)@.entities.len(),
        ensures
            final(self).entities@.len() == old(self).entities@.len(),
            final(self).records_viewed(),
            final(self)@ == old(self)@.with_record(
                j as int,
                RecordView { in_backpack: value, ..old(self)@.entities[j as int] },
            ),
    {
        self.entities[j].in_backpack = value;
        proof {
            let expected = old(self)@.with_record(
                j as int,
                RecordView { in_backpack: value, ..old(self)@.entities[j as int] },
            );
            assert forall|m: int| 0 <= m < self@.entities.len() implies self@.entities[m] =~~= expected.entities[m] by {
                if m != j {
                    assert(self.entities@[m] == old(self).entities@[m]);
                }
            }
            assert(self@.entities =~= expected.entities);
        }
    }

    /// Sets the equipment relation of the entity `j`.
    pub fn set_equipped(&mut self, j: usize, value: Option<Equipped>)
        requires
            j < old(self)@.entities.len(),
        ensures
            final(self).entities@.len() == old(self).entities@.len(),
            final(self).records_viewed(),
            final(self)@ == old(self)@.with_record(
                j as int,
                RecordView { equipped: value, ..old(self)@.entities[j as int] },
            ),
    {
        self.entities[j].equipped = value;
        proof {
            let expected = old(self)@.with_record(
                j as int,
                RecordView { equipped: value, ..old(self)@.entities[j as int] },
            );
            assert forall|m: int| 0 <= m < self@.entities.len() implies self@.entities[m] =~~= expected.entities[m] by {
                if m != j {
                    assert(self.entities@[m] == old(self).entities@[m]);
                }
            }
            assert(self@.entities =~= expected.entities);
        }
    }

    /// Sets the melee intent of the entity `j`.
    pub fn set_wants_to_melee(&mut self, j: usize, value: Option<WantsToMelee>)
        requires
            j < old(self)@.entities.len(),
        ensures
            final(self).entities@.len() == old(self).entities@.len(),
            final(self).records_viewed(),
            final(self)@ == old(self)@.with_record(
                j as int,
                RecordView { wants_to_melee: value, ..old(self)@.entities[j as int] },
            ),
    {
        self.entities[j].wants_to_melee = value;
        proof {
            let expected = old(self)@.with_record(
                j as int,
                RecordView { wants_to_melee: value, ..old(self)@.entities[j as int] },
            );
            assert forall|m: int| 0 <= m < self@.entities.len() implies self@.entities[m] =~~= expected.entities[m] by {
                if m != j {
                    assert(self.entities@[m] == old(self).entities@[m]);
                }
            }
            assert(self@.entities =~= expected.entities);
        }
    }

    /// Sets the intent to pick something up of the entity `j`.
    pub fn set_wants_to_pickup(&mut self, j: usize, value: Option<WantsToPickupItem>)
        requires
            j < old(self)@.entities.len(),
        ensures
            final(self).entities@.len() == old(self).entities@.len(),
            final(self).records_viewed(),
            final(self)@ == old(self)@.with_record(
                j as int,
                RecordView { wants_to_pickup: value, ..old(self)@.entities[j as int] },
            ),
    {
        self.entities[j].wants_to_pickup = value;
        proof {
            let expected = old(self)@.with_record(
                j as int,
                RecordView { wants_to_pickup: value, ..old(self)@.entities[j as int] },
            );
            assert forall|m: int| 0 <= m < self@.entities.len() implies self@.entities[m] =~~= expected.entities[m] by {
                if m != j {
                    assert(self.entities@[m] == old(self).entities@[m]);
                }
            }
            assert(self@.entities =~= expected.entities);
        }
    }

    /// Sets the intent to use an item of the entity `j`.
    pub fn set_wants_to_use(&mut self, j: usize, value: Option<WantsToUseItem>)
        requires
            j < old(self)@.entities.len(),
        ensures
            final(self).entities@.len() == old(self).entities@.len(),
            final(self).records_viewed(),
            final(self)@ == old(self)@.with_record(
                j as int,
                RecordView { wants_to_use: value, ..old(self)@.entities[j as int] },
            ),
    {
        self.entities[j].wants_to_use = value;
        proof {
            let expected = old(self)@.with_record(
                j as int,
                RecordView { wants_to_use: value, ..old(self)@.entities[j as int] },
            );
            assert forall|m: int| 0 <= m < self@.entities.len() implies self@.entities[m] =~~= expected.entities[m] by {
                if m != j {
                    assert(self.entities@[m] == old(self).entities@[m]);
                }
            }
            assert(self@.entities =~= expected.entities);
        }
    }

    /// Sets the intent to drop something of the entity `j`.
    pub fn set_wants_to_drop(&mut self, j: usize, value: Option<WantsToDropItem>)
        requires
            j < old(self)@.entities.len(),
        ensures
            final(self).entities@.len() == old(self).entities@.len(),
            final(self).records_viewed(),
            final(self)@ == old(self)@.with_record(
                j as int,
                RecordView { wants_to_drop: value, ..old(self)@.entities[j as int] },
            ),
    {
        self.entities[j].wants_to_drop = value;
        proof {
            let expected = old(self)@.with_record(
                j as int,
                RecordView { wants_to_drop: value, ..old(self)@.entities[j as int] },
            );
            assert forall|m: int| 0 <= m < self@.entities.len() implies self@.entities[m] =~~= expected.entities[m] by {
                if m != j {
                    assert(self.entities@[m] == old(self).entities@[m]);
                }
            }
            assert(self@.entities =~= expected.entities);
        }
    }

    /// Sets the intent to take something off of the entity `j`.
    pub fn set_wants_to_remove(&mut self, j: usize, value: Option<WantsToRemoveItem>)
        requires
            j < old(self)@.entities.len(),
        ensures
            final(self).entities@.len() == old(self).entities@.len(),
            final(self).records_viewed(),
            final(self)@ == old(self)@.with_record(
                j as int,
                RecordView { wants_to_remove: value, ..old(self)@.entities[j as int] },
            ),
    {
        self.entities[j].wants_to_remove = value;
        proof {
            let expected = old(self)@.with_record(
                j as int,
                RecordView { wants_to_remove: value, ..old(self)@.entities[j as int] },
            );
            assert forall|m: int| 0 <= m < self@.entities.len() implies self@.entities[m] =~~= expected.entities[m] by {
                if m != j {
                    assert(self.entities@[m] == old(self).entities@[m]);
                }
            }
            assert(self@.entities =~= expected.entities);
        }
    }

    /// Marks the viewshed of the entity `j`, if it has one, dirty.
    pub fn mark_dirty(&mut self, j: usize)
        requires
            j < old(self)@.entities.len(),
        ensures
            final(self).entities@.len() == old(self).entities@.len(),
            final(self).records_viewed(),
            final(self)@ == old(self)@.with_record(j as int, old(self)@.entities[j as int].dirtied()),
    {
        match &mut self.entities[j].viewshed {
            Some(viewshed) => {
                viewshed.dirty = true;
            },
            None => {},
        }
        proof {
            let expected = old(self)@.with_record(j as int, old(self)@.entities[j as int].dirtied());
            assert forall|m: int| 0 <= m < self@.entities.len() implies self@.entities[m] =~~= expected.entities[m] by {
                if m != j {
                    assert(self.entities@[m] == old(self).entities@[m]);
                }
            }
            assert(self@.entities =~= expected.entities);
        }
    }

    /// Asks for the creation, at the next commit, of an entity with the
    /// components of `record`.
    pub fn queue_create(&mut self, record: EntityRecord)
        requires
            old(self)@.record_wf(record@),
        ensures
            final(self)@ == (WorldView { pending_creates: old(self)@.pending_creates.push(record@), ..old(self)@ }),
            final(self).entities@.len() == old(self).entities@.len(),
            final(self).records_viewed(),
            old(self)@.wf() ==> final(self)@.wf(),
    {
        self.pending_creates.push(record);
        assert(self@.entities =~= old(self)@.entities);
        assert(self@.pending_creates =~= old(self)@.pending_creates.push(record@));
    }

    /// Asks for the deletion of `e` at the next commit.
    pub fn queue_delete(&mut self, e: Entity)
        ensures
            final(self).entities@.len() == old(self).entities@.len(),
            final(self).records_viewed(),
            final(self)@ == (WorldView { pending_deletes: old(self)@.pending_deletes.push(e), ..old(self)@ }),
    {
        self.pending_deletes.push(e);
        assert(self@.entities =~= old(self)@.entities);
    }

    /// The commit point: carries out the deletions and the creations that wait.
    pub fn maintain(&mut self)
        ensures
            final(self)@ == old(self)@.commit(),
            old(self)@.wf() ==> final(self)@.wf(),
            old(self)@.has_player() ==> final(self)@.has_player(),
            final(self).records_viewed(),
    {
        let ghost before = self@;
        let mut k: usize = 0;
        while k < self.pending_deletes.len()
            invariant
                0 <= k <= self.pending_deletes@.len(),
                self.pending_deletes@ == before.pending_deletes,
                self@.pending_creates == before.pending_creates,
                self.map == before.map,
                self.player == before.player,
                self.runstate == before.runstate,
                self.log@ == before.log,
                self.entities@.len() == before.entities.len(),
                forall|i: int|
                    0 <= i < self.entities@.len() ==> (#[trigger] self.entities@[i])@ == if i != before.player.id
                        && exists|j: int| 0 <= j < k && (#[trigger] before.pending_deletes[j]).id == i {
                        RecordView::blank(false)
                    } else {
                        before.entities[i]
                    },
            decreases self.pending_deletes@.len() - k,
        {
            let e = self.pending_deletes[k];
            if e.id < self.entities.len() && e.id != self.player.id {
                self.entities[e.id] = EntityRecord::dead();
            }
            k = k + 1;
        }
        self.pending_deletes.clear();
        let ghost cleared = self.entities@;
        let ghost waiting = self.pending_creates@;
        self.entities.append(&mut self.pending_creates);
        proof {
            let expected = before.commit();
            assert(self.entities@ == cleared + waiting);
            assert forall|i: int| 0 <= i < self@.entities.len() implies self@.entities[i] == expected.entities[i] by {
                if i < cleared.len() {
                    assert(self.entities@[i] == cleared[i]);
                } else {
                    assert(self.entities@[i] == waiting[i - cleared.len()]);
                    assert(before.pending_creates[i - cleared.len()] == waiting[i - cleared.len()]@);
                }
            }
            assert(self@.entities =~= expected.entities);
            assert(self@.pending_creates =~= expected.pending_creates);
            assert(self@.pending_deletes =~= expected.pending_deletes);
            if before.wf() {
                assert forall|i: int| 0 <= i < self@.entities.len() implies self@.record_wf(
                    #[trigger] self@.entities[i],
                ) by {
                    if i < before.entities.len() {
                        assert(before.record_wf(before.entities[i]));
                    } else {
                        assert(before.record_wf(before.pending_creates[i - before.entities.len()]));
                    }
                }
            }
        }
    }
}

} // verus!
