//! Resolves the intents to pick up, use, drop and take off items.

use crate::components::{
    AreaOfEffect, CombatStats, Confusion, Entity, EquipmentSlot, Equipped, InBackpack, InflictsDamage, Position,
};
use crate::gamelog::LogEvent;
use crate::melee_combat_system::{clamp_i32, saturate};
use crate::world::{RecordView, World, WorldView};
use vstd::prelude::*;

verus! {

/// Resolves the intents to pick something up.
pub struct ItemCollectionSystem {}

/// Resolves the intents to use an item.
pub struct ItemUseSystem {}

/// Resolves the intents to drop something.
pub struct ItemDropSystem {}

/// Resolves the intents to take equipment off.
pub struct ItemRemoveSystem {}

impl WorldView {
    /// `other` has the same entities on the same map: nothing was created
    /// or deleted, and no viewshed was touched. Entities may have moved.
    pub open spec fn same_frame(self, other: WorldView) -> bool {
        &&& self.entities.len() == other.entities.len()
        &&& self.pending_creates == other.pending_creates
        &&& self.map == other.map
        &&& self.player == other.player
        &&& self.runstate == other.runstate
        &&& forall|i: int|
            0 <= i < self.entities.len() ==> {
                &&& (#[trigger] self.entities[i]).alive == other.entities[i].alive
                &&& self.entities[i].viewshed == other.entities[i].viewshed
            }
    }

    /// The world after the intent of the entity `i` to pick something up, if
    /// it has one, is resolved. The intent is removed in any case. An item
    /// that lies on the map leaves the map for the backpack of the collector.
    pub open spec fn pickup_step(self, i: int) -> WorldView {
        let r = self.entities[i];
        if r.alive && r.wants_to_pickup is Some {
            let want = r.wants_to_pickup->0;
            let cleared = self.with_record(i, RecordView { wants_to_pickup: None, ..r });
            if cleared.lies_on_map(want.item) {
                let it = cleared.entities[want.item.id as int];
                cleared.with_record(
                    want.item.id as int,
                    RecordView { position: None, in_backpack: Some(InBackpack { owner: want.collected_by }), ..it },
                ).logged(LogEvent::PickedUp { who: want.collected_by, item: want.item })
            } else {
                cleared
            }
        } else {
            self
        }
    }

    /// `e` is a live item with a place on the map.
    pub open spec fn lies_on_map(self, e: Entity) -> bool {
        self.valid(e) && self.entities[e.id as int].item && self.entities[e.id as int].position is Some
    }

    /// `e` is alive and in the backpack of `owner`.
    pub open spec fn carried_by(self, e: Entity, owner: Entity) -> bool {
        self.valid(e) && self.entities[e.id as int].in_backpack == Some(InBackpack { owner })
    }

    /// `e` is alive and equipped by `owner`.
    pub open spec fn worn_by(self, e: Entity, owner: Entity) -> bool {
        &&& self.valid(e)
        &&& self.entities[e.id as int].equipped matches Some(eq)
        &&& eq.owner == owner
    }

    /// The world after the pickup intents of the first `k` entities are resolved.
    pub open spec fn pickup_among(self, k: int) -> WorldView
        decreases k,
    {
        if k <= 0 {
            self
        } else {
            self.pickup_among(k - 1).pickup_step(k - 1)
        }
    }

    /// The world after every intent to pick something up is resolved, by
    /// ascending identifier of the entity that holds the intent.
    pub open spec fn pickups_resolved(self) -> WorldView {
        self.pickup_among(self.entities.len() as int)
    }

    /// The world after the intent of the entity `i` to drop something, if it
    /// has one, is resolved. The intent is removed in any case. An item from
    /// the backpack of the entity comes to lie where the entity stands.
    pub open spec fn drop_step(self, i: int) -> WorldView {
        let r = self.entities[i];
        if r.alive && r.wants_to_drop is Some {
            let item = r.wants_to_drop->0.item;
            let who = Entity { id: i as usize };
            let cleared = self.with_record(i, RecordView { wants_to_drop: None, ..r });
            if cleared.carried_by(item, who) && r.position is Some {
                let it = cleared.entities[item.id as int];
                cleared.with_record(item.id as int, RecordView { position: r.position, in_backpack: None, ..it }).logged(
                    LogEvent::Dropped { who, item },
                )
            } else {
                cleared
            }
        } else {
            self
        }
    }

    /// The world after the drop intents of the first `k` entities are resolved.
    pub open spec fn drop_among(self, k: int) -> WorldView
        decreases k,
    {
        if k <= 0 {
            self
        } else {
            self.drop_among(k - 1).drop_step(k - 1)
        }
    }

    /// The world after every intent to drop something is resolved.
    pub open spec fn drops_resolved(self) -> WorldView {
        self.drop_among(self.entities.len() as int)
    }

    /// The world after the intent of the entity `i` to take something off,
    /// if it has one, is resolved. The intent is removed in any case. An item
    /// that the entity has equipped goes back to its backpack.
    pub open spec fn remove_step(self, i: int) -> WorldView {
        let r = self.entities[i];
        if r.alive && r.wants_to_remove is Some {
            let item = r.wants_to_remove->0.item;
            let who = Entity { id: i as usize };
            let cleared = self.with_record(i, RecordView { wants_to_remove: None, ..r });
            if cleared.worn_by(item, who) {
                let it = cleared.entities[item.id as int];
                cleared.with_record(
                    item.id as int,
                    RecordView { equipped: None, in_backpack: Some(InBackpack { owner: who }), ..it },
                ).logged(LogEvent::Unequipped { who, item })
            } else {
                cleared
            }
        } else {
            self
        }
    }

    /// The world after the intents of the first `k` entities to take something
    /// off are resolved.
    pub open spec fn remove_among(self, k: int) -> WorldView
        decreases k,
    {
        if k <= 0 {
            self
        } else {
            self.remove_among(k - 1).remove_step(k - 1)
        }
    }

    /// The world after every intent to take something off is resolved.
    pub open spec fn removals_resolved(self) -> WorldView {
        self.remove_among(self.entities.len() as int)
    }
}

/// A world with the same entities on the same map, whose positions all lie
/// on the map, is well formed.
pub proof fn lemma_same_frame_wf(a: WorldView, b: WorldView)
    requires
        a.wf(),
        b.same_frame(a),
        forall|i: int|
            0 <= i < b.entities.len() ==> ((#[trigger] b.entities[i]).position matches Some(p) ==> b.map.in_bounds(
                p.x as int,
                p.y as int,
            )),
    ensures
        b.wf(),
        b.has_player() == a.has_player(),
{
    assert forall|i: int| 0 <= i < b.entities.len() implies b.record_wf(#[trigger] b.entities[i]) by {
        assert(a.record_wf(a.entities[i]));
    }
    assert forall|i: int| 0 <= i < b.pending_creates.len() implies b.record_wf(#[trigger] b.pending_creates[i]) by {
        assert(a.record_wf(a.pending_creates[i]));
    }
}

impl World {
    /// Resolves the intent of the entity `i` to pick something up.
    pub fn resolve_pickup(&mut self, i: usize)
        requires
            i < old(self)@.entities.len(),
        ensures
            final(self)@ == old(self)@.pickup_step(i as int),
            final(self)@.same_frame(old(self)@),
            old(self)@.wf() ==> final(self)@.wf(),
    {
        if !self.entities[i].alive {
            return ;
        }
        let want = match self.entities[i].wants_to_pickup {
            Some(want) => want,
            None => {
                return ;
            },
        };
        self.set_wants_to_pickup(i, None);
        let item = want.item;
        if self.is_alive(item) && self.entities[item.id].item && self.entities[item.id].position.is_some() {
            self.set_position(item.id, None);
            self.set_in_backpack(item.id, Some(InBackpack { owner: want.collected_by }));
            self.add_log(LogEvent::PickedUp { who: want.collected_by, item });
        }
        proof {
            assert(self@ =~~= old(self)@.pickup_step(i as int));
            if old(self)@.wf() {
                assert forall|m: int| 0 <= m < self@.entities.len() implies ((#[trigger] self@.entities[m]).position
                    matches Some(p) ==> self@.map.in_bounds(p.x as int, p.y as int)) by {
                    assert(old(self)@.record_wf(old(self)@.entities[m]));
                }
                lemma_same_frame_wf(old(self)@, self@);
            }
        }
    }

    /// Resolves the intent of the entity `i` to drop something.
    pub fn resolve_drop(&mut self, i: usize)
        requires
            i < old(self)@.entities.len(),
        ensures
            final(self)@ == old(self)@.drop_step(i as int),
            final(self)@.same_frame(old(self)@),
            old(self)@.wf() ==> final(self)@.wf(),
    {
        if !self.entities[i].alive {
            return ;
        }
        let item = match self.entities[i].wants_to_drop {
            Some(want) => want.item,
            None => {
                return ;
            },
        };
        let who = Entity { id: i };
        self.set_wants_to_drop(i, None);
        let place = self.entities[i].position;
        let carried = self.is_alive(item) && match self.entities[item.id].in_backpack {
            Some(held) => held.owner.id == i,
            None => false,
        };
        if carried && place.is_some() {
            self.set_position(item.id, place);
            self.set_in_backpack(item.id, None);
            self.add_log(LogEvent::Dropped { who, item });
        }
        proof {
            assert(self@ =~~= old(self)@.drop_step(i as int));
            if old(self)@.wf() {
                assert forall|m: int| 0 <= m < self@.entities.len() implies ((#[trigger] self@.entities[m]).position
                    matches Some(p) ==> self@.map.in_bounds(p.x as int, p.y as int)) by {
                    assert(old(self)@.record_wf(old(self)@.entities[i as int]));
                    assert(old(self)@.record_wf(old(self)@.entities[m]));
                }
                lemma_same_frame_wf(old(self)@, self@);
            }
        }
    }

    /// Resolves the intent of the entity `i` to take something off.
    pub fn resolve_remove(&mut self, i: usize)
        requires
            i < old(self)@.entities.len(),
        ensures
            final(self)@ == old(self)@.remove_step(i as int),
            final(self)@.same_places(old(self)@),
    {
        if !self.entities[i].alive {
            return ;
        }
        let item = match self.entities[i].wants_to_remove {
            Some(want) => want.item,
            None => {
                return ;
            },
        };
        let who = Entity { id: i };
        self.set_wants_to_remove(i, None);
        let worn = self.is_alive(item) && match self.entities[item.id].equipped {
            Some(eq) => eq.owner.id == i,
            None => false,
        };
        if worn {
            self.set_equipped(item.id, None);
            self.set_in_backpack(item.id, Some(InBackpack { owner: who }));
            self.add_log(LogEvent::Unequipped { who, item });
        }
        assert(self@ =~~= old(self)@.remove_step(i as int));
    }
}

impl ItemCollectionSystem {
    /// Resolves every intent to pick something up. Of two entities that
    /// want the same item, the one with the lower identifier gets it.
    pub fn run_now(&mut self, ecs: &mut World)
        ensures
            final(ecs)@ == old(ecs)@.pickups_resolved(),
            final(ecs)@.same_frame(old(ecs)@),
            old(ecs)@.wf() ==> final(ecs)@.wf(),
    {
        let n = ecs.entities.len();
        let mut k: usize = 0;
        while k < n
            invariant
                0 <= k <= n,
                n == old(ecs)@.entities.len(),
                ecs@ == old(ecs)@.pickup_among(k as int),
                ecs@.same_frame(old(ecs)@),
                old(ecs)@.wf() ==> ecs@.wf(),
            decreases n - k,
        {
            ecs.resolve_pickup(k);
            k = k + 1;
        }
    }
}

impl ItemDropSystem {
    /// Resolves every intent to drop something.
    pub fn run_now(&mut self, ecs: &mut World)
        ensures
            final(ecs)@ == old(ecs)@.drops_resolved(),
            final(ecs)@.same_frame(old(ecs)@),
            old(ecs)@.wf() ==> final(ecs)@.wf(),
    {
        let n = ecs.entities.len();
        let mut k: usize = 0;
        while k < n
            invariant
                0 <= k <= n,
                n == old(ecs)@.entities.len(),
                ecs@ == old(ecs)@.drop_among(k as int),
                ecs@.same_frame(old(ecs)@),
                old(ecs)@.wf() ==> ecs@.wf(),
            decreases n - k,
        {
            ecs.resolve_drop(k);
            k = k + 1;
        }
    }
}

impl ItemRemoveSystem {
    /// Resolves every intent to take something off.
    pub fn run_now(&mut self, ecs: &mut World)
        ensures
            final(ecs)@ == old(ecs)@.removals_resolved(),
            final(ecs)@.same_places(old(ecs)@),
    {
        let n = ecs.entities.len();
        let mut k: usize = 0;
        while k < n
            invariant
                0 <= k <= n,
                n == old(ecs)@.entities.len(),
                ecs@ == old(ecs)@.remove_among(k as int),
                ecs@.same_places(old(ecs)@),
            decreases n - k,
        {
            ecs.resolve_remove(k);
            k = k + 1;
        }
    }
}

/// Health after a healing of `heal` points: raised by that much, but not
/// above the maximum.
pub open spec fn healed_hp(stats: CombatStats, heal: i32) -> i32 {
    let raised = clamp_i32(stats.hp + heal);
    if raised > stats.max_hp {
        stats.max_hp
    } else {
        raised
    }
}

impl WorldView {
    /// The entity `j` is alive and equipped by `who` in `slot`.
    pub open spec fn wears_in(self, j: int, who: Entity, slot: EquipmentSlot) -> bool {
        &&& 0 <= j < self.entities.len()
        &&& self.entities[j].alive
        &&& self.entities[j].equipped == Some(Equipped { owner: who, slot })
    }

    /// The world after the entity `j`, if `who` has it equipped in `slot`,
    /// is put back into the backpack of `who`.
    pub open spec fn unequip_step(self, who: Entity, slot: EquipmentSlot, j: int) -> WorldView {
        let r = self.entities[j];
        if self.wears_in(j, who, slot) {
            self.with_record(j, RecordView { equipped: None, in_backpack: Some(InBackpack { owner: who }), ..r }).logged(
                LogEvent::Unequipped { who, item: Entity { id: j as usize } },
            )
        } else {
            self
        }
    }

    /// The world after what `who` has in `slot` among the first `k` entities
    /// is put back into the backpack.
    pub open spec fn unequip_among(self, who: Entity, slot: EquipmentSlot, k: int) -> WorldView
        decreases k,
    {
        if k <= 0 {
            self
        } else {
            self.unequip_among(who, slot, k - 1).unequip_step(who, slot, k - 1)
        }
    }

    /// The world after `who` equips `item` in `slot`: what `who` had in that
    /// slot goes back to the backpack first; then the item is equipped and
    /// is neither on the map nor in a backpack any more.
    pub open spec fn equip(self, who: Entity, item: Entity, slot: EquipmentSlot) -> WorldView {
        let freed = self.unequip_among(who, slot, self.entities.len() as int);
        let it = freed.entities[item.id as int];
        freed.with_record(
            item.id as int,
            RecordView { equipped: Some(Equipped { owner: who, slot }), in_backpack: None, position: None, ..it },
        ).logged(LogEvent::Equipped { who, item })
    }

    /// The world after `item` has healed the entity `who` by `amount`.
    /// An entity without health is left as it is.
    pub open spec fn heal(self, who: Entity, item: Entity, amount: i32) -> WorldView {
        let r = self.entities[who.id as int];
        match r.combat_stats {
            Some(s) => {
                let hp = healed_hp(s, amount);
                self.with_record(who.id as int, RecordView { combat_stats: Some(CombatStats { hp, ..s }), ..r }).logged(
                    LogEvent::Healed { who, item, hp },
                )
            },
            None => self,
        }
    }

    /// The tile `t` lies within `radius` tiles of the tile `center`, as the
    /// crow flies.
    pub open spec fn in_blast(self, center: int, radius: i32, t: int) -> bool {
        0 <= radius && self.map.distance_squared(center, t) <= radius * radius
    }

    /// The occupants of the tiles among the first `k` that lie within
    /// `radius` of `center`, tile by tile.
    pub open spec fn blast_targets_among(self, center: int, radius: i32, k: int) -> Seq<Entity>
        decreases k,
    {
        if k <= 0 {
            Seq::empty()
        } else {
            let before = self.blast_targets_among(center, radius, k - 1);
            if self.in_blast(center, radius, k - 1) {
                before + self.map.tile_content@[k - 1]@
            } else {
                before
            }
        }
    }

    /// Whom an item aimed at the tile `at` affects: the occupants of that
    /// tile or, for an item with an area of effect, the occupants of every
    /// tile within its radius.
    pub open spec fn targets(self, at: Position, area: Option<AreaOfEffect>) -> Seq<Entity> {
        let center = self.map.index_of(at.x as int, at.y as int);
        match area {
            None => self.map.tile_content@[center]@,
            Some(a) => self.blast_targets_among(center, a.radius, self.map.count()),
        }
    }

    /// The world after `item` has hurt `target`: the damage waits on the
    /// target. A target that is gone is passed over.
    pub open spec fn hit_step(self, who: Entity, item: Entity, target: Entity, damage: i32) -> WorldView {
        if self.valid(target) {
            self.suffer(target.id as int, damage).logged(LogEvent::ItemHit { who, item, target, damage })
        } else {
            self
        }
    }

    /// The world after `item` has hurt the first `k` of `targets`.
    pub open spec fn hit_among(self, who: Entity, item: Entity, targets: Seq<Entity>, damage: i32, k: int) -> WorldView
        decreases k,
    {
        if k <= 0 {
            self
        } else {
            self.hit_among(who, item, targets, damage, k - 1).hit_step(who, item, targets[k - 1], damage)
        }
    }

    /// The world after `item` has confused `target`. A target that is gone
    /// is passed over.
    pub open spec fn confuse_step(self, who: Entity, item: Entity, target: Entity, confusion: Confusion) -> WorldView {
        if self.valid(target) {
            let r = self.entities[target.id as int];
            self.with_record(target.id as int, RecordView { confusion: Some(confusion), ..r }).logged(
                LogEvent::Confused { who, item, target, turns: confusion.turns },
            )
        } else {
            self
        }
    }

    /// The world after `item` has confused the first `k` of `targets`.
    pub open spec fn confuse_among(
        self,
        who: Entity,
        item: Entity,
        targets: Seq<Entity>,
        confusion: Confusion,
        k: int,
    ) -> WorldView
        decreases k,
    {
        if k <= 0 {
            self
        } else {
            self.confuse_among(who, item, targets, confusion, k - 1).confuse_step(who, item, targets[k - 1], confusion)
        }
    }

    /// The world after the aimed effects of an item: its damage, where it
    /// has any, waits on every target; then its confusion, where it has any,
    /// is on every target.
    pub open spec fn aim(
        self,
        who: Entity,
        item: Entity,
        at: Position,
        area: Option<AreaOfEffect>,
        damage: Option<InflictsDamage>,
        confusion: Option<Confusion>,
    ) -> WorldView {
        let targets = self.targets(at, area);
        let hurt = match damage {
            Some(d) => self.hit_among(who, item, targets, d.damage, targets.len() as int),
            None => self,
        };
        match confusion {
            Some(c) => hurt.confuse_among(who, item, targets, c, targets.len() as int),
            None => hurt,
        }
    }

    /// The world after `who` has used the live item `item`, aimed at
    /// `target` where a target was chosen. An item that can be equipped and
    /// is not used up is equipped. Any other item heals its user where it
    /// heals; where it is ranged and aimed at a tile of the map, it has its
    /// aimed effects; and where it is used up, its deletion is asked for.
    pub open spec fn apply_item(self, who: Entity, item: Entity, target: Option<Position>) -> WorldView {
        let it = self.entities[item.id as int];
        if it.equippable is Some && !it.consumable {
            self.equip(who, item, it.equippable->0.slot)
        } else {
            let healed = match it.provides_healing {
                Some(h) => self.heal(who, item, h.heal_amount),
                None => self,
            };
            let aimed = if it.ranged is Some && target is Some && self.map.in_bounds(
                target->0.x as int,
                target->0.y as int,
            ) {
                healed.aim(who, item, target->0, it.area_of_effect, it.inflicts_damage, it.confusion)
            } else {
                healed
            };
            if it.consumable {
                WorldView { pending_deletes: aimed.pending_deletes.push(item), ..aimed }
            } else {
                aimed
            }
        }
    }

    /// The world after the intent of the entity `i` to use an item, if it
    /// has one, is resolved. The intent is removed in any case; an item that
    /// is gone has no effect.
    pub open spec fn use_step(self, i: int) -> WorldView {
        let r = self.entities[i];
        if r.alive && r.wants_to_use is Some {
            let intent = r.wants_to_use->0;
            let cleared = self.with_record(i, RecordView { wants_to_use: None, ..r });
            if cleared.valid(intent.item) {
                cleared.apply_item(Entity { id: i as usize }, intent.item, intent.target)
            } else {
                cleared
            }
        } else {
            self
        }
    }

    /// The world after the intents of the first `k` entities to use an item
    /// are resolved.
    pub open spec fn use_among(self, k: int) -> WorldView
        decreases k,
    {
        if k <= 0 {
            self
        } else {
            self.use_among(k - 1).use_step(k - 1)
        }
    }

    /// The world after every intent to use an item is resolved, by ascending
    /// identifier of the user.
    pub open spec fn uses_resolved(self) -> WorldView {
        self.use_among(self.entities.len() as int)
    }
}

impl WorldView {
    /// `self` has the entities of `before` on the same map, each where it
    /// was or off the map.
    pub open spec fn settled_from(self, before: WorldView) -> bool {
        &&& self.same_frame(before)
        &&& forall|i: int|
            0 <= i < self.entities.len() ==> (#[trigger] self.entities[i]).position is None || self.entities[i].position
                == before.entities[i].position
    }
}

/// A world whose entities stayed where they were, or left the map, is as
/// well formed as before.
pub proof fn lemma_settled_wf(a: WorldView, b: WorldView)
    requires
        a.wf(),
        b.settled_from(a),
    ensures
        b.wf(),
        b.has_player() == a.has_player(),
{
    assert forall|i: int| 0 <= i < b.entities.len() implies b.record_wf(#[trigger] b.entities[i]) by {
        assert(a.record_wf(a.entities[i]));
    }
    assert forall|i: int| 0 <= i < b.pending_creates.len() implies b.record_wf(#[trigger] b.pending_creates[i]) by {
        assert(a.record_wf(a.pending_creates[i]));
    }
}

/// Appends the entities of `more` to `list`.
fn extend_entities(list: &mut Vec<Entity>, more: &Vec<Entity>)
    ensures
        final(list)@ == old(list)@ + more@,
{
    let mut k: usize = 0;
    while k < more.len()
        invariant
            0 <= k <= more@.len(),
            list@ == old(list)@ + more@.subrange(0, k as int),
        decreases more@.len() - k,
    {
        list.push(more[k]);
        assert(more@.subrange(0, k as int + 1) =~= more@.subrange(0, k as int).push(more@[k as int]));
        assert(list@ =~= old(list)@ + more@.subrange(0, k as int + 1));
        k = k + 1;
    }
    assert(more@.subrange(0, k as int) =~= more@);
}

impl World {
    /// Puts everything that `who` has equipped in `slot` back into the
    /// backpack of `who`.
    pub fn unequip_slot(&mut self, who: Entity, slot: EquipmentSlot)
        ensures
            final(self)@ == old(self)@.unequip_among(who, slot, old(self)@.entities.len() as int),
            final(self)@.same_places(old(self)@),
            final(self).entities@.len() == old(self).entities@.len(),
            final(self).records_viewed(),
    {
        let n = self.entities.len();
        let mut j: usize = 0;
        assert(self@.entities.len() == n);
        while j < n
            invariant
                0 <= j <= n,
                n == old(self)@.entities.len(),
                n == self.entities@.len(),
                self@ == old(self)@.unequip_among(who, slot, j as int),
                self@.same_places(old(self)@),
                self.records_viewed(),
            decreases n - j,
        {
            let worn = self.entities[j].alive && match self.entities[j].equipped {
                Some(eq) => eq.owner.id == who.id && eq.slot == slot,
                None => false,
            };
            if worn {
                self.set_equipped(j, None);
                self.set_in_backpack(j, Some(InBackpack { owner: who }));
                self.add_log(LogEvent::Unequipped { who, item: Entity { id: j } });
            }
            assert(self@ =~~= old(self)@.unequip_among(who, slot, j as int).unequip_step(who, slot, j as int));
            j = j + 1;
        }
    }

    /// Equips `item` for `who` in `slot`.
    pub fn equip_item(&mut self, who: Entity, item: Entity, slot: EquipmentSlot)
        requires
            item.id < old(self)@.entities.len(),
        ensures
            final(self)@ == old(self)@.equip(who, item, slot),
            final(self)@.settled_from(old(self)@),
            final(self).entities@.len() == old(self).entities@.len(),
            final(self).records_viewed(),
    {
        self.unequip_slot(who, slot);
        self.set_equipped(item.id, Some(Equipped { owner: who, slot }));
        self.set_in_backpack(item.id, None);
        self.set_position(item.id, None);
        self.add_log(LogEvent::Equipped { who, item });
        assert(self@ =~~= old(self)@.equip(who, item, slot));
    }

    /// Heals `who` by `amount` through `item`.
    pub fn heal_entity(&mut self, who: Entity, item: Entity, amount: i32)
        requires
            who.id < old(self)@.entities.len(),
        ensures
            final(self)@ == old(self)@.heal(who, item, amount),
            final(self)@.same_places(old(self)@),
            final(self).entities@.len() == old(self).entities@.len(),
            final(self).records_viewed(),
    {
        assert(self@.entities[who.id as int] == self.entities@[who.id as int]@);
        match self.entities[who.id].combat_stats {
            Some(stats) => {
                let raised = saturate(stats.hp as i64 + amount as i64);
                let hp = if raised > stats.max_hp {
                    stats.max_hp
                } else {
                    raised
                };
                self.set_combat_stats(
                    who.id,
                    Some(CombatStats { max_hp: stats.max_hp, hp, defense: stats.defense, power: stats.power }),
                );
                self.add_log(LogEvent::Healed { who, item, hp });
            },
            None => {
                assert(self@.entities =~= old(self)@.entities);
            },
        }
    }

    /// Whom an item aimed at the tile `at` affects.
    pub fn targets_at(&self, at: Position, area: Option<AreaOfEffect>) -> (targets: Vec<Entity>)
        requires
            self.map.wf(),
            self.map.in_bounds(at.x as int, at.y as int),
        ensures
            targets@ == self@.targets(at, area),
    {
        let center = self.map.xy_idx(at.x, at.y);
        let mut targets: Vec<Entity> = Vec::new();
        match area {
            None => {
                extend_entities(&mut targets, &self.map.tile_content[center]);
                assert(targets@ =~= self.map.tile_content@[center as int]@);
            },
            Some(a) => {
                let n = self.map.tile_content.len();
                let mut t: usize = 0;
                while t < n
                    invariant
                        0 <= t <= n,
                        n == self.map.count(),
                        self.map.wf(),
                        center < self.map.count(),
                        targets@ == self@.blast_targets_among(center as int, a.radius, t as int),
                    decreases n - t,
                {
                    assert(0 <= a.radius * a.radius <= 0x4000_0000_0000_0000) by (nonlinear_arith)
                        requires
                            -0x8000_0000 <= a.radius <= 0x8000_0000,
                    ;
                    let reach: i64 = a.radius as i64 * a.radius as i64;
                    if a.radius >= 0 && self.map.get_pathing_distance_squared(center, t) <= reach {
                        extend_entities(&mut targets, &self.map.tile_content[t]);
                    }
                    t = t + 1;
                }
            },
        }
        targets
    }

    /// Lets the damage of `item` wait on every target.
    pub fn hit_targets(&mut self, who: Entity, item: Entity, targets: &Vec<Entity>, damage: i32)
        ensures
            final(self)@ == old(self)@.hit_among(who, item, targets@, damage, targets@.len() as int),
            final(self)@.same_places(old(self)@),
            final(self).entities@.len() == old(self).entities@.len(),
            final(self).records_viewed(),
    {
        let mut k: usize = 0;
        assert(self@.entities =~= old(self)@.entities);
        assert(self.records_viewed());
        while k < targets.len()
            invariant
                0 <= k <= targets@.len(),
                self@ == old(self)@.hit_among(who, item, targets@, damage, k as int),
                self@.same_places(old(self)@),
                self.entities@.len() == old(self).entities@.len(),
                self.records_viewed(),
            decreases targets@.len() - k,
        {
            let target = targets[k];
            if self.is_alive(target) {
                self.suffer(target.id, damage);
                self.add_log(LogEvent::ItemHit { who, item, target, damage });
            }
            k = k + 1;
        }
    }

    /// Confuses every target through `item`.
    pub fn confuse_targets(&mut self, who: Entity, item: Entity, targets: &Vec<Entity>, confusion: Confusion)
        ensures
            final(self)@ == old(self)@.confuse_among(who, item, targets@, confusion, targets@.len() as int),
            final(self)@.same_places(old(self)@),
            final(self).entities@.len() == old(self).entities@.len(),
            final(self).records_viewed(),
    {
        let mut k: usize = 0;
        assert(self@.entities =~= old(self)@.entities);
        assert(self.records_viewed());
        while k < targets.len()
            invariant
                0 <= k <= targets@.len(),
                self@ == old(self)@.confuse_among(who, item, targets@, confusion, k as int),
                self@.same_places(old(self)@),
                self.entities@.len() == old(self).entities@.len(),
                self.records_viewed(),
            decreases targets@.len() - k,
        {
            let target = targets[k];
            if self.is_alive(target) {
                self.set_confusion(target.id, Some(confusion));
                self.add_log(LogEvent::Confused { who, item, target, turns: confusion.turns });
            }
            k = k + 1;
        }
    }

    /// Lets `who` use the live item `item`, aimed at `target` where a
    /// target was chosen.
    pub fn use_item(&mut self, who: Entity, item: Entity, target: Option<Position>)
        requires
            old(self).map.wf(),
            who.id < old(self)@.entities.len(),
            old(self)@.valid(item),
        ensures
            final(self)@ == old(self)@.apply_item(who, item, target),
            final(self)@.settled_from(old(self)@),
            final(self).entities@.len() == old(self).entities@.len(),
            final(self).records_viewed(),
    {
        assert(self@.entities[item.id as int] == self.entities@[item.id as int]@);
        let equippable = self.entities[item.id].equippable;
        let consumable = self.entities[item.id].consumable;
        let healing = self.entities[item.id].provides_healing;
        let ranged = self.entities[item.id].ranged;
        let area = self.entities[item.id].area_of_effect;
        let damage = self.entities[item.id].inflicts_damage;
        let confusion = self.entities[item.id].confusion;
        match equippable {
            Some(eq) => {
                if !consumable {
                    self.equip_item(who, item, eq.slot);
                    return ;
                }
            },
            None => {},
        }
        match healing {
            Some(h) => {
                self.heal_entity(who, item, h.heal_amount);
            },
            None => {
                assert(self@.entities =~= old(self)@.entities);
                assert(self.records_viewed());
            },
        }
        let ghost healed = self@;
        match target {
            Some(at) => {
                if ranged.is_some() && at.x >= 0 && at.x < self.map.width && at.y >= 0 && at.y < self.map.height {
                    let targets = self.targets_at(at, area);
                    match damage {
                        Some(d) => {
                            self.hit_targets(who, item, &targets, d.damage);
                        },
                        None => {},
                    }
                    match confusion {
                        Some(c) => {
                            self.confuse_targets(who, item, &targets, c);
                        },
                        None => {},
                    }
                    assert(self@ == healed.aim(who, item, at, area, damage, confusion));
                }
            },
            None => {},
        }
        if consumable {
            self.queue_delete(item);
        }
    }

    /// Resolves the intent of the entity `i` to use an item.
    pub fn resolve_use(&mut self, i: usize)
        requires
            old(self).map.wf(),
            i < old(self)@.entities.len(),
        ensures
            final(self)@ == old(self)@.use_step(i as int),
            final(self)@.settled_from(old(self)@),
            final(self).entities@.len() == old(self).entities@.len(),
    {
        assert(self@.entities[i as int] == self.entities@[i as int]@);
        if !self.entities[i].alive {
            return ;
        }
        let intent = match self.entities[i].wants_to_use {
            Some(intent) => intent,
            None => {
                return ;
            },
        };
        self.set_wants_to_use(i, None);
        if self.is_alive(intent.item) {
            self.use_item(Entity { id: i }, intent.item, intent.target);
        }
    }
}

impl ItemUseSystem {
    /// Resolves every intent to use an item, by ascending identifier of the
    /// user.
    pub fn run_now(&mut self, ecs: &mut World)
        requires
            old(ecs)@.map.wf(),
        ensures
            final(ecs)@ == old(ecs)@.uses_resolved(),
            final(ecs)@.settled_from(old(ecs)@),
            old(ecs)@.wf() ==> final(ecs)@.wf(),
    {
        let n = ecs.entities.len();
        let mut k: usize = 0;
        while k < n
            invariant
                0 <= k <= n,
                n == old(ecs)@.entities.len(),
                n == ecs.entities@.len(),
                ecs.map.wf(),
                ecs@ == old(ecs)@.use_among(k as int),
                ecs@.settled_from(old(ecs)@),
            decreases n - k,
        {
            ecs.resolve_use(k);
            k = k + 1;
        }
        proof {
            if old(ecs)@.wf() {
                lemma_settled_wf(old(ecs)@, ecs@);
            }
        }
    }
}

/// Putting back what `who` has in `slot` touches nothing else: among the
/// first `k` entities, each one that `who` had in the slot is in the
/// backpack of `who` and equipped no more; every other entity is as it was.
pub proof fn lemma_unequip_among(w: WorldView, who: Entity, slot: EquipmentSlot, k: int)
    requires
        0 <= k <= w.entities.len(),
    ensures
        w.unequip_among(who, slot, k).entities.len() == w.entities.len(),
        w.unequip_among(who, slot, k).pending_creates == w.pending_creates,
        w.unequip_among(who, slot, k).pending_deletes == w.pending_deletes,
        w.unequip_among(who, slot, k).player == w.player,
        forall|j: int|
            0 <= j < w.entities.len() ==> #[trigger] w.unequip_among(who, slot, k).entities[j] == if j < k
                && w.wears_in(j, who, slot) {
                RecordView { equipped: None, in_backpack: Some(InBackpack { owner: who }), ..w.entities[j] }
            } else {
                w.entities[j]
            },
    decreases k,
{
    if k > 0 {
        lemma_unequip_among(w, who, slot, k - 1);
        let before = w.unequip_among(who, slot, k - 1);
        assert(before.entities[k - 1] == w.entities[k - 1]);
        assert(before.wears_in(k - 1, who, slot) == w.wears_in(k - 1, who, slot));
    }
}

/// Equipment is exclusive: once `who` has equipped `item` in `slot`, the
/// item is the one and only thing that `who` has in that slot, and whatever
/// else `who` had there before is back in the backpack of `who`.
pub proof fn lemma_equip_exclusive(w: WorldView, who: Entity, item: Entity, slot: EquipmentSlot)
    requires
        w.valid(item),
    ensures
        w.equip(who, item, slot).entities.len() == w.entities.len(),
        forall|j: int| #[trigger] w.equip(who, item, slot).wears_in(j, who, slot) <==> j == item.id,
        forall|j: int|
            j != item.id && #[trigger] w.wears_in(j, who, slot) ==> w.equip(who, item, slot).entities[j].in_backpack
                == Some(InBackpack { owner: who }),
{
    let n = w.entities.len() as int;
    lemma_unequip_among(w, who, slot, n);
    let freed = w.unequip_among(who, slot, n);
    let after = w.equip(who, item, slot);
    assert forall|j: int| #[trigger] after.wears_in(j, who, slot) <==> j == item.id by {
        if 0 <= j < n && j != item.id {
            assert(after.entities[j] == freed.entities[j]);
        }
    }
    assert forall|j: int| j != item.id && #[trigger] w.wears_in(j, who, slot) implies after.entities[j].in_backpack
        == Some(InBackpack { owner: who }) by {
        assert(after.entities[j] == freed.entities[j]);
    }
}

} // verus!
