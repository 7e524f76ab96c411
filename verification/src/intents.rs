//! Intents are one-shot: each system consumes the intents it resolves, no
//! system touches what is not its business, and no intent outlives a pass.

use crate::components::{Confusion, Entity, Position};
use crate::inventory_system::lemma_unequip_among;
use crate::world::{RecordView, WorldView};
use vstd::prelude::*;

verus! {

impl RecordView {
    /// The record holds no intent.
    pub open spec fn no_intents(self) -> bool {
        &&& self.wants_to_melee is None
        &&& self.wants_to_pickup is None
        &&& self.wants_to_use is None
        &&& self.wants_to_drop is None
        &&& self.wants_to_remove is None
    }

    /// `self` differs from `before` in nothing but its melee intent and the
    /// damage that waits on it.
    pub open spec fn after_melee(self, before: RecordView) -> bool {
        self == (RecordView { wants_to_melee: self.wants_to_melee, suffer_damage: self.suffer_damage, ..before })
    }

    /// `self` differs from `before` in nothing but its health and the
    /// damage that waits on it.
    pub open spec fn after_damage(self, before: RecordView) -> bool {
        self == (RecordView { combat_stats: self.combat_stats, suffer_damage: self.suffer_damage, ..before })
    }

    /// `self` differs from `before` in nothing but its intent to pick
    /// something up, its place and its backpack relation.
    pub open spec fn after_pickup(self, before: RecordView) -> bool {
        self == (RecordView {
            wants_to_pickup: self.wants_to_pickup,
            position: self.position,
            in_backpack: self.in_backpack,
            ..before
        })
    }

    /// `self` differs from `before` in nothing but its intent to drop
    /// something, its place and its backpack relation.
    pub open spec fn after_drop(self, before: RecordView) -> bool {
        self == (RecordView {
            wants_to_drop: self.wants_to_drop,
            position: self.position,
            in_backpack: self.in_backpack,
            ..before
        })
    }

    /// `self` differs from `before` in nothing but its intent to take
    /// something off and its equipment and backpack relations.
    pub open spec fn after_remove(self, before: RecordView) -> bool {
        self == (RecordView {
            wants_to_remove: self.wants_to_remove,
            equipped: self.equipped,
            in_backpack: self.in_backpack,
            ..before
        })
    }

    /// `self` differs from `before` in nothing but what the use of an item
    /// can change: the intent to use one, the place and the relations of an
    /// item, and the health, the waiting damage and the confusion of whom the
    /// item affects.
    pub open spec fn after_use(self, before: RecordView) -> bool {
        self == (RecordView {
            wants_to_use: self.wants_to_use,
            equipped: self.equipped,
            in_backpack: self.in_backpack,
            position: self.position,
            combat_stats: self.combat_stats,
            suffer_damage: self.suffer_damage,
            confusion: self.confusion,
            ..before
        })
    }
}

/// The melee system touches nothing but melee intents and waiting damage,
/// and leaves no melee intent on a live entity that it has looked at.
pub proof fn lemma_melee_among(w: WorldView, k: int)
    requires
        0 <= k <= w.entities.len(),
    ensures
        w.melee_among(k).entities.len() == w.entities.len(),
        w.melee_among(k).pending_creates == w.pending_creates,
        w.melee_among(k).pending_deletes == w.pending_deletes,
        w.melee_among(k).player == w.player,
        w.log.is_prefix_of(w.melee_among(k).log),
        forall|i: int| 0 <= i < w.entities.len() ==> (#[trigger] w.melee_among(k).entities[i]).after_melee(w.entities[i]),
        forall|i: int|
            0 <= i < k && w.entities[i].alive ==> (#[trigger] w.melee_among(k).entities[i]).wants_to_melee is None,
    decreases k,
{
    if k > 0 {
        lemma_melee_among(w, k - 1);
        let v = w.melee_among(k - 1);
        let r = v.melee_step(k - 1);
        assert(r == w.melee_among(k));
        assert(v.entities[k - 1].after_melee(w.entities[k - 1]));
        assert forall|i: int| 0 <= i < w.entities.len() implies (#[trigger] r.entities[i]).after_melee(
            w.entities[i],
        ) by {
            assert(v.entities[i].after_melee(w.entities[i]));
        }
        assert forall|i: int| 0 <= i < k && w.entities[i].alive implies (#[trigger] r.entities[i]).wants_to_melee
            is None by {
            assert(v.entities[i].after_melee(w.entities[i]));
            if i < k - 1 {
                assert(v.entities[i].wants_to_melee is None);
            }
        }
    }
}

/// The damage system touches nothing but health and waiting damage, and
/// leaves no damage waiting on a live entity that it has looked at.
pub proof fn lemma_damage_among(w: WorldView, k: int)
    requires
        0 <= k <= w.entities.len(),
    ensures
        w.damage_among(k).entities.len() == w.entities.len(),
        w.damage_among(k).pending_creates == w.pending_creates,
        w.damage_among(k).pending_deletes == w.pending_deletes,
        w.damage_among(k).player == w.player,
        w.damage_among(k).log == w.log,
        forall|i: int|
            0 <= i < w.entities.len() ==> (#[trigger] w.damage_among(k).entities[i]).after_damage(w.entities[i]),
        forall|i: int|
            0 <= i < k && w.entities[i].alive ==> (#[trigger] w.damage_among(k).entities[i]).suffer_damage is None,
    decreases k,
{
    if k > 0 {
        lemma_damage_among(w, k - 1);
        let v = w.damage_among(k - 1);
        let r = v.damage_step(k - 1);
        assert(r == w.damage_among(k));
        assert forall|i: int| 0 <= i < w.entities.len() implies (#[trigger] r.entities[i]).after_damage(
            w.entities[i],
        ) by {
            assert(v.entities[i].after_damage(w.entities[i]));
        }
        assert forall|i: int| 0 <= i < k && w.entities[i].alive implies (#[trigger] r.entities[i]).suffer_damage
            is None by {
            assert(v.entities[i].after_damage(w.entities[i]));
            if i < k - 1 {
                assert(v.entities[i].suffer_damage is None);
            }
        }
    }
}

/// The pickup system touches nothing but intents to pick up, places and
/// backpack relations, and leaves no such intent on a live entity that it
/// has looked at.
pub proof fn lemma_pickup_among(w: WorldView, k: int)
    requires
        0 <= k <= w.entities.len(),
    ensures
        w.pickup_among(k).entities.len() == w.entities.len(),
        w.pickup_among(k).pending_creates == w.pending_creates,
        w.pickup_among(k).pending_deletes == w.pending_deletes,
        w.pickup_among(k).player == w.player,
        w.log.is_prefix_of(w.pickup_among(k).log),
        forall|i: int|
            0 <= i < w.entities.len() ==> (#[trigger] w.pickup_among(k).entities[i]).after_pickup(w.entities[i]),
        forall|i: int|
            0 <= i < k && w.entities[i].alive ==> (#[trigger] w.pickup_among(k).entities[i]).wants_to_pickup is None,
    decreases k,
{
    if k > 0 {
        lemma_pickup_among(w, k - 1);
        let v = w.pickup_among(k - 1);
        let r = v.pickup_step(k - 1);
        assert(r == w.pickup_among(k));
        assert forall|i: int| 0 <= i < w.entities.len() implies (#[trigger] r.entities[i]).after_pickup(
            w.entities[i],
        ) by {
            assert(v.entities[i].after_pickup(w.entities[i]));
        }
        assert forall|i: int| 0 <= i < k && w.entities[i].alive implies (#[trigger] r.entities[i]).wants_to_pickup
            is None by {
            assert(v.entities[i].after_pickup(w.entities[i]));
            if i < k - 1 {
                assert(v.entities[i].wants_to_pickup is None);
            }
        }
    }
}

/// The drop system touches nothing but intents to drop, places and
/// backpack relations, and leaves no such intent on a live entity that it
/// has looked at.
pub proof fn lemma_drop_among(w: WorldView, k: int)
    requires
        0 <= k <= w.entities.len(),
    ensures
        w.drop_among(k).entities.len() == w.entities.len(),
        w.drop_among(k).pending_creates == w.pending_creates,
        w.drop_among(k).pending_deletes == w.pending_deletes,
        w.drop_among(k).player == w.player,
        w.log.is_prefix_of(w.drop_among(k).log),
        forall|i: int| 0 <= i < w.entities.len() ==> (#[trigger] w.drop_among(k).entities[i]).after_drop(w.entities[i]),
        forall|i: int|
            0 <= i < k && w.entities[i].alive ==> (#[trigger] w.drop_among(k).entities[i]).wants_to_drop is None,
    decreases k,
{
    if k > 0 {
        lemma_drop_among(w, k - 1);
        let v = w.drop_among(k - 1);
        let r = v.drop_step(k - 1);
        assert(r == w.drop_among(k));
        assert forall|i: int| 0 <= i < w.entities.len() implies (#[trigger] r.entities[i]).after_drop(
            w.entities[i],
        ) by {
            assert(v.entities[i].after_drop(w.entities[i]));
        }
        assert forall|i: int| 0 <= i < k && w.entities[i].alive implies (#[trigger] r.entities[i]).wants_to_drop
            is None by {
            assert(v.entities[i].after_drop(w.entities[i]));
            if i < k - 1 {
                assert(v.entities[i].wants_to_drop is None);
            }
        }
    }
}

/// The system that takes equipment off touches nothing but the intents to
/// do so and the equipment and backpack relations, and leaves no such intent
/// on a live entity that it has looked at.
pub proof fn lemma_remove_among(w: WorldView, k: int)
    requires
        0 <= k <= w.entities.len(),
    ensures
        w.remove_among(k).entities.len() == w.entities.len(),
        w.remove_among(k).pending_creates == w.pending_creates,
        w.remove_among(k).pending_deletes == w.pending_deletes,
        w.remove_among(k).player == w.player,
        w.log.is_prefix_of(w.remove_among(k).log),
        forall|i: int|
            0 <= i < w.entities.len() ==> (#[trigger] w.remove_among(k).entities[i]).after_remove(w.entities[i]),
        forall|i: int|
            0 <= i < k && w.entities[i].alive ==> (#[trigger] w.remove_among(k).entities[i]).wants_to_remove is None,
    decreases k,
{
    if k > 0 {
        lemma_remove_among(w, k - 1);
        let v = w.remove_among(k - 1);
        let r = v.remove_step(k - 1);
        assert(r == w.remove_among(k));
        assert forall|i: int| 0 <= i < w.entities.len() implies (#[trigger] r.entities[i]).after_remove(
            w.entities[i],
        ) by {
            assert(v.entities[i].after_remove(w.entities[i]));
        }
        assert forall|i: int| 0 <= i < k && w.entities[i].alive implies (#[trigger] r.entities[i]).wants_to_remove
            is None by {
            assert(v.entities[i].after_remove(w.entities[i]));
            if i < k - 1 {
                assert(v.entities[i].wants_to_remove is None);
            }
        }
    }
}

/// Damage by an item touches nothing but the damage that waits.
pub proof fn lemma_hit_among(w: WorldView, who: Entity, item: Entity, targets: Seq<Entity>, damage: i32, k: int)
    requires
        0 <= k <= targets.len(),
    ensures
        w.hit_among(who, item, targets, damage, k).entities.len() == w.entities.len(),
        w.hit_among(who, item, targets, damage, k).pending_creates == w.pending_creates,
        w.hit_among(who, item, targets, damage, k).map == w.map,
        forall|i: int|
            0 <= i < w.entities.len() ==> #[trigger] w.hit_among(who, item, targets, damage, k).entities[i] == (
            RecordView {
                suffer_damage: w.hit_among(who, item, targets, damage, k).entities[i].suffer_damage,
                ..w.entities[i]
            }),
    decreases k,
{
    if k > 0 {
        lemma_hit_among(w, who, item, targets, damage, k - 1);
        let v = w.hit_among(who, item, targets, damage, k - 1);
        let r = v.hit_step(who, item, targets[k - 1], damage);
        assert(r == w.hit_among(who, item, targets, damage, k));
        assert forall|i: int| 0 <= i < w.entities.len() implies #[trigger] r.entities[i] == (RecordView {
            suffer_damage: r.entities[i].suffer_damage,
            ..w.entities[i]
        }) by {
            assert(v.entities[i] == (RecordView { suffer_damage: v.entities[i].suffer_damage, ..w.entities[i] }));
        }
    }
}

/// Confusion by an item touches nothing but the confusion of its targets.
pub proof fn lemma_confuse_among(
    w: WorldView,
    who: Entity,
    item: Entity,
    targets: Seq<Entity>,
    confusion: Confusion,
    k: int,
)
    requires
        0 <= k <= targets.len(),
    ensures
        w.confuse_among(who, item, targets, confusion, k).entities.len() == w.entities.len(),
        w.confuse_among(who, item, targets, confusion, k).pending_creates == w.pending_creates,
        forall|i: int|
            0 <= i < w.entities.len() ==> #[trigger] w.confuse_among(who, item, targets, confusion, k).entities[i] == (
            RecordView {
                confusion: w.confuse_among(who, item, targets, confusion, k).entities[i].confusion,
                ..w.entities[i]
            }),
    decreases k,
{
    if k > 0 {
        lemma_confuse_among(w, who, item, targets, confusion, k - 1);
        let v = w.confuse_among(who, item, targets, confusion, k - 1);
        let r = v.confuse_step(who, item, targets[k - 1], confusion);
        assert(r == w.confuse_among(who, item, targets, confusion, k));
        assert forall|i: int| 0 <= i < w.entities.len() implies #[trigger] r.entities[i] == (RecordView {
            confusion: r.entities[i].confusion,
            ..w.entities[i]
        }) by {
            assert(v.entities[i] == (RecordView { confusion: v.entities[i].confusion, ..w.entities[i] }));
        }
    }
}

/// The use of an item leaves every intent to use an item as it was, and
/// touches nothing that is not its business.
pub proof fn lemma_apply_item(w: WorldView, who: Entity, item: Entity, target: Option<Position>)
    requires
        who.id < w.entities.len(),
        w.valid(item),
    ensures
        w.apply_item(who, item, target).entities.len() == w.entities.len(),
        w.apply_item(who, item, target).pending_creates == w.pending_creates,
        forall|i: int|
            0 <= i < w.entities.len() ==> {
                &&& (#[trigger] w.apply_item(who, item, target).entities[i]).after_use(w.entities[i])
                &&& w.apply_item(who, item, target).entities[i].wants_to_use == w.entities[i].wants_to_use
            },
{
    let it = w.entities[item.id as int];
    let n = w.entities.len() as int;
    if it.equippable is Some && !it.consumable {
        lemma_unequip_among(w, who, it.equippable->0.slot, n);
    } else {
        let healed = match it.provides_healing {
            Some(h) => w.heal(who, item, h.heal_amount),
            None => w,
        };
        assert(healed.entities.len() == n);
        assert forall|i: int| 0 <= i < n implies #[trigger] healed.entities[i] == (RecordView {
            combat_stats: healed.entities[i].combat_stats,
            ..w.entities[i]
        }) by {}
        if it.ranged is Some && target is Some && w.map.in_bounds(target->0.x as int, target->0.y as int) {
            let targets = healed.targets(target->0, it.area_of_effect);
            let hurt = match it.inflicts_damage {
                Some(d) => healed.hit_among(who, item, targets, d.damage, targets.len() as int),
                None => healed,
            };
            if it.inflicts_damage is Some {
                lemma_hit_among(healed, who, item, targets, it.inflicts_damage->0.damage, targets.len() as int);
            }
            if it.confusion is Some {
                lemma_confuse_among(hurt, who, item, targets, it.confusion->0, targets.len() as int);
            }
            let aimed = healed.aim(who, item, target->0, it.area_of_effect, it.inflicts_damage, it.confusion);
            assert forall|i: int| 0 <= i < n implies #[trigger] aimed.entities[i] == (RecordView {
                combat_stats: aimed.entities[i].combat_stats,
                suffer_damage: aimed.entities[i].suffer_damage,
                confusion: aimed.entities[i].confusion,
                ..w.entities[i]
            }) by {
                let a = healed.entities[i];
                let b = hurt.entities[i];
            }
        }
    }
}

/// The system that uses items touches nothing that is not its business,
/// and leaves no intent to use an item on a live entity that it has looked at.
pub proof fn lemma_use_among(w: WorldView, k: int)
    requires
        0 <= k <= w.entities.len(),
    ensures
        w.use_among(k).entities.len() == w.entities.len(),
        w.use_among(k).pending_creates == w.pending_creates,
        forall|i: int| 0 <= i < w.entities.len() ==> (#[trigger] w.use_among(k).entities[i]).after_use(w.entities[i]),
        forall|i: int|
            0 <= i < k && w.entities[i].alive ==> (#[trigger] w.use_among(k).entities[i]).wants_to_use is None,
    decreases k,
{
    if k > 0 {
        lemma_use_among(w, k - 1);
        let v = w.use_among(k - 1);
        let r = v.use_step(k - 1);
        assert(r == w.use_among(k));
        let old_record = v.entities[k - 1];
        let cleared = v.with_record(k - 1, RecordView { wants_to_use: None, ..old_record });
        if old_record.alive && old_record.wants_to_use is Some && cleared.valid(old_record.wants_to_use->0.item) {
            lemma_apply_item(
                cleared,
                Entity { id: (k - 1) as usize },
                old_record.wants_to_use->0.item,
                old_record.wants_to_use->0.target,
            );
        }
        assert forall|i: int| 0 <= i < w.entities.len() implies (#[trigger] r.entities[i]).after_use(
            w.entities[i],
        ) by {
            assert(v.entities[i].after_use(w.entities[i]));
            let c = cleared.entities[i];
        }
        assert forall|i: int| 0 <= i < k && w.entities[i].alive implies (#[trigger] r.entities[i]).wants_to_use
            is None by {
            assert(v.entities[i].after_use(w.entities[i]));
            let c = cleared.entities[i];
            if i < k - 1 {
                assert(v.entities[i].wants_to_use is None);
            }
        }
    }
}

/// No intent outlives a pass: once the systems have resolved the intents
/// and the commit is made, no live entity of before holds an intent of any
/// kind. Nothing is deleted but by the commit, and the entities that the
/// commit creates are those whose creation was waiting, as they were asked for.
pub proof fn lemma_pass_consumes_intents(w: WorldView)
    ensures
        w.resolved().entities.len() == w.entities.len() + w.pending_creates.len(),
        forall|i: int|
            0 <= i < w.entities.len() && (#[trigger] w.resolved().entities[i]).alive ==> w.entities[i].alive
                && w.resolved().entities[i].no_intents(),
        forall|i: int|
            0 <= i < w.pending_creates.len() ==> w.resolved().entities[w.entities.len() + i]
                == #[trigger] w.pending_creates[i],
{
    let n = w.entities.len() as int;
    let fought = w.melee_resolved();
    lemma_melee_among(w, n);
    let hurt = fought.damage_applied();
    lemma_damage_among(fought, n);
    let picked = hurt.pickups_resolved();
    lemma_pickup_among(hurt, n);
    let used = picked.uses_resolved();
    lemma_use_among(picked, n);
    let dropped = used.drops_resolved();
    lemma_drop_among(used, n);
    let removed = dropped.removals_resolved();
    lemma_remove_among(dropped, n);
    let done = removed.commit();
    assert(done == w.resolved());
    assert forall|i: int| 0 <= i < n && (#[trigger] done.entities[i]).alive implies w.entities[i].alive
        && done.entities[i].no_intents() by {
        assert(done.entities[i] == removed.entities[i]);
        assert(fought.entities[i].after_melee(w.entities[i]));
        assert(hurt.entities[i].after_damage(fought.entities[i]));
        assert(picked.entities[i].after_pickup(hurt.entities[i]));
        assert(used.entities[i].after_use(picked.entities[i]));
        assert(dropped.entities[i].after_drop(used.entities[i]));
        assert(removed.entities[i].after_remove(dropped.entities[i]));
    }
}

} // verus!
