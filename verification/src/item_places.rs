//! An item is in one place at a time: on the map, in a backpack, or
//! equipped. The systems that move items keep it so.

use crate::components::{Entity, Position};
use crate::intents::{
    lemma_confuse_among, lemma_damage_among, lemma_drop_among, lemma_hit_among, lemma_melee_among, lemma_pickup_among,
};
use crate::inventory_system::{lemma_equip_exclusive, lemma_unequip_among};
use crate::world::{RecordView, WorldView};
use vstd::prelude::*;

verus! {

impl RecordView {
    /// An item has at most one of a place on the map, a backpack that it is
    /// in, and an owner who has it equipped.
    pub open spec fn in_one_place(self) -> bool {
        self.item ==> {
            &&& self.position is Some ==> self.in_backpack is None && self.equipped is None
            &&& self.in_backpack is Some ==> self.equipped is None
        }
    }
}

impl WorldView {
    /// Every item is in one place at most, those whose creation waits
    /// included.
    pub open spec fn items_in_one_place(self) -> bool {
        &&& forall|i: int| 0 <= i < self.entities.len() ==> (#[trigger] self.entities[i]).in_one_place()
        &&& forall|i: int| 0 <= i < self.pending_creates.len() ==> (#[trigger] self.pending_creates[i]).in_one_place()
    }
}

/// Picking up keeps every item in one place.
pub proof fn lemma_pickup_keeps_places(w: WorldView, k: int)
    requires
        0 <= k <= w.entities.len(),
        w.items_in_one_place(),
    ensures
        w.pickup_among(k).entities.len() == w.entities.len(),
        w.pickup_among(k).pending_creates == w.pending_creates,
        w.pickup_among(k).items_in_one_place(),
    decreases k,
{
    if k > 0 {
        lemma_pickup_keeps_places(w, k - 1);
        let v = w.pickup_among(k - 1);
        let r = v.pickup_step(k - 1);
        let cleared = v.with_record(k - 1, RecordView { wants_to_pickup: None, ..v.entities[k - 1] });
        assert forall|i: int| 0 <= i < r.entities.len() implies (#[trigger] r.entities[i]).in_one_place() by {
            assert(v.entities[i].in_one_place());
            assert(cleared.entities[i].in_one_place());
        }
    }
}

/// Dropping keeps every item in one place.
pub proof fn lemma_drop_keeps_places(w: WorldView, k: int)
    requires
        0 <= k <= w.entities.len(),
        w.items_in_one_place(),
    ensures
        w.drop_among(k).entities.len() == w.entities.len(),
        w.drop_among(k).pending_creates == w.pending_creates,
        w.drop_among(k).items_in_one_place(),
    decreases k,
{
    if k > 0 {
        lemma_drop_keeps_places(w, k - 1);
        let v = w.drop_among(k - 1);
        let r = v.drop_step(k - 1);
        let cleared = v.with_record(k - 1, RecordView { wants_to_drop: None, ..v.entities[k - 1] });
        assert forall|i: int| 0 <= i < r.entities.len() implies (#[trigger] r.entities[i]).in_one_place() by {
            assert(v.entities[i].in_one_place());
            assert(cleared.entities[i].in_one_place());
        }
    }
}

/// Taking equipment off keeps every item in one place.
pub proof fn lemma_remove_keeps_places(w: WorldView, k: int)
    requires
        0 <= k <= w.entities.len(),
        w.items_in_one_place(),
    ensures
        w.remove_among(k).entities.len() == w.entities.len(),
        w.remove_among(k).pending_creates == w.pending_creates,
        w.remove_among(k).items_in_one_place(),
    decreases k,
{
    if k > 0 {
        lemma_remove_keeps_places(w, k - 1);
        let v = w.remove_among(k - 1);
        let r = v.remove_step(k - 1);
        let cleared = v.with_record(k - 1, RecordView { wants_to_remove: None, ..v.entities[k - 1] });
        assert forall|i: int| 0 <= i < r.entities.len() implies (#[trigger] r.entities[i]).in_one_place() by {
            assert(v.entities[i].in_one_place());
            assert(cleared.entities[i].in_one_place());
        }
    }
}

/// The use of an item keeps every item in one place.
pub proof fn lemma_apply_item_keeps_places(w: WorldView, who: Entity, item: Entity, target: Option<Position>)
    requires
        who.id < w.entities.len(),
        w.valid(item),
        w.items_in_one_place(),
    ensures
        w.apply_item(who, item, target).entities.len() == w.entities.len(),
        w.apply_item(who, item, target).pending_creates == w.pending_creates,
        w.apply_item(who, item, target).items_in_one_place(),
{
    crate::intents::lemma_apply_item(w, who, item, target);
    let it = w.entities[item.id as int];
    let n = w.entities.len() as int;
    let r = w.apply_item(who, item, target);
    if it.equippable is Some && !it.consumable {
        let slot = it.equippable->0.slot;
        lemma_unequip_among(w, who, slot, n);
        let freed = w.unequip_among(who, slot, n);
        assert forall|i: int| 0 <= i < n implies (#[trigger] r.entities[i]).in_one_place() by {
            assert(w.entities[i].in_one_place());
            let f = freed.entities[i];
        }
    } else {
        let healed = match it.provides_healing {
            Some(h) => w.heal(who, item, h.heal_amount),
            None => w,
        };
        assert forall|i: int| 0 <= i < n implies (#[trigger] healed.entities[i]).in_one_place() by {
            assert(w.entities[i].in_one_place());
        }
        if it.ranged is Some && target is Some && w.map.in_bounds(target->0.x as int, target->0.y as int) {
            let targets = healed.targets(target->0, it.area_of_effect);
            let hurt = match it.inflicts_damage {
                Some(d) => healed.hit_among(who, item, targets, d.damage, targets.len() as int),
                None => healed,
            };
            if it.inflicts_damage is Some {
                lemma_hit_among(healed, who, item, targets, it.inflicts_damage->0.damage, targets.len() as int);
            }
            if it.confusion is Some {
                lemma_confuse_among(hurt, who, item, targets, it.confusion->0, targets.len() as int);
            }
            assert forall|i: int| 0 <= i < n implies (#[trigger] r.entities[i]).in_one_place() by {
                assert(healed.entities[i].in_one_place());
                let h = hurt.entities[i];
            }
        } else {
            assert forall|i: int| 0 <= i < n implies (#[trigger] r.entities[i]).in_one_place() by {
                assert(healed.entities[i].in_one_place());
            }
        }
    }
}

/// The system that uses items keeps every item in one place.
pub proof fn lemma_use_keeps_places(w: WorldView, k: int)
    requires
        0 <= k <= w.entities.len(),
        w.items_in_one_place(),
    ensures
        w.use_among(k).entities.len() == w.entities.len(),
        w.use_among(k).pending_creates == w.pending_creates,
        w.use_among(k).items_in_one_place(),
    decreases k,
{
    if k > 0 {
        lemma_use_keeps_places(w, k - 1);
        let v = w.use_among(k - 1);
        let old_record = v.entities[k - 1];
        let cleared = v.with_record(k - 1, RecordView { wants_to_use: None, ..old_record });
        assert forall|i: int| 0 <= i < cleared.entities.len() implies (#[trigger] cleared.entities[i]).in_one_place() by {
            assert(v.entities[i].in_one_place());
        }
        if old_record.alive && old_record.wants_to_use is Some && cleared.valid(old_record.wants_to_use->0.item) {
            lemma_apply_item_keeps_places(
                cleared,
                Entity { id: (k - 1) as usize },
                old_record.wants_to_use->0.item,
                old_record.wants_to_use->0.target,
            );
        }
    }
}

/// Items stay in one place: if every item is on the map, in a backpack or
/// equipped, and never two of these at once, then the same holds after the
/// systems have resolved the intents and the deletions are committed.
pub proof fn lemma_pass_keeps_items_in_one_place(w: WorldView)
    requires
        w.items_in_one_place(),
    ensures
        w.resolved().items_in_one_place(),
{
    let n = w.entities.len() as int;
    let fought = w.melee_resolved();
    lemma_melee_among(w, n);
    assert forall|i: int| 0 <= i < n implies (#[trigger] fought.entities[i]).in_one_place() by {
        assert(w.entities[i].in_one_place());
        assert(fought.entities[i].after_melee(w.entities[i]));
    }
    let hurt = fought.damage_applied();
    lemma_damage_among(fought, n);
    assert forall|i: int| 0 <= i < n implies (#[trigger] hurt.entities[i]).in_one_place() by {
        assert(fought.entities[i].in_one_place());
        assert(hurt.entities[i].after_damage(fought.entities[i]));
    }
    let picked = hurt.pickups_resolved();
    lemma_pickup_keeps_places(hurt, n);
    let used = picked.uses_resolved();
    lemma_use_keeps_places(picked, n);
    let dropped = used.drops_resolved();
    lemma_drop_keeps_places(used, n);
    let removed = dropped.removals_resolved();
    lemma_remove_keeps_places(dropped, n);
    let done = removed.commit();
    assert forall|i: int| 0 <= i < done.entities.len() implies (#[trigger] done.entities[i]).in_one_place() by {
        if i < n {
            assert(removed.entities[i].in_one_place());
        } else {
            assert(done.entities[i] == w.pending_creates[i - n]);
            assert(w.pending_creates[i - n].in_one_place());
        }
    }
}

impl WorldView {
    /// No owner has two live things equipped in one slot.
    pub open spec fn slots_exclusive(self) -> bool {
        forall|i: int, j: int|
            0 <= i < self.entities.len() && 0 <= j < self.entities.len() && i != j && (
            #[trigger] self.entities[i]).alive && (#[trigger] self.entities[j]).alive && self.entities[i].equipped
                is Some ==> self.entities[i].equipped != self.entities[j].equipped
    }

    /// `self` has the entities of `before`, none of them newly equipped.
    pub open spec fn equipment_kept_or_shed(self, before: WorldView) -> bool {
        &&& self.entities.len() == before.entities.len()
        &&& forall|i: int|
            0 <= i < self.entities.len() ==> {
                &&& (#[trigger] self.entities[i]).alive == before.entities[i].alive
                &&& self.entities[i].equipped is None || self.entities[i].equipped == before.entities[i].equipped
            }
    }
}

/// Shedding equipment keeps the slots exclusive.
pub proof fn lemma_shedding_keeps_slots(before: WorldView, after: WorldView)
    requires
        before.slots_exclusive(),
        after.equipment_kept_or_shed(before),
    ensures
        after.slots_exclusive(),
{
    assert forall|i: int, j: int|
        0 <= i < after.entities.len() && 0 <= j < after.entities.len() && i != j && (#[trigger] after.entities[i]).alive
            && (#[trigger] after.entities[j]).alive && after.entities[i].equipped is Some implies after.entities[i].equipped
        != after.entities[j].equipped by {
        assert(before.entities[i].alive && before.entities[j].alive);
    }
}

/// The use of an item keeps the slots exclusive.
pub proof fn lemma_apply_item_keeps_slots(w: WorldView, who: Entity, item: Entity, target: Option<Position>)
    requires
        who.id < w.entities.len(),
        w.valid(item),
        w.slots_exclusive(),
    ensures
        w.apply_item(who, item, target).entities.len() == w.entities.len(),
        w.apply_item(who, item, target).pending_creates == w.pending_creates,
        w.apply_item(who, item, target).slots_exclusive(),
        forall|i: int|
            0 <= i < w.entities.len() ==> (#[trigger] w.apply_item(who, item, target).entities[i]).alive
                == w.entities[i].alive,
{
    crate::intents::lemma_apply_item(w, who, item, target);
    let it = w.entities[item.id as int];
    let n = w.entities.len() as int;
    let r = w.apply_item(who, item, target);
    if it.equippable is Some && !it.consumable {
        let slot = it.equippable->0.slot;
        lemma_unequip_among(w, who, slot, n);
        lemma_equip_exclusive(w, who, item, slot);
        let freed = w.unequip_among(who, slot, n);
        assert forall|i: int, j: int|
            0 <= i < n && 0 <= j < n && i != j && (#[trigger] r.entities[i]).alive && (#[trigger] r.entities[j]).alive
                && r.entities[i].equipped is Some implies r.entities[i].equipped != r.entities[j].equipped by {
            let worn = crate::components::Equipped { owner: who, slot };
            if r.entities[i].equipped == Some(worn) {
                assert(r.wears_in(i, who, slot));
                if r.entities[j].equipped == Some(worn) {
                    assert(r.wears_in(j, who, slot));
                }
            } else if r.entities[i].equipped == r.entities[j].equipped {
                assert(i != item.id && j != item.id);
                assert(r.entities[i] == freed.entities[i]);
                assert(r.entities[j] == freed.entities[j]);
                assert(w.entities[i].alive && w.entities[j].alive);
                assert(w.entities[i].equipped == r.entities[i].equipped);
                assert(w.entities[j].equipped == r.entities[j].equipped);
            }
        }
    } else {
        assert forall|i: int| 0 <= i < n implies (#[trigger] r.entities[i]).equipped == w.entities[i].equipped
            && r.entities[i].alive == w.entities[i].alive by {
            assert(r.entities[i].after_use(w.entities[i]));
            let healed = match it.provides_healing {
                Some(h) => w.heal(who, item, h.heal_amount),
                None => w,
            };
            let h = healed.entities[i];
            if it.ranged is Some && target is Some && w.map.in_bounds(target->0.x as int, target->0.y as int) {
                let targets = healed.targets(target->0, it.area_of_effect);
                let hurt = match it.inflicts_damage {
                    Some(d) => healed.hit_among(who, item, targets, d.damage, targets.len() as int),
                    None => healed,
                };
                if it.inflicts_damage is Some {
                    lemma_hit_among(healed, who, item, targets, it.inflicts_damage->0.damage, targets.len() as int);
                }
                if it.confusion is Some {
                    lemma_confuse_among(hurt, who, item, targets, it.confusion->0, targets.len() as int);
                }
                let u = hurt.entities[i];
            }
        }
        lemma_shedding_keeps_slots(w, r);
    }
}

/// The system that uses items keeps the slots exclusive.
pub proof fn lemma_use_keeps_slots(w: WorldView, k: int)
    requires
        0 <= k <= w.entities.len(),
        w.slots_exclusive(),
    ensures
        w.use_among(k).entities.len() == w.entities.len(),
        w.use_among(k).pending_creates == w.pending_creates,
        w.use_among(k).slots_exclusive(),
    decreases k,
{
    if k > 0 {
        lemma_use_keeps_slots(w, k - 1);
        let v = w.use_among(k - 1);
        let old_record = v.entities[k - 1];
        let cleared = v.with_record(k - 1, RecordView { wants_to_use: None, ..old_record });
        assert(cleared.equipment_kept_or_shed(v));
        lemma_shedding_keeps_slots(v, cleared);
        if old_record.alive && old_record.wants_to_use is Some && cleared.valid(old_record.wants_to_use->0.item) {
            lemma_apply_item_keeps_slots(
                cleared,
                Entity { id: (k - 1) as usize },
                old_record.wants_to_use->0.item,
                old_record.wants_to_use->0.target,
            );
        }
    }
}

/// Equipment stays exclusive: if no owner has two things equipped in one
/// slot, and nothing that waits for its creation is equipped, then no owner
/// has two things equipped in one slot after the systems have resolved the
/// intents and the commit is made.
pub proof fn lemma_pass_keeps_slots_exclusive(w: WorldView)
    requires
        w.slots_exclusive(),
        forall|i: int| 0 <= i < w.pending_creates.len() ==> (#[trigger] w.pending_creates[i]).equipped is None,
    ensures
        w.resolved().slots_exclusive(),
{
    let n = w.entities.len() as int;
    let fought = w.melee_resolved();
    lemma_melee_among(w, n);
    assert(fought.equipment_kept_or_shed(w)) by {
        assert forall|i: int| 0 <= i < n implies (#[trigger] fought.entities[i]).alive == w.entities[i].alive
            && fought.entities[i].equipped == w.entities[i].equipped by {
            assert(fought.entities[i].after_melee(w.entities[i]));
        }
    }
    lemma_shedding_keeps_slots(w, fought);
    let hurt = fought.damage_applied();
    lemma_damage_among(fought, n);
    assert(hurt.equipment_kept_or_shed(fought)) by {
        assert forall|i: int| 0 <= i < n implies (#[trigger] hurt.entities[i]).alive == fought.entities[i].alive
            && hurt.entities[i].equipped == fought.entities[i].equipped by {
            assert(hurt.entities[i].after_damage(fought.entities[i]));
        }
    }
    lemma_shedding_keeps_slots(fought, hurt);
    let picked = hurt.pickups_resolved();
    lemma_pickup_among(hurt, n);
    assert(picked.equipment_kept_or_shed(hurt)) by {
        assert forall|i: int| 0 <= i < n implies (#[trigger] picked.entities[i]).alive == hurt.entities[i].alive
            && picked.entities[i].equipped == hurt.entities[i].equipped by {
            assert(picked.entities[i].after_pickup(hurt.entities[i]));
        }
    }
    lemma_shedding_keeps_slots(hurt, picked);
    let used = picked.uses_resolved();
    lemma_use_keeps_slots(picked, n);
    let dropped = used.drops_resolved();
    lemma_drop_among(used, n);
    assert(dropped.equipment_kept_or_shed(used)) by {
        assert forall|i: int| 0 <= i < n implies (#[trigger] dropped.entities[i]).alive == used.entities[i].alive
            && dropped.entities[i].equipped == used.entities[i].equipped by {
            assert(dropped.entities[i].after_drop(used.entities[i]));
        }
    }
    lemma_shedding_keeps_slots(used, dropped);
    let removed = dropped.removals_resolved();
    lemma_remove_keeps_slots(dropped, n);
    let done = removed.commit();
    assert forall|i: int, j: int|
        0 <= i < done.entities.len() && 0 <= j < done.entities.len() && i != j && (#[trigger] done.entities[i]).alive
            && (#[trigger] done.entities[j]).alive && done.entities[i].equipped is Some implies done.entities[i].equipped
        != done.entities[j].equipped by {
        if i < n {
            assert(done.entities[i] == removed.entities[i]);
        } else {
            assert(done.entities[i] == w.pending_creates[i - n]);
        }
        if j < n {
            assert(done.entities[j] == removed.entities[j]);
        } else {
            assert(done.entities[j] == w.pending_creates[j - n]);
        }
    }
}

/// Taking equipment off keeps the slots exclusive.
pub proof fn lemma_remove_keeps_slots(w: WorldView, k: int)
    requires
        0 <= k <= w.entities.len(),
        w.slots_exclusive(),
    ensures
        w.remove_among(k).entities.len() == w.entities.len(),
        w.remove_among(k).pending_creates == w.pending_creates,
        w.remove_among(k).slots_exclusive(),
    decreases k,
{
    if k > 0 {
        lemma_remove_keeps_slots(w, k - 1);
        let v = w.remove_among(k - 1);
        let r = v.remove_step(k - 1);
        let cleared = v.with_record(k - 1, RecordView { wants_to_remove: None, ..v.entities[k - 1] });
        assert(r.equipment_kept_or_shed(v)) by {
            assert forall|i: int| 0 <= i < v.entities.len() implies (#[trigger] r.entities[i]).alive
                == v.entities[i].alive && (r.entities[i].equipped is None || r.entities[i].equipped
                == v.entities[i].equipped) by {
                let c = cleared.entities[i];
            }
        }
        lemma_shedding_keeps_slots(v, r);
    }
}

} // verus!
