//! What a pass makes of a blow, of the use of an item that heals, and of
//! putting on a piece of equipment; and what a tick that descends makes of
//! what the player holds. A pass is taken here from where its intents are
//! resolved: through melee, damage, picking up, using, dropping and taking
//! off, and through the commit, as `resolved` has it.

use crate::components::{
    CombatStats, Entity, EquipmentSlot, Equippable, InBackpack, Position, WantsToMelee, WantsToUseItem,
};
use crate::damage_system::health_after;
use crate::gamelog::LogEvent;
use crate::intents::{
    lemma_damage_among, lemma_drop_among, lemma_melee_among, lemma_pickup_among, lemma_remove_among,
};
use crate::inventory_system::{healed_hp, lemma_equip_exclusive, lemma_unequip_among};
use crate::melee_combat_system::{clamp_i32, melee_damage};
use crate::monster_ai_system::NavigationPath;
use crate::map::TileMap;
use crate::world::{RecordView, WorldView};
use crate::{InputEvent, RunState};
use vstd::prelude::*;

verus! {

impl RecordView {
    /// The record after the damage that waits on it, if any, is taken from
    /// its health.
    pub open spec fn damaged(self) -> RecordView {
        if self.alive && self.suffer_damage is Some {
            RecordView {
                suffer_damage: None,
                combat_stats: match self.combat_stats {
                    Some(s) => Some(CombatStats { hp: health_after(s.hp, self.suffer_damage->0), ..s }),
                    None => None,
                },
                ..self
            }
        } else {
            self
        }
    }
}

impl WorldView {
    /// The world after the systems have resolved the intents, before the
    /// commit.
    pub open spec fn settled(self) -> WorldView {
        self.melee_resolved().damage_applied().pickups_resolved().uses_resolved().drops_resolved().removals_resolved()
    }

    /// The entity `i` is alive and has the intent to strike `d`.
    pub open spec fn strikes(self, i: int, d: Entity) -> bool {
        &&& 0 <= i < self.entities.len()
        &&& self.entities[i].alive
        &&& self.entities[i].wants_to_melee == Some(WantsToMelee { target: d })
    }

    /// The entity `i` is alive and has the intent to use an item.
    pub open spec fn uses_an_item(self, i: int) -> bool {
        0 <= i < self.entities.len() && self.entities[i].alive && self.entities[i].wants_to_use is Some
    }

    /// The damage of the blow of the entity `a` on `d`.
    pub open spec fn blow(self, a: int, d: Entity) -> i32 {
        melee_damage(self.entities[a].combat_stats->0.power, self.entities[d.id as int].combat_stats->0.defense)
    }

    /// What the log says of the blow of the entity `a` on `d`.
    pub open spec fn blow_logged(self, a: int, d: Entity) -> LogEvent {
        if self.blow(a, d) == 0 {
            LogEvent::NoDamage { attacker: Entity { id: a as usize }, target: d }
        } else {
            LogEvent::Hit { attacker: Entity { id: a as usize }, target: d, damage: self.blow(a, d) }
        }
    }

    /// The entity `a` strikes `d`, both have combat stats, no damage waits
    /// on `d`, and nobody else strikes `d`.
    pub open spec fn one_blow_on(self, a: int, d: Entity) -> bool {
        &&& self.strikes(a, d)
        &&& self.entities[a].combat_stats is Some
        &&& self.valid(d)
        &&& self.entities[d.id as int].combat_stats is Some
        &&& self.entities[d.id as int].suffer_damage is None
        &&& forall|i: int| i != a ==> !#[trigger] self.strikes(i, d)
    }
}

/// What a log holds, every log that it is the beginning of holds too.
pub proof fn lemma_prefix_contains(short: Seq<LogEvent>, long: Seq<LogEvent>, e: LogEvent)
    requires
        short.is_prefix_of(long),
        short.contains(e),
    ensures
        long.contains(e),
{
    let j = choose|j: int| 0 <= j < short.len() && short[j] == e;
    assert(long[j] == e);
}

/// The damage system, having looked at the first `k` entities, has taken
/// the waiting damage from the health of each of them and touched no other.
pub proof fn lemma_damage_exact(w: WorldView, k: int)
    requires
        0 <= k <= w.entities.len(),
    ensures
        w.damage_among(k).entities.len() == w.entities.len(),
        forall|j: int|
            0 <= j < w.entities.len() ==> #[trigger] w.damage_among(k).entities[j] == if j < k {
                w.entities[j].damaged()
            } else {
                w.entities[j]
            },
    decreases k,
{
    if k > 0 {
        lemma_damage_exact(w, k - 1);
        let v = w.damage_among(k - 1);
        let r = v.damage_step(k - 1);
        assert(r == w.damage_among(k));
        assert forall|j: int| 0 <= j < w.entities.len() implies #[trigger] r.entities[j] == if j < k {
            w.entities[j].damaged()
        } else {
            w.entities[j]
        } by {
            let before = v.entities[j];
            if j == k - 1 {
                assert(r.entities[j] =~~= w.entities[j].damaged());
            }
        }
    }
}

/// Where nobody wants to use an item, the system that uses items changes
/// nothing.
pub proof fn lemma_nobody_uses(w: WorldView, k: int)
    requires
        0 <= k <= w.entities.len(),
        forall|i: int| !#[trigger] w.uses_an_item(i),
    ensures
        w.use_among(k) == w,
    decreases k,
{
    if k > 0 {
        lemma_nobody_uses(w, k - 1);
        assert(!w.uses_an_item(k - 1));
    }
}

/// The melee system, having looked at the first `k` entities, has let the
/// one blow on `d` land if its attacker was among them: the damage of the
/// blow, if it is any, waits on `d` alone, and the log tells of the blow.
pub proof fn lemma_melee_one_blow(w: WorldView, a: int, d: Entity, k: int)
    requires
        0 <= k <= w.entities.len() <= usize::MAX,
        w.one_blow_on(a, d),
    ensures
        w.melee_among(k).entities[d.id as int].suffer_damage == if k > a && w.blow(a, d) > 0 {
            Some(seq![w.blow(a, d)])
        } else {
            None
        },
        forall|i: int|
            k <= i < w.entities.len() ==> (#[trigger] w.melee_among(k).entities[i]).wants_to_melee
                == w.entities[i].wants_to_melee,
        k > a ==> w.melee_among(k).log.contains(w.blow_logged(a, d)),
    decreases k,
{
    if k > 0 {
        lemma_melee_one_blow(w, a, d, k - 1);
        lemma_melee_among(w, k - 1);
        let i = k - 1;
        let v = w.melee_among(k - 1);
        let r = v.melee_step(i);
        assert(r == w.melee_among(k));
        assert(v.entities[i].after_melee(w.entities[i]));
        assert(v.entities[i].wants_to_melee == w.entities[i].wants_to_melee);
        assert(v.entities[d.id as int].after_melee(w.entities[d.id as int]));
        assert(v.entities[a].after_melee(w.entities[a]));
        let cleared = v.with_record(i, RecordView { wants_to_melee: None, ..v.entities[i] });
        assert forall|j: int| k <= j < w.entities.len() implies (#[trigger] r.entities[j]).wants_to_melee
            == w.entities[j].wants_to_melee by {
            assert(v.entities[j].wants_to_melee == w.entities[j].wants_to_melee);
            let c = cleared.entities[j];
        }
        if i == a {
            assert(cleared.valid(d));
            assert(cleared.entities[d.id as int].combat_stats == w.entities[d.id as int].combat_stats);
            let blow = w.blow(a, d);
            if blow == 0 {
                let event = LogEvent::NoDamage { attacker: Entity { id: a as usize }, target: d };
                assert(r.log == cleared.log.push(event));
                assert(r.log[cleared.log.len() as int] == event);
            } else {
                let event = LogEvent::Hit { attacker: Entity { id: a as usize }, target: d, damage: blow };
                assert(r.log == cleared.log.push(event));
                assert(r.log[cleared.log.len() as int] == event);
                assert(cleared.entities[d.id as int].suffer_damage is None);
                assert(r.entities[d.id as int].suffer_damage->0 =~= seq![blow]);
            }
        } else {
            if w.entities[i].alive && w.entities[i].wants_to_melee is Some {
                let target = w.entities[i].wants_to_melee->0.target;
                assert(!w.strikes(i, d));
                assert(target != d);
                assert(target.id != d.id);
            }
            assert(r.entities[d.id as int].suffer_damage == v.entities[d.id as int].suffer_damage);
            if i > a {
                assert(v.log.is_prefix_of(r.log));
                lemma_prefix_contains(v.log, r.log, w.blow_logged(a, d));
            }
        }
    }
}

/// A blow, taken through a whole pass. Where one entity strikes another,
/// nobody else strikes the same target, nobody uses an item and the target
/// is not about to be deleted: after the pass the health of the target is
/// lower by the attacker's power less the target's defence, if that is more
/// than nothing, and else as it was; no damage waits on the target; the log
/// tells of the blow; and the attacker, if it is still there, has no melee
/// intent left.
pub proof fn lemma_pass_lands_one_blow(w: WorldView, a: int, d: Entity)
    requires
        w.entities.len() <= usize::MAX,
        w.one_blow_on(a, d),
        forall|i: int| !#[trigger] w.uses_an_item(i),
        !w.doomed(d.id as int),
    ensures
        w.resolved().entities[d.id as int].alive,
        w.resolved().entities[d.id as int].combat_stats == Some(
            CombatStats {
                hp: if w.blow(a, d) > 0 {
                    clamp_i32(w.entities[d.id as int].combat_stats->0.hp - w.blow(a, d))
                } else {
                    w.entities[d.id as int].combat_stats->0.hp
                },
                ..w.entities[d.id as int].combat_stats->0
            },
        ),
        w.resolved().entities[d.id as int].suffer_damage is None,
        w.resolved().log.contains(w.blow_logged(a, d)),
        w.resolved().entities[a].alive ==> w.resolved().entities[a].wants_to_melee is None,
{
    let n = w.entities.len() as int;
    let t = d.id as int;
    let fought = w.melee_resolved();
    lemma_melee_among(w, n);
    lemma_melee_one_blow(w, a, d, n);
    assert(fought.entities[t].after_melee(w.entities[t]));
    let hurt = fought.damage_applied();
    lemma_damage_among(fought, n);
    lemma_damage_exact(fought, n);
    assert(hurt.entities[t] == fought.entities[t].damaged());
    if w.blow(a, d) > 0 {
        let amounts = seq![w.blow(a, d)];
        assert(amounts.drop_last() =~= Seq::<i32>::empty());
        assert(crate::damage_system::total(amounts) == w.blow(a, d)) by {
            reveal_with_fuel(crate::damage_system::total, 3);
        }
    }
    let picked = hurt.pickups_resolved();
    lemma_pickup_among(hurt, n);
    assert(picked.entities[t].after_pickup(hurt.entities[t]));
    assert forall|i: int| !#[trigger] picked.uses_an_item(i) by {
        if 0 <= i < n {
            assert(!w.uses_an_item(i));
            assert(fought.entities[i].after_melee(w.entities[i]));
            assert(hurt.entities[i].after_damage(fought.entities[i]));
            assert(picked.entities[i].after_pickup(hurt.entities[i]));
        }
    }
    let used = picked.uses_resolved();
    lemma_nobody_uses(picked, n);
    let dropped = used.drops_resolved();
    lemma_drop_among(used, n);
    assert(dropped.entities[t].after_drop(used.entities[t]));
    let removed = dropped.removals_resolved();
    lemma_remove_among(dropped, n);
    assert(removed.entities[t].after_remove(dropped.entities[t]));
    let done = removed.commit();
    assert(done == w.resolved());
    assert(removed.doomed(t) == w.doomed(t));
    assert(done.entities[t] == removed.entities[t]);
    lemma_prefix_contains(hurt.log, picked.log, w.blow_logged(a, d));
    lemma_prefix_contains(used.log, dropped.log, w.blow_logged(a, d));
    lemma_prefix_contains(dropped.log, removed.log, w.blow_logged(a, d));
    crate::intents::lemma_pass_consumes_intents(w);
}

/// Where nobody strikes the entity `t` and no damage waits on it, none
/// waits on it after the melee system has looked at the first `k` entities.
pub proof fn lemma_melee_no_blow(w: WorldView, t: int, k: int)
    requires
        0 <= k <= w.entities.len() <= usize::MAX,
        0 <= t < w.entities.len(),
        w.entities[t].suffer_damage is None,
        forall|i: int| !#[trigger] w.strikes(i, Entity { id: t as usize }),
    ensures
        w.melee_among(k).entities[t].suffer_damage is None,
        forall|i: int|
            k <= i < w.entities.len() ==> (#[trigger] w.melee_among(k).entities[i]).wants_to_melee
                == w.entities[i].wants_to_melee,
    decreases k,
{
    if k > 0 {
        lemma_melee_no_blow(w, t, k - 1);
        lemma_melee_among(w, k - 1);
        let i = k - 1;
        let v = w.melee_among(k - 1);
        let r = v.melee_step(i);
        assert(r == w.melee_among(k));
        assert(v.entities[i].after_melee(w.entities[i]));
        assert(v.entities[i].wants_to_melee == w.entities[i].wants_to_melee);
        let cleared = v.with_record(i, RecordView { wants_to_melee: None, ..v.entities[i] });
        assert forall|j: int| k <= j < w.entities.len() implies (#[trigger] r.entities[j]).wants_to_melee
            == w.entities[j].wants_to_melee by {
            assert(v.entities[j].wants_to_melee == w.entities[j].wants_to_melee);
            let c = cleared.entities[j];
        }
        if w.entities[i].alive && w.entities[i].wants_to_melee is Some {
            let target = w.entities[i].wants_to_melee->0.target;
            assert(!w.strikes(i, Entity { id: t as usize }));
            assert(target.id != t);
        }
        assert(r.entities[t].suffer_damage == v.entities[t].suffer_damage);
    }
}

/// Where the entity `u` alone wants to use an item, the system that uses
/// items does what the use of `u` does, and nothing else.
pub proof fn lemma_sole_user(w: WorldView, u: int, k: int)
    requires
        0 <= k <= w.entities.len() <= usize::MAX,
        0 <= u < w.entities.len(),
        forall|i: int| i != u ==> !#[trigger] w.uses_an_item(i),
    ensures
        w.use_among(k) == if k > u {
            w.use_step(u)
        } else {
            w
        },
    decreases k,
{
    if k > 0 {
        lemma_sole_user(w, u, k - 1);
        let i = k - 1;
        let v = w.use_among(k - 1);
        if i > u {
            assert(!w.uses_an_item(i));
            let r = w.entities[u];
            let cleared = w.with_record(u, RecordView { wants_to_use: None, ..r });
            if r.alive && r.wants_to_use is Some && cleared.valid(r.wants_to_use->0.item) {
                crate::intents::lemma_apply_item(
                    cleared,
                    Entity { id: u as usize },
                    r.wants_to_use->0.item,
                    r.wants_to_use->0.target,
                );
                assert(v.entities[i].after_use(cleared.entities[i]));
            }
            assert(!v.uses_an_item(i));
        } else if i < u {
            assert(!w.uses_an_item(i));
        }
    }
}

impl WorldView {
    /// The entity `u` alone wants to use an item, and it is `item`, aimed
    /// at nothing; nothing damages `u`: no damage waits on it and nobody
    /// strikes it; and `u` is not about to be deleted.
    pub open spec fn sole_use_of(self, u: int, item: Entity) -> bool {
        &&& 0 <= u < self.entities.len()
        &&& self.entities[u].alive
        &&& self.entities[u].wants_to_use == Some(WantsToUseItem { item, target: None })
        &&& forall|i: int| i != u ==> !#[trigger] self.uses_an_item(i)
        &&& self.entities[u].suffer_damage is None
        &&& forall|i: int| !#[trigger] self.strikes(i, Entity { id: u as usize })
        &&& !self.doomed(u)
    }
}

/// The world on which the one user of a pass uses its item: what the melee,
/// damage and pickup systems have left. The user's health is as it was, its
/// intent is in place, nobody else wants to use an item, and of the item
/// nothing has changed but, at most, where it is.
proof fn lemma_before_sole_use(w: WorldView, u: int, item: Entity)
    requires
        w.entities.len() <= usize::MAX,
        w.sole_use_of(u, item),
    ensures
        ({
            let picked = w.melee_resolved().damage_applied().pickups_resolved();
            &&& picked.entities.len() == w.entities.len()
            &&& picked.pending_deletes == w.pending_deletes
            &&& picked.pending_creates == w.pending_creates
            &&& picked.player == w.player
            &&& picked.entities[u].combat_stats == w.entities[u].combat_stats
            &&& picked.entities[u].wants_to_use == w.entities[u].wants_to_use
            &&& picked.entities[u].wants_to_remove == w.entities[u].wants_to_remove
            &&& forall|i: int| i != u ==> !#[trigger] picked.uses_an_item(i)
            &&& forall|j: int|
                0 <= j < w.entities.len() ==> (#[trigger] picked.entities[j]).alive == w.entities[j].alive
                    && picked.entities[j].equippable == w.entities[j].equippable && picked.entities[j].consumable
                    == w.entities[j].consumable && picked.entities[j].provides_healing == w.entities[j].provides_healing
                    && picked.entities[j].equipped == w.entities[j].equipped
        }),
{
    let n = w.entities.len() as int;
    let fought = w.melee_resolved();
    lemma_melee_among(w, n);
    lemma_melee_no_blow(w, u, n);
    let hurt = fought.damage_applied();
    lemma_damage_among(fought, n);
    lemma_damage_exact(fought, n);
    assert(fought.entities[u].after_melee(w.entities[u]));
    assert(hurt.entities[u] == fought.entities[u].damaged());
    let picked = hurt.pickups_resolved();
    lemma_pickup_among(hurt, n);
    assert(picked.entities[u].after_pickup(hurt.entities[u]));
    assert forall|j: int| 0 <= j < n implies (#[trigger] picked.entities[j]).alive == w.entities[j].alive
        && picked.entities[j].equippable == w.entities[j].equippable && picked.entities[j].consumable
        == w.entities[j].consumable && picked.entities[j].provides_healing == w.entities[j].provides_healing
        && picked.entities[j].equipped == w.entities[j].equipped && picked.entities[j].wants_to_use
        == w.entities[j].wants_to_use by {
        assert(fought.entities[j].after_melee(w.entities[j]));
        assert(hurt.entities[j].after_damage(fought.entities[j]));
        assert(picked.entities[j].after_pickup(hurt.entities[j]));
    }
    assert forall|i: int| i != u implies !#[trigger] picked.uses_an_item(i) by {
        if 0 <= i < n {
            assert(!w.uses_an_item(i));
            let r = picked.entities[i];
        }
    }
}

/// An item that heals and is used up, taken through a whole pass. Where
/// one entity alone uses an item, a live consumable that heals, and nothing
/// damages the user: after the pass the user's health is higher by what the
/// item heals, up to the maximum; the user has no intent to use an item left;
/// the item is gone with all its components; and no other entity has gone
/// because of the use.
pub proof fn lemma_pass_heals_and_consumes(w: WorldView, u: int, item: Entity)
    requires
        w.entities.len() <= usize::MAX,
        w.sole_use_of(u, item),
        w.entities[u].combat_stats is Some,
        w.valid(item),
        item.id != u,
        item != w.player,
        w.entities[item.id as int].consumable,
        w.entities[item.id as int].provides_healing is Some,
    ensures
        w.resolved().entities[u].alive,
        w.resolved().entities[u].combat_stats == Some(
            CombatStats {
                hp: healed_hp(
                    w.entities[u].combat_stats->0,
                    w.entities[item.id as int].provides_healing->0.heal_amount,
                ),
                ..w.entities[u].combat_stats->0
            },
        ),
        w.resolved().entities[u].wants_to_use is None,
        w.resolved().entities[item.id as int] == RecordView::blank(false),
        forall|j: int|
            0 <= j < w.entities.len() && j != item.id ==> (#[trigger] w.resolved().entities[j]).alive == (
            w.entities[j].alive && !w.doomed(j)),
{
    let n = w.entities.len() as int;
    let who = Entity { id: u as usize };
    lemma_before_sole_use(w, u, item);
    let picked = w.melee_resolved().damage_applied().pickups_resolved();
    let used = picked.uses_resolved();
    lemma_sole_user(picked, u, n);
    assert(used == picked.use_step(u));
    let cleared = picked.with_record(u, RecordView { wants_to_use: None, ..picked.entities[u] });
    assert(cleared.valid(item));
    assert(used == cleared.apply_item(who, item, None));
    let heal = w.entities[item.id as int].provides_healing->0.heal_amount;
    let healed = cleared.heal(who, item, heal);
    assert(used.entities =~= healed.entities);
    assert(used.pending_deletes == picked.pending_deletes.push(item));
    assert(used.pending_deletes[picked.pending_deletes.len() as int] == item);
    let dropped = used.drops_resolved();
    lemma_drop_among(used, n);
    let removed = dropped.removals_resolved();
    lemma_remove_among(dropped, n);
    let done = removed.commit();
    assert(done == w.resolved());
    assert(removed.pending_deletes == used.pending_deletes);
    assert(removed.doomed(item.id as int));
    assert forall|j: int| 0 <= j < n && j != item.id implies removed.doomed(j) == w.doomed(j) by {
        if removed.doomed(j) {
            let at = choose|at: int| 0 <= at < removed.pending_deletes.len() && (#[trigger] removed.pending_deletes[at]).id == j;
            assert(at < w.pending_deletes.len());
            assert(w.pending_deletes[at].id == j);
        }
        if w.doomed(j) {
            let at = choose|at: int| 0 <= at < w.pending_deletes.len() && (#[trigger] w.pending_deletes[at]).id == j;
            assert(removed.pending_deletes[at].id == j);
        }
    }
    assert forall|j: int| 0 <= j < n && j != item.id implies (#[trigger] done.entities[j]).alive == (
    w.entities[j].alive && !w.doomed(j)) by {
        assert(removed.doomed(j) == w.doomed(j));
        assert(dropped.entities[j].after_drop(used.entities[j]));
        assert(removed.entities[j].after_remove(dropped.entities[j]));
        let c = cleared.entities[j];
        let p = picked.entities[j];
    }
    assert(dropped.entities[u].after_drop(used.entities[u]));
    assert(removed.entities[u].after_remove(dropped.entities[u]));
    assert(removed.doomed(u) == w.doomed(u));
    assert(done.entities[u] == removed.entities[u]);
}

/// An item that is gone, taken through a whole pass. Where one entity
/// alone wants to use an item, and the item is no live entity, and nothing
/// damages the user: after the pass the user's health is as it was, its
/// intent is gone, and no entity has gone because of it.
pub proof fn lemma_pass_ignores_a_vanished_item(w: WorldView, u: int, item: Entity)
    requires
        w.entities.len() <= usize::MAX,
        w.sole_use_of(u, item),
        !w.valid(item),
    ensures
        w.resolved().entities.len() == w.entities.len() + w.pending_creates.len(),
        w.resolved().entities[u].alive,
        w.resolved().entities[u].combat_stats == w.entities[u].combat_stats,
        w.resolved().entities[u].wants_to_use is None,
        forall|j: int|
            0 <= j < w.entities.len() ==> (#[trigger] w.resolved().entities[j]).alive == (w.entities[j].alive
                && !w.doomed(j)),
{
    let n = w.entities.len() as int;
    lemma_before_sole_use(w, u, item);
    let picked = w.melee_resolved().damage_applied().pickups_resolved();
    let used = picked.uses_resolved();
    lemma_sole_user(picked, u, n);
    let cleared = picked.with_record(u, RecordView { wants_to_use: None, ..picked.entities[u] });
    assert(!cleared.valid(item)) by {
        if item.id < n {
            let r = picked.entities[item.id as int];
        }
    }
    assert(used == cleared);
    let dropped = used.drops_resolved();
    lemma_drop_among(used, n);
    let removed = dropped.removals_resolved();
    lemma_remove_among(dropped, n);
    let done = removed.commit();
    assert(done == w.resolved());
    assert forall|j: int| 0 <= j < n implies (#[trigger] done.entities[j]).alive == (w.entities[j].alive
        && !w.doomed(j)) by {
        assert(removed.doomed(j) == w.doomed(j));
        assert(dropped.entities[j].after_drop(used.entities[j]));
        assert(removed.entities[j].after_remove(dropped.entities[j]));
        let c = cleared.entities[j];
        let p = picked.entities[j];
    }
    assert(dropped.entities[u].after_drop(used.entities[u]));
    assert(removed.entities[u].after_remove(dropped.entities[u]));
    assert(done.entities[u] == removed.entities[u]);
}

impl WorldView {
    /// The entity `o` alone wants to use an item, and it is `item`, a live
    /// thing that can be equipped in `slot` and is not used up; `o` does not
    /// want to drop or to take off anything; and the item is not about to be
    /// deleted.
    pub open spec fn sole_equip_of(self, o: int, item: Entity, slot: EquipmentSlot) -> bool {
        &&& 0 <= o < self.entities.len()
        &&& self.entities[o].alive
        &&& self.entities[o].wants_to_use matches Some(intent)
        &&& intent.item == item
        &&& forall|i: int| i != o ==> !#[trigger] self.uses_an_item(i)
        &&& self.entities[o].wants_to_drop is None
        &&& self.entities[o].wants_to_remove is None
        &&& self.valid(item)
        &&& self.entities[item.id as int].equippable == Some(Equippable { slot })
        &&& !self.entities[item.id as int].consumable
        &&& !self.doomed(item.id as int)
    }
}

/// Where the entity `o` does not want to take anything off, whatever it has
/// equipped stays equipped while the intents to take things off are
/// resolved; and nothing gets equipped that was not.
pub proof fn lemma_remove_leaves_worn(w: WorldView, o: int, k: int)
    requires
        0 <= k <= w.entities.len() <= usize::MAX,
        0 <= o < w.entities.len(),
        w.entities[o].wants_to_remove is None,
    ensures
        w.remove_among(k).entities[o].wants_to_remove is None,
        forall|j: int|
            0 <= j < w.entities.len() ==> {
                &&& (#[trigger] w.remove_among(k).entities[j]).equipped is None || w.remove_among(k).entities[j].equipped
                    == w.entities[j].equipped
                &&& w.entities[j].equipped is Some && w.entities[j].equipped->0.owner == (Entity { id: o as usize })
                    ==> w.remove_among(k).entities[j].equipped == w.entities[j].equipped
            },
    decreases k,
{
    if k > 0 {
        lemma_remove_leaves_worn(w, o, k - 1);
        lemma_remove_among(w, k - 1);
        let i = k - 1;
        let v = w.remove_among(k - 1);
        let r = v.remove_step(i);
        assert(v.entities[o].after_remove(w.entities[o]));
        let cleared = v.with_record(i, RecordView { wants_to_remove: None, ..v.entities[i] });
        assert forall|j: int| 0 <= j < w.entities.len() implies {
            &&& (#[trigger] r.entities[j]).equipped is None || r.entities[j].equipped == w.entities[j].equipped
            &&& w.entities[j].equipped is Some && w.entities[j].equipped->0.owner == (Entity { id: o as usize })
                ==> r.entities[j].equipped == w.entities[j].equipped
        } by {
            let before = v.entities[j];
            let c = cleared.entities[j];
            assert(c.equipped == before.equipped);
            if v.entities[i].alive && v.entities[i].wants_to_remove is Some {
                let named = v.entities[i].wants_to_remove->0.item;
                if cleared.worn_by(named, Entity { id: i as usize }) && named.id == j {
                    assert(before.equipped->0.owner == (Entity { id: i as usize }));
                    if w.entities[j].equipped is Some && w.entities[j].equipped->0.owner == (Entity { id: o as usize }) {
                        assert(before.equipped == w.entities[j].equipped);
                        assert(i == o);
                    }
                } else {
                    assert(r.entities[j].equipped == c.equipped || named.id != j);
                }
            }
        }
    }
}

/// Where the entity `o` does not want to drop anything, whatever it carries
/// stays in its backpack while the intents to drop things are resolved.
pub proof fn lemma_drop_leaves_carried(w: WorldView, o: int, k: int)
    requires
        0 <= k <= w.entities.len() <= usize::MAX,
        0 <= o < w.entities.len(),
        w.entities[o].wants_to_drop is None,
    ensures
        w.drop_among(k).entities[o].wants_to_drop is None,
        forall|j: int|
            0 <= j < w.entities.len() && w.entities[j].in_backpack == Some(
                InBackpack { owner: Entity { id: o as usize } },
            ) && j != o ==> (#[trigger] w.drop_among(k).entities[j]).in_backpack == w.entities[j].in_backpack,
    decreases k,
{
    if k > 0 {
        lemma_drop_leaves_carried(w, o, k - 1);
        lemma_drop_among(w, k - 1);
        let i = k - 1;
        let v = w.drop_among(k - 1);
        let r = v.drop_step(i);
        assert(v.entities[o].after_drop(w.entities[o]));
        let cleared = v.with_record(i, RecordView { wants_to_drop: None, ..v.entities[i] });
        assert forall|j: int|
            0 <= j < w.entities.len() && w.entities[j].in_backpack == Some(
                InBackpack { owner: Entity { id: o as usize } },
            ) && j != o implies (#[trigger] r.entities[j]).in_backpack == w.entities[j].in_backpack by {
            let before = v.entities[j];
            let c = cleared.entities[j];
            if v.entities[i].alive && v.entities[i].wants_to_drop is Some {
                assert(i != o);
                assert(!cleared.carried_by(Entity { id: j as usize }, Entity { id: i as usize }));
            }
        }
    }
}

/// Putting on a piece of equipment, taken through a whole pass. Where one
/// entity alone uses an item, a live thing that can be equipped and is not
/// used up: after the pass the item is the one and only thing, among the
/// entities of before, that the user has equipped in the item's slot;
/// whatever else the user had there is in the user's backpack, unless it has
/// been deleted; nothing is deleted but what was about to be; and what can
/// be equipped, and what is used up, is as before.
pub proof fn lemma_pass_equips_exclusively(w: WorldView, o: int, item: Entity, slot: EquipmentSlot)
    requires
        w.entities.len() <= usize::MAX,
        w.sole_equip_of(o, item, slot),
    ensures
        w.resolved().entities.len() == w.entities.len() + w.pending_creates.len(),
        w.resolved().pending_deletes.len() == 0,
        forall|j: int|
            0 <= j < w.entities.len() ==> (#[trigger] w.resolved().wears_in(j, Entity { id: o as usize }, slot) <==> j
                == item.id),
        forall|j: int|
            0 <= j < w.entities.len() && j != item.id && j != o && !w.doomed(j) && #[trigger] w.wears_in(
                j,
                Entity { id: o as usize },
                slot,
            ) ==> w.resolved().entities[j].in_backpack == Some(InBackpack { owner: Entity { id: o as usize } }),
        forall|j: int|
            0 <= j < w.entities.len() ==> {
                &&& (#[trigger] w.resolved().entities[j]).alive == (w.entities[j].alive && !w.doomed(j))
                &&& w.resolved().entities[j].alive ==> w.resolved().entities[j].equippable == w.entities[j].equippable
                    && w.resolved().entities[j].consumable == w.entities[j].consumable
            },
{
    let n = w.entities.len() as int;
    let who = Entity { id: o as usize };
    let fought = w.melee_resolved();
    lemma_melee_among(w, n);
    let hurt = fought.damage_applied();
    lemma_damage_among(fought, n);
    let picked = hurt.pickups_resolved();
    lemma_pickup_among(hurt, n);
    assert forall|j: int| 0 <= j < n implies (#[trigger] picked.entities[j]).alive == w.entities[j].alive
        && picked.entities[j].equippable == w.entities[j].equippable && picked.entities[j].consumable
        == w.entities[j].consumable && picked.entities[j].equipped == w.entities[j].equipped
        && picked.entities[j].wants_to_use == w.entities[j].wants_to_use && picked.entities[j].wants_to_drop
        == w.entities[j].wants_to_drop && picked.entities[j].wants_to_remove == w.entities[j].wants_to_remove by {
        assert(fought.entities[j].after_melee(w.entities[j]));
        assert(hurt.entities[j].after_damage(fought.entities[j]));
        assert(picked.entities[j].after_pickup(hurt.entities[j]));
    }
    assert forall|i: int| i != o implies !#[trigger] picked.uses_an_item(i) by {
        if 0 <= i < n {
            assert(!w.uses_an_item(i));
            let r = picked.entities[i];
        }
    }
    let used = picked.uses_resolved();
    lemma_sole_user(picked, o, n);
    let cleared = picked.with_record(o, RecordView { wants_to_use: None, ..picked.entities[o] });
    assert(cleared.valid(item));
    let target = picked.entities[o].wants_to_use->0.target;
    assert(used == cleared.apply_item(who, item, target));
    assert(used == cleared.equip(who, item, slot));
    lemma_equip_exclusive(cleared, who, item, slot);
    lemma_unequip_among(cleared, who, slot, n);
    crate::intents::lemma_apply_item(cleared, who, item, target);
    assert(used.pending_deletes == w.pending_deletes);
    assert(used.player == w.player);
    assert forall|j: int| 0 <= j < n implies (#[trigger] used.entities[j]).alive == w.entities[j].alive
        && used.entities[j].equippable == w.entities[j].equippable && used.entities[j].consumable
        == w.entities[j].consumable && used.entities[j].wants_to_drop == w.entities[j].wants_to_drop
        && used.entities[j].wants_to_remove == w.entities[j].wants_to_remove by {
        assert(used.entities[j].after_use(cleared.entities[j]));
        let p = picked.entities[j];
    }
    let dropped = used.drops_resolved();
    lemma_drop_among(used, n);
    lemma_drop_leaves_carried(used, o, n);
    let removed = dropped.removals_resolved();
    lemma_remove_among(dropped, n);
    assert(dropped.entities[o].after_drop(used.entities[o]));
    lemma_remove_leaves_worn(dropped, o, n);
    let done = removed.commit();
    assert(done == w.resolved());
    assert forall|j: int| 0 <= j < n implies removed.doomed(j) == w.doomed(j) by {}
    assert forall|j: int| 0 <= j < n implies {
        &&& (#[trigger] done.entities[j]).alive == (w.entities[j].alive && !w.doomed(j))
        &&& done.entities[j].alive ==> done.entities[j].equippable == w.entities[j].equippable
            && done.entities[j].consumable == w.entities[j].consumable
    } by {
        assert(removed.doomed(j) == w.doomed(j));
        assert(dropped.entities[j].after_drop(used.entities[j]));
        assert(removed.entities[j].after_remove(dropped.entities[j]));
    }
    assert forall|j: int| 0 <= j < n implies (#[trigger] done.wears_in(j, who, slot) <==> j == item.id) by {
        assert(removed.doomed(j) == w.doomed(j));
        assert(dropped.entities[j].after_drop(used.entities[j]));
        assert(removed.entities[j].after_remove(dropped.entities[j]));
        assert(used.wears_in(j, who, slot) <==> j == item.id);
        if j == item.id {
            assert(dropped.entities[j].equipped == used.entities[j].equipped);
            assert(removed.entities[j].equipped == dropped.entities[j].equipped);
            assert(done.entities[j] == removed.entities[j]);
        }
    }
    assert forall|j: int|
        0 <= j < n && j != item.id && j != o && !w.doomed(j) && #[trigger] w.wears_in(j, who, slot) implies done.entities[j].in_backpack
        == Some(InBackpack { owner: who }) by {
        assert(removed.doomed(j) == w.doomed(j));
        assert(picked.entities[j].equipped == w.entities[j].equipped);
        assert(cleared.wears_in(j, who, slot));
        assert(used.entities[j].in_backpack == Some(InBackpack { owner: who }));
        assert(dropped.entities[j].in_backpack == used.entities[j].in_backpack);
        assert(dropped.entities[j].after_drop(used.entities[j]));
        assert(removed.entities[j].after_remove(dropped.entities[j]));
        assert(dropped.entities[j].equipped is None);
        assert(removed.entities[j].in_backpack == dropped.entities[j].in_backpack) by {
            lemma_remove_keeps_backpack(dropped, j, n);
        }
    }
}

/// Taking things off moves nothing out of a backpack: what is not
/// equipped stays as it is.
pub proof fn lemma_remove_keeps_backpack(w: WorldView, j: int, k: int)
    requires
        0 <= k <= w.entities.len() <= usize::MAX,
        0 <= j < w.entities.len(),
        w.entities[j].equipped is None,
    ensures
        w.remove_among(k).entities[j].equipped is None,
        w.remove_among(k).entities[j].in_backpack == w.entities[j].in_backpack,
    decreases k,
{
    if k > 0 {
        lemma_remove_keeps_backpack(w, j, k - 1);
        lemma_remove_among(w, k - 1);
        let i = k - 1;
        let v = w.remove_among(k - 1);
        let r = v.remove_step(i);
        assert(r == w.remove_among(k));
        let cleared = v.with_record(i, RecordView { wants_to_remove: None, ..v.entities[i] });
        let c = cleared.entities[j];
        assert(c.equipped is None && c.in_backpack == v.entities[j].in_backpack);
        if v.entities[i].alive && v.entities[i].wants_to_remove is Some {
            let named = v.entities[i].wants_to_remove->0.item;
            if named.id == j {
                assert(!cleared.worn_by(named, Entity { id: i as usize }));
            }
        }
    }
}

impl WorldView {
    /// The world with the intent of the entity `o` to use `item`, aimed at
    /// `target`.
    pub open spec fn with_use_intent(self, o: int, item: Entity, target: Option<Position>) -> WorldView {
        self.with_record(o, RecordView { wants_to_use: Some(WantsToUseItem { item, target }), ..self.entities[o] })
    }
}

/// Two pieces of equipment for one slot, put on in two passes one after the
/// other. Where an entity alone uses the first in one pass and, on the world
/// that this pass leaves, the second in the next: after the second pass the
/// second is the one and only thing that the entity has equipped in the slot,
/// and the first is back in the entity's backpack.
pub proof fn lemma_second_equip_replaces_first(
    w: WorldView,
    o: int,
    first: Entity,
    second: Entity,
    slot: EquipmentSlot,
    target: Option<Position>,
)
    requires
        w.entities.len() <= usize::MAX,
        w.pending_creates.len() == 0,
        w.sole_equip_of(o, first, slot),
        !w.doomed(o),
        first != second,
        first.id != o,
        second.id != o,
        w.valid(second),
        w.entities[second.id as int].equippable == Some(Equippable { slot }),
        !w.entities[second.id as int].consumable,
        !w.doomed(second.id as int),
    ensures
        ({
            let between = w.resolved().with_use_intent(o, second, target);
            let after = between.resolved();
            &&& after.entities.len() == w.entities.len()
            &&& forall|j: int|
                0 <= j < w.entities.len() ==> (#[trigger] after.wears_in(j, Entity { id: o as usize }, slot) <==> j
                    == second.id)
            &&& after.entities[first.id as int].alive
            &&& after.entities[first.id as int].in_backpack == Some(InBackpack { owner: Entity { id: o as usize } })
        }),
{
    let n = w.entities.len() as int;
    let who = Entity { id: o as usize };
    lemma_pass_equips_exclusively(w, o, first, slot);
    crate::intents::lemma_pass_consumes_intents(w);
    let left = w.resolved();
    let between = left.with_use_intent(o, second, target);
    assert(left.entities.len() == n);
    assert(left.wears_in(first.id as int, who, slot));
    assert forall|i: int| i != o implies !#[trigger] between.uses_an_item(i) by {
        if 0 <= i < n {
            assert(between.entities[i] == left.entities[i]);
            if left.entities[i].alive {
                assert(left.entities[i].no_intents());
            }
        }
    }
    assert(left.entities[o].alive);
    assert(left.entities[o].no_intents());
    assert(left.entities[second.id as int].alive);
    assert(!between.doomed(second.id as int));
    assert(between.sole_equip_of(o, second, slot));
    lemma_pass_equips_exclusively(between, o, second, slot);
    assert(between.wears_in(first.id as int, who, slot));
    assert(!between.doomed(first.id as int));
}

/// What the player holds survives the tick that takes the player down, and
/// nothing else does. Of the entities of before, other than the player: one
/// that the player carried or had equipped is there after the tick, off the
/// map and else as it was, unless its health was spent or its deletion was
/// waiting; every other one is gone with all its components, before the tick
/// returns.
pub proof fn lemma_descent_tick_keeps_what_is_held<F: Fn(&TileMap, usize, usize) -> NavigationPath>(
    before: WorldView,
    after: WorldView,
    input: InputEvent,
    find_path: &F,
    i: int,
)
    requires
        before.runstate == RunState::NextLevel,
        after.ticked(before, input, find_path),
        after.entities.len() <= usize::MAX,
        0 <= i < before.entities.len(),
        i != before.player.id,
    ensures
        after.runstate == RunState::PreRun,
        before.survives_descent(i) && !before.is_dead(i) && !before.doomed(i) ==> after.entities[i] == (RecordView {
            position: None,
            ..before.entities[i]
        }),
        !before.survives_descent(i) ==> after.entities[i] == RecordView::blank(false),
{
    let stepped = choose|stepped: WorldView|
        #[trigger] stepped.stepped_from(before, input, find_path) && after == stepped.swept().commit();
    let arrived = stepped.with_runstate(before.runstate);
    assert(arrived.descended_from(before));
    assert(arrived.entities[i] == before.arrived_record(i, &arrived.map));
    assert(stepped.entities == arrived.entities);
    crate::damage_system::lemma_sweep_keeps_entities(stepped, stepped.entities.len() as int);
    assert(after.entities.len() == stepped.entities.len() + stepped.pending_creates.len());
    crate::damage_system::lemma_sweep_removes_the_dead(stepped);
    crate::damage_system::lemma_sweep_among(stepped, stepped.entities.len() as int);
    assert(stepped.doomed(i) == before.doomed(i));
    if !before.survives_descent(i) {
        assert(stepped.entities[i] == RecordView::blank(false));
    } else {
        assert(stepped.is_dead(i) == before.is_dead(i));
    }
}

} // verus!
