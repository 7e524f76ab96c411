//! Takes the damage that waits on an entity from its health, and sweeps up
//! the entities whose health is spent.

use crate::components::{CombatStats, Entity};
use crate::gamelog::LogEvent;
use crate::melee_combat_system::clamp_i32;
use crate::world::{RecordView, World, WorldView};
use vstd::prelude::*;

verus! {

/// Applies the damage that waits.
pub struct DamageSystem {}

/// The sum of the amounts.
pub open spec fn total(amounts: Seq<i32>) -> int
    decreases amounts.len(),
{
    if amounts.len() == 0 {
        0
    } else {
        total(amounts.drop_last()) + amounts.last()
    }
}

/// The sum of the amounts.
pub fn sum_amounts(amounts: &Vec<i32>) -> (sum: i128)
    ensures
        sum == total(amounts@),
        -0x8000_0000 * amounts@.len() <= sum <= 0x8000_0000 * amounts@.len(),
{
    let mut sum: i128 = 0;
    let mut j: usize = 0;
    while j < amounts.len()
        invariant
            0 <= j <= amounts@.len(),
            sum == total(amounts@.subrange(0, j as int)),
            -0x8000_0000 * j <= sum <= 0x8000_0000 * j,
        decreases amounts@.len() - j,
    {
        proof {
            let next = amounts@.subrange(0, j as int + 1);
            assert(next.drop_last() =~= amounts@.subrange(0, j as int));
        }
        sum = sum + amounts[j] as i128;
        j = j + 1;
    }
    assert(amounts@.subrange(0, j as int) =~= amounts@);
    sum
}

/// Health `hp` after the damage `amounts`, kept within `i32`.
pub open spec fn health_after(hp: i32, amounts: Seq<i32>) -> i32 {
    clamp_i32(hp - total(amounts))
}

impl WorldView {
    /// The world after the damage that waits on the entity `i` is taken from
    /// its health. The waiting damage is removed, also where the entity has
    /// no health to take it from.
    pub open spec fn damage_step(self, i: int) -> WorldView {
        let r = self.entities[i];
        if r.alive && r.suffer_damage is Some {
            let stats = match r.combat_stats {
                Some(s) => Some(CombatStats { hp: health_after(s.hp, r.suffer_damage->0), ..s }),
                None => None,
            };
            self.with_record(i, RecordView { suffer_damage: None, combat_stats: stats, ..r })
        } else {
            self
        }
    }

    /// The world after the waiting damage of the first `k` entities is applied.
    pub open spec fn damage_among(self, k: int) -> WorldView
        decreases k,
    {
        if k <= 0 {
            self
        } else {
            self.damage_among(k - 1).damage_step(k - 1)
        }
    }

    /// The world after all waiting damage is applied.
    pub open spec fn damage_applied(self) -> WorldView {
        self.damage_among(self.entities.len() as int)
    }

    /// The entity `i` is alive and its health is spent.
    pub open spec fn is_dead(self, i: int) -> bool {
        &&& 0 <= i < self.entities.len()
        &&& self.entities[i].alive
        &&& self.entities[i].combat_stats matches Some(s)
        &&& s.hp <= 0
    }

    /// The world after the sweep has looked at the entity `i`: where its
    /// health is spent, its deletion is asked for and its death logged. The
    /// player is never deleted; the player's death is logged as such.
    pub open spec fn sweep_step(self, i: int) -> WorldView {
        if self.is_dead(i) {
            if i == self.player.id {
                self.logged(LogEvent::PlayerDied)
            } else {
                let who = Entity { id: i as usize };
                (WorldView { pending_deletes: self.pending_deletes.push(who), ..self }).logged(LogEvent::Died { who })
            }
        } else {
            self
        }
    }

    /// The world after the sweep has looked at the first `k` entities.
    pub open spec fn sweep_among(self, k: int) -> WorldView
        decreases k,
    {
        if k <= 0 {
            self
        } else {
            self.sweep_among(k - 1).sweep_step(k - 1)
        }
    }

    /// The world after the death sweep.
    pub open spec fn swept(self) -> WorldView {
        self.sweep_among(self.entities.len() as int)
    }

    /// The player is alive in the store, with spent health.
    pub open spec fn player_is_dead(self) -> bool {
        self.is_dead(self.player.id as int)
    }
}

impl World {
    /// Takes the damage that waits on the entity `i` from its health.
    pub fn apply_damage(&mut self, i: usize)
        requires
            i < old(self)@.entities.len(),
        ensures
            final(self)@ == old(self)@.damage_step(i as int),
            final(self)@.same_places(old(self)@),
    {
        if !self.entities[i].alive {
            return ;
        }
        let (lost, blows): (i128, usize) = match &self.entities[i].suffer_damage {
            Some(waiting) => (sum_amounts(&waiting.amounts), waiting.amounts.len()),
            None => {
                return ;
            },
        };
        assert(lost == total(old(self)@.entities[i as int].suffer_damage->0));
        assert(-0x8000_0000 * blows <= lost <= 0x8000_0000 * blows);
        self.entities[i].suffer_damage = None;
        match self.entities[i].combat_stats {
            Some(stats) => {
                let left: i128 = stats.hp as i128 - lost;
                let hp: i32 = if left < i32::MIN as i128 {
                    i32::MIN
                } else if left > i32::MAX as i128 {
                    i32::MAX
                } else {
                    left as i32
                };
                self.entities[i].combat_stats = Some(
                    CombatStats { max_hp: stats.max_hp, hp, defense: stats.defense, power: stats.power },
                );
            },
            None => {},
        }
        proof {
            let expected = old(self)@.damage_step(i as int);
            assert forall|j: int| 0 <= j < self@.entities.len() implies self@.entities[j] =~~= expected.entities[j] by {
                if j != i {
                    assert(self.entities@[j] == old(self).entities@[j]);
                }
            }
            assert(self@.entities =~= expected.entities);
        }
    }

    /// Lets the death sweep look at the entity `i`.
    pub fn sweep(&mut self, i: usize)
        requires
            i < old(self)@.entities.len(),
        ensures
            final(self)@ == old(self)@.sweep_step(i as int),
            final(self)@.same_places(old(self)@),
            forall|j: int| 0 <= j < final(self)@.entities.len() ==> final(self)@.entities[j] == old(self)@.entities[j],
    {
        if !self.entities[i].alive {
            return ;
        }
        let spent = match self.entities[i].combat_stats {
            Some(stats) => stats.hp <= 0,
            None => false,
        };
        if spent {
            if i == self.player.id {
                self.add_log(LogEvent::PlayerDied);
            } else {
                let who = Entity { id: i };
                self.queue_delete(who);
                self.add_log(LogEvent::Died { who });
            }
        }
    }
}

impl DamageSystem {
    /// Applies all waiting damage. No damage waits afterwards.
    pub fn run_now(&mut self, ecs: &mut World)
        ensures
            final(ecs)@ == old(ecs)@.damage_applied(),
            final(ecs)@.same_places(old(ecs)@),
    {
        let n = ecs.entities.len();
        let mut k: usize = 0;
        while k < n
            invariant
                0 <= k <= n,
                n == old(ecs)@.entities.len(),
                ecs@ == old(ecs)@.damage_among(k as int),
                ecs@.same_places(old(ecs)@),
            decreases n - k,
        {
            ecs.apply_damage(k);
            k = k + 1;
        }
    }
}

/// The death sweep: asks for the deletion of every entity whose health is
/// spent, by ascending identifier, and tells whether the player is among the
/// dead. The player is never deleted.
pub fn delete_the_dead(ecs: &mut World) -> (player_dead: bool)
    ensures
        final(ecs)@ == old(ecs)@.swept(),
        final(ecs)@.same_places(old(ecs)@),
        final(ecs)@.entities == old(ecs)@.entities,
        player_dead == old(ecs)@.player_is_dead(),
{
    let n = ecs.entities.len();
    let mut k: usize = 0;
    while k < n
        invariant
            0 <= k <= n,
            n == old(ecs)@.entities.len(),
            ecs@ == old(ecs)@.sweep_among(k as int),
            ecs@.same_places(old(ecs)@),
            ecs@.entities =~= old(ecs)@.entities,
        decreases n - k,
    {
        ecs.sweep(k);
        k = k + 1;
    }
    let p = ecs.player.id;
    if p < ecs.entities.len() && ecs.entities[p].alive {
        match ecs.entities[p].combat_stats {
            Some(stats) => stats.hp <= 0,
            None => false,
        }
    } else {
        false
    }
}

/// Damage never heals: amounts that are not negative do not raise health.
pub proof fn lemma_damage_never_heals(hp: i32, amounts: Seq<i32>)
    requires
        forall|j: int| 0 <= j < amounts.len() ==> amounts[j] >= 0,
    ensures
        total(amounts) >= 0,
        health_after(hp, amounts) <= hp,
    decreases amounts.len(),
{
    if amounts.len() > 0 {
        lemma_damage_never_heals(hp, amounts.drop_last());
    }
}

/// Health stays below its maximum: of an entity whose health does not
/// exceed a maximum that is not negative, the health does not exceed the
/// maximum after damage, after healing, or after the rest on arrival at a
/// new level.
pub proof fn lemma_health_stays_below_maximum(stats: CombatStats, amounts: Seq<i32>, heal: i32)
    requires
        0 <= stats.max_hp,
        stats.hp <= stats.max_hp,
        forall|j: int| 0 <= j < amounts.len() ==> amounts[j] >= 0,
    ensures
        health_after(stats.hp, amounts) <= stats.max_hp,
        crate::inventory_system::healed_hp(stats, heal) <= stats.max_hp,
        crate::level_transition::rested_hp(stats) <= stats.max_hp,
{
    lemma_damage_never_heals(stats.hp, amounts);
}

/// The sweep changes no entity; among the first `k`, it asks for the
/// deletion of exactly those whose health is spent, the player excepted.
pub proof fn lemma_sweep_among(w: WorldView, k: int)
    requires
        0 <= k <= w.entities.len() <= usize::MAX,
    ensures
        w.sweep_among(k).entities == w.entities,
        w.sweep_among(k).pending_creates == w.pending_creates,
        w.sweep_among(k).player == w.player,
        w.sweep_among(k).map == w.map,
        w.sweep_among(k).runstate == w.runstate,
        forall|i: int|
            #![trigger w.sweep_among(k).doomed(i)]
            w.sweep_among(k).doomed(i) <==> w.doomed(i) || (0 <= i < k && i != w.player.id && w.is_dead(i)),
    decreases k,
{
    if k > 0 {
        lemma_sweep_among(w, k - 1);
        let v = w.sweep_among(k - 1);
        let r = v.sweep_step(k - 1);
        assert(r == w.sweep_among(k));
        assert(v.is_dead(k - 1) == w.is_dead(k - 1));
        assert forall|i: int|
            #![trigger r.doomed(i)]
            r.doomed(i) <==> w.doomed(i) || (0 <= i < k && i != w.player.id && w.is_dead(i)) by {
            let earlier = v.doomed(i);
            assert(earlier <==> w.doomed(i) || (0 <= i < k - 1 && i != w.player.id && w.is_dead(i)));
            if v.is_dead(k - 1) && k - 1 != v.player.id {
                let who = Entity { id: (k - 1) as usize };
                let last = v.pending_deletes.len() as int;
                assert(r.pending_deletes =~= v.pending_deletes.push(who));
                assert(r.pending_deletes[last] == who);
                if r.doomed(i) {
                    let j = choose|j: int| 0 <= j < r.pending_deletes.len() && (#[trigger] r.pending_deletes[j]).id == i;
                    if j < last {
                        assert(v.pending_deletes[j].id == i);
                        assert(earlier);
                    } else {
                        assert(i == k - 1);
                    }
                }
                if earlier {
                    let j = choose|j: int| 0 <= j < v.pending_deletes.len() && (#[trigger] v.pending_deletes[j]).id == i;
                    assert(r.pending_deletes[j].id == i);
                    assert(r.doomed(i));
                }
                if i == k - 1 {
                    assert(r.pending_deletes[last].id == i);
                    assert(r.doomed(i));
                }
            } else {
                assert(r.pending_deletes == v.pending_deletes);
                assert(r.doomed(i) == earlier);
            }
        }
    }
}

/// The sweep changes no entity and creates none.
pub proof fn lemma_sweep_keeps_entities(w: WorldView, k: int)
    requires
        0 <= k <= w.entities.len(),
    ensures
        w.sweep_among(k).entities == w.entities,
        w.sweep_among(k).pending_creates == w.pending_creates,
    decreases k,
{
    if k > 0 {
        lemma_sweep_keeps_entities(w, k - 1);
    }
}

/// The dead are gone when the tick ends: after the sweep and its commit,
/// an entity is deleted exactly if its health was spent or its deletion was
/// waiting, and it is not the player; every other entity is as it was. The
/// entities whose creation was waiting follow, in their order.
pub proof fn lemma_sweep_removes_the_dead(w: WorldView)
    requires
        w.entities.len() <= usize::MAX,
    ensures
        w.swept().commit().entities.len() == w.entities.len() + w.pending_creates.len(),
        forall|i: int|
            0 <= i < w.pending_creates.len() ==> w.swept().commit().entities[w.entities.len() + i]
                == #[trigger] w.pending_creates[i],
        forall|i: int|
            0 <= i < w.entities.len() ==> #[trigger] w.swept().commit().entities[i] == if i != w.player.id && (w.is_dead(
                i,
            ) || w.doomed(i)) {
                RecordView::blank(false)
            } else {
                w.entities[i]
            },
{
    lemma_sweep_among(w, w.entities.len() as int);
    let swept = w.swept();
    assert forall|i: int| 0 <= i < w.entities.len() implies #[trigger] swept.commit().entities[i] == if i
        != w.player.id && (w.is_dead(i) || w.doomed(i)) {
        RecordView::blank(false)
    } else {
        w.entities[i]
    } by {
        assert(swept.doomed(i) <==> w.doomed(i) || (i != w.player.id && w.is_dead(i)));
    }
}

} // verus!
