//! Turns melee intents into damage that waits on the defender.

use crate::components::{Entity, SufferDamage};
use crate::gamelog::LogEvent;
use crate::world::{RecordView, World, WorldView};
use vstd::prelude::*;

verus! {

/// Resolves the melee intents.
pub struct MeleeCombatSystem {}

/// `v`, brought into the range of `i32`.
pub open spec fn clamp_i32(v: int) -> i32 {
    if v < i32::MIN {
        i32::MIN
    } else if v > i32::MAX {
        i32::MAX
    } else {
        v as i32
    }
}

/// The damage of one blow: the attacker's power less the defender's defence,
/// never below zero.
pub open spec fn melee_damage(power: i32, defense: i32) -> i32 {
    if power - defense <= 0 {
        0
    } else {
        clamp_i32(power - defense)
    }
}

/// `v`, brought into the range of `i32`.
pub fn saturate(v: i64) -> (r: i32)
    ensures
        r == clamp_i32(v as int),
{
    if v < i32::MIN as i64 {
        i32::MIN
    } else if v > i32::MAX as i64 {
        i32::MAX
    } else {
        v as i32
    }
}

impl WorldView {
    /// `other` has the same entities in the same places on the same map:
    /// nothing was created, deleted or moved, and no viewshed was touched.
    pub open spec fn same_places(self, other: WorldView) -> bool {
        &&& self.entities.len() == other.entities.len()
        &&& self.pending_creates == other.pending_creates
        &&& self.map == other.map
        &&& self.player == other.player
        &&& self.runstate == other.runstate
        &&& forall|i: int|
            0 <= i < self.entities.len() ==> {
                &&& (#[trigger] self.entities[i]).alive == other.entities[i].alive
                &&& self.entities[i].position == other.entities[i].position
                &&& self.entities[i].viewshed == other.entities[i].viewshed
            }
    }

    /// The world with `amount` added to the damage that waits on the entity `t`.
    pub open spec fn suffer(self, t: int, amount: i32) -> WorldView {
        let r = self.entities[t];
        let amounts = match r.suffer_damage {
            Some(a) => a.push(amount),
            None => seq![amount],
        };
        self.with_record(t, RecordView { suffer_damage: Some(amounts), ..r })
    }

    /// The world after the melee intent of the entity `i`, if it has one, is
    /// resolved. The intent is removed in any case. Where attacker and
    /// defender both have combat stats, a blow that does damage is added to
    /// the damage waiting on the defender, and a blow that does none is
    /// logged as such.
    pub open spec fn melee_step(self, i: int) -> WorldView {
        let r = self.entities[i];
        if r.alive && r.wants_to_melee is Some {
            let target = r.wants_to_melee->0.target;
            let attacker = Entity { id: i as usize };
            let cleared = self.with_record(i, RecordView { wants_to_melee: None, ..r });
            if cleared.valid(target) && r.combat_stats is Some && cleared.entities[target.id as int].combat_stats
                is Some {
                let damage = melee_damage(
                    r.combat_stats->0.power,
                    cleared.entities[target.id as int].combat_stats->0.defense,
                );
                if damage == 0 {
                    cleared.logged(LogEvent::NoDamage { attacker, target })
                } else {
                    cleared.suffer(target.id as int, damage).logged(LogEvent::Hit { attacker, target, damage })
                }
            } else {
                cleared
            }
        } else {
            self
        }
    }

    /// The world after the melee intents of the first `k` entities are
    /// resolved, by ascending identifier.
    pub open spec fn melee_among(self, k: int) -> WorldView
        decreases k,
    {
        if k <= 0 {
            self
        } else {
            self.melee_among(k - 1).melee_step(k - 1)
        }
    }

    /// The world after every melee intent is resolved.
    pub open spec fn melee_resolved(self) -> WorldView {
        self.melee_among(self.entities.len() as int)
    }
}

/// A world with the same entities in the same places is as well formed.
pub proof fn lemma_same_places_wf(a: WorldView, b: WorldView)
    requires
        a.wf(),
        b.same_places(a),
    ensures
        b.wf(),
        b.has_player() == a.has_player(),
{
    assert forall|i: int| 0 <= i < b.entities.len() implies b.record_wf(#[trigger] b.entities[i]) by {
        assert(a.record_wf(a.entities[i]));
    }
    assert forall|i: int| 0 <= i < b.pending_creates.len() implies b.record_wf(#[trigger] b.pending_creates[i]) by {
        assert(a.record_wf(a.pending_creates[i]));
    }
}

impl World {
    /// Adds `amount` to the damage that waits on the entity `t`.
    pub fn suffer(&mut self, t: usize, amount: i32)
        requires
            t < old(self)@.entities.len(),
        ensures
            final(self).entities@.len() == old(self).entities@.len(),
            final(self).records_viewed(),
            final(self)@ == old(self)@.suffer(t as int, amount),
            final(self)@.same_places(old(self)@),
    {
        match &mut self.entities[t].suffer_damage {
            Some(waiting) => {
                waiting.amounts.push(amount);
            },
            None => {
                let mut amounts: Vec<i32> = Vec::new();
                amounts.push(amount);
                self.entities[t].suffer_damage = Some(SufferDamage { amounts });
            },
        }
        proof {
            let expected = old(self)@.suffer(t as int, amount);
            assert forall|j: int| 0 <= j < self@.entities.len() implies self@.entities[j] =~~= expected.entities[j] by {
                if j != t {
                    assert(self.entities@[j] == old(self).entities@[j]);
                }
            }
            assert(self@.entities =~= expected.entities);
        }
    }

    /// Resolves the melee intent of the entity `i`, if it has one.
    pub fn resolve_melee(&mut self, i: usize)
        requires
            i < old(self)@.entities.len(),
        ensures
            final(self)@ == old(self)@.melee_step(i as int),
            final(self)@.same_places(old(self)@),
    {
        if !self.entities[i].alive {
            return ;
        }
        let intent = match self.entities[i].wants_to_melee {
            Some(intent) => intent,
            None => {
                return ;
            },
        };
        let attacker = Entity { id: i };
        let target = intent.target;
        self.entities[i].wants_to_melee = None;
        proof {
            let r = old(self)@.entities[i as int];
            let cleared = old(self)@.with_record(i as int, RecordView { wants_to_melee: None, ..r });
            assert forall|j: int| 0 <= j < self@.entities.len() implies self@.entities[j] =~~= cleared.entities[j] by {
                if j != i {
                    assert(self.entities@[j] == old(self).entities@[j]);
                }
            }
            assert(self@.entities =~= cleared.entities);
            assert(self@ == cleared);
        }
        if !self.is_alive(target) {
            return ;
        }
        let power = match self.entities[i].combat_stats {
            Some(stats) => stats.power,
            None => {
                return ;
            },
        };
        let defense = match self.entities[target.id].combat_stats {
            Some(stats) => stats.defense,
            None => {
                return ;
            },
        };
        let damage = if power as i64 - defense as i64 <= 0 {
            0
        } else {
            saturate(power as i64 - defense as i64)
        };
        if damage == 0 {
            self.add_log(LogEvent::NoDamage { attacker, target });
        } else {
            self.suffer(target.id, damage);
            self.add_log(LogEvent::Hit { attacker, target, damage });
        }
    }

    /// Appends `event` to the log.
    pub fn add_log(&mut self, event: LogEvent)
        ensures
            final(self).entities@.len() == old(self).entities@.len(),
            final(self).records_viewed(),
            final(self)@ == old(self)@.logged(event),
            final(self)@.same_places(old(self)@),
    {
        self.log.add(event);
        assert(self@.entities =~= old(self)@.entities);
    }
}

impl MeleeCombatSystem {
    /// Resolves every melee intent, by ascending identifier of the attacker.
    /// No intent is left afterwards.
    pub fn run_now(&mut self, ecs: &mut World)
        ensures
            final(ecs)@ == old(ecs)@.melee_resolved(),
            final(ecs)@.same_places(old(ecs)@),
    {
        let n = ecs.entities.len();
        let mut k: usize = 0;
        while k < n
            invariant
                0 <= k <= n,
                n == old(ecs)@.entities.len(),
                ecs@ == old(ecs)@.melee_among(k as int),
                ecs@.same_places(old(ecs)@),
            decreases n - k,
        {
            ecs.resolve_melee(k);
            k = k + 1;
        }
    }
}

} // verus!
