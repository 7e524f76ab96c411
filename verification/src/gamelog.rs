//! The message log. Entries are recorded as events; turning them into text
//! is left to whoever displays them.

use crate::components::Entity;
use vstd::prelude::*;

verus! {

/// What the log can tell of.
#[derive(Clone, Copy, PartialEq, Eq, Structural, Debug)]
pub enum LogEvent {
    /// The game has started.
    Welcome,
    /// `attacker` hit `target` for `damage` points.
    Hit { attacker: Entity, target: Entity, damage: i32 },
    /// `attacker` struck `target` without hurting it.
    NoDamage { attacker: Entity, target: Entity },
    /// `who` picked `item` up.
    PickedUp { who: Entity, item: Entity },
    /// `who` put `item` down.
    Dropped { who: Entity, item: Entity },
    /// `who` took `item` off.
    Unequipped { who: Entity, item: Entity },
    /// `who` put `item` on.
    Equipped { who: Entity, item: Entity },
    /// `who` used `item` and now has `hp` health.
    Healed { who: Entity, item: Entity, hp: i32 },
    /// `item`, used by `who`, hurt `target` for `damage` points.
    ItemHit { who: Entity, item: Entity, target: Entity, damage: i32 },
    /// `item`, used by `who`, confused `target` for `turns` turns.
    Confused { who: Entity, item: Entity, target: Entity, turns: i32 },
    /// `who` has died.
    Died { who: Entity },
    /// The player has died.
    PlayerDied,
    /// The player looked for something to pick up and found nothing.
    NothingToPickUp,
    /// The player tried to descend away from the stairs.
    NoWayDown,
    /// The player went down to the level `depth`.
    Descended { depth: i32 },
}

/// The events of the game so far, oldest first.
pub struct GameLog {
    pub entries: Vec<LogEvent>,
}

impl View for GameLog {
    type V = Seq<LogEvent>;

    open spec fn view(&self) -> Seq<LogEvent> {
        self.entries@
    }
}

impl GameLog {
    /// A log that holds the welcome alone.
    pub fn new() -> (log: GameLog)
        ensures
            log@ == seq![LogEvent::Welcome],
    {
        let mut entries: Vec<LogEvent> = Vec::new();
        entries.push(LogEvent::Welcome);
        GameLog { entries }
    }

    /// Appends `event`.
    pub fn add(&mut self, event: LogEvent)
        ensures
            final(self)@ == old(self)@.push(event),
    {
        self.entries.push(event);
    }
}

} // verus!
