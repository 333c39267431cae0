//! The sentry: the security construct that takes a turn after the player.
//!
//! A sentry works through an authored list of actions, one per turn, and
//! wraps back to the start when it runs out, so a turn plays out the same way
//! every time. The player reads the queued action while it is still their
//! turn. The sentry also has its own health, so damage can bring it down.

use vstd::prelude::*;
use crate::noise_meter::clamp_int;

verus! {

/// One action a sentry can take on its turn.
#[derive(Clone, Debug, PartialEq, Eq)]
pub struct SentryAction {
    /// Player-facing name, shown while the action is queued and again once it
    /// has been performed.
    pub name: String,
    /// Noise this action adds to the meter when it runs.
    pub noise: i32,
}

impl SentryAction {
    pub fn new(name: &str, noise: i32) -> (action: Self)
        ensures
            action.name@ == name@,
            action.noise == noise,
    {
        SentryAction { name: String::from_str(name), noise }
    }

    /// A copy of this action, field for field.
    pub fn duplicate(&self) -> (copy: Self)
        ensures
            copy == *self,
    {
        SentryAction { name: self.name.clone(), noise: self.noise }
    }
}

/// A sentry as the contracts see it.
pub struct SentryView {
    pub name: Seq<char>,
    pub script: Seq<SentryAction>,
    pub next_index: nat,
    pub health: int,
    pub max_health: int,
    pub corruption: int,
    pub corruption_boost: int,
}

/// The action `view` will take when its turn begins, if any.
pub open spec fn queued(view: SentryView) -> Option<SentryAction> {
    if view.next_index < view.script.len() {
        Some(view.script[view.next_index as int])
    } else {
        None
    }
}

/// Where the script stands after one turn of `view`: the queue moves on to
/// the next action, wrapping back to the start; with nothing queued, nothing
/// moves.
pub open spec fn advanced(view: SentryView) -> SentryView {
    if view.next_index < view.script.len() {
        SentryView { next_index: ((view.next_index + 1) % view.script.len()) as nat, ..view }
    } else {
        view
    }
}

/// Where the script stands after `turns` turns of `view`.
pub open spec fn after_turns(view: SentryView, turns: nat) -> SentryView
    decreases turns,
{
    if turns == 0 {
        view
    } else {
        advanced(after_turns(view, (turns - 1) as nat))
    }
}

/// A named security construct and the actions it works through.
#[derive(Clone, Debug, PartialEq, Eq)]
pub struct Sentry {
    name: String,
    script: Vec<SentryAction>,
    next_index: usize,
    health: i32,
    max_health: i32,
    corruption: i32,
    corruption_boost: i32,
}

impl View for Sentry {
    type V = SentryView;

    closed spec fn view(&self) -> SentryView {
        SentryView {
            name: self.name@,
            script: self.script@,
            next_index: self.next_index as nat,
            health: self.health as int,
            max_health: self.max_health as int,
            corruption: self.corruption as int,
            corruption_boost: self.corruption_boost as int,
        }
    }
}

/// The queue points into the script (or at its start when it is empty),
/// health never exceeds the maximum and is not negative while the maximum
/// is not, and corruption and its boost are never negative.
pub open spec fn sentry_valid(view: SentryView) -> bool {
    &&& (view.next_index < view.script.len() || (view.script.len() == 0 && view.next_index == 0))
    &&& view.health <= view.max_health
    &&& (view.max_health >= 0 ==> view.health >= 0)
    &&& view.corruption >= 0
    &&& view.corruption_boost >= 0
}

impl Sentry {
    /// A sentry with `script` as its action queue, at a default health of
    /// 50/50. An empty script means the sentry has nothing queued, so its turn
    /// does nothing at all.
    pub fn new(name: &str, script: Vec<SentryAction>) -> (sentry: Self)
        ensures
            sentry@ == (SentryView {
                name: name@,
                script: script@,
                next_index: 0,
                health: 50,
                max_health: 50,
                corruption: 0,
                corruption_boost: 0,
            }),
            sentry_valid(sentry@),
    {
        Sentry {
            name: String::from_str(name),
            script,
            next_index: 0,
            health: 50,
            max_health: 50,
            corruption: 0,
            corruption_boost: 0,
        }
    }

    /// Sets both current and max health to `max_health`.
    pub fn with_health(self, max_health: i32) -> (sentry: Self)
        ensures
            sentry@ == (SentryView { health: max_health as int, max_health: max_health as int, ..self@ }),
            sentry_valid(self@) ==> sentry_valid(sentry@),
    {
        let mut sentry = self;
        sentry.health = max_health;
        sentry.max_health = max_health;
        sentry
    }

    /// The sentry guarding the current combat encounter, with three cycling
    /// actions.
    pub fn warden_7() -> (sentry: Self)
        ensures
            sentry@.name == "WARDEN-7"@,
            sentry@.script.len() == 3,
            sentry@.script[0].name@ == "Packet Sniff"@ && sentry@.script[0].noise == 1,
            sentry@.script[1].name@ == "Trace Sweep"@ && sentry@.script[1].noise == 2,
            sentry@.script[2].name@ == "Lockdown Probe"@ && sentry@.script[2].noise == 3,
            sentry@.next_index == 0,
            sentry@.health == 40,
            sentry@.max_health == 40,
            sentry@.corruption == 0,
            sentry@.corruption_boost == 0,
            sentry_valid(sentry@),
    {
        let mut script: Vec<SentryAction> = Vec::new();
        script.push(SentryAction::new("Packet Sniff", 1));
        script.push(SentryAction::new("Trace Sweep", 2));
        script.push(SentryAction::new("Lockdown Probe", 3));
        Self::new("WARDEN-7", script).with_health(40)
    }

    /// Renames the sentry, for an encounter that fields a different construct
    /// with the same behaviour.
    pub fn set_name(&mut self, name: &str)
        ensures
            final(self)@ == (SentryView { name: name@, ..old(self)@ }),
    {
        self.name = String::from_str(name);
    }

    pub fn name(&self) -> (name: &str)
        ensures
            name@ == self@.name,
    {
        self.name.as_str()
    }

    pub fn health(&self) -> (health: i32)
        ensures
            health == self@.health,
    {
        self.health
    }

    pub fn max_health(&self) -> (max_health: i32)
        ensures
            max_health == self@.max_health,
    {
        self.max_health
    }

    pub fn corruption(&self) -> (corruption: i32)
        ensures
            corruption == self@.corruption,
    {
        self.corruption
    }

    pub fn corruption_boost(&self) -> (boost: i32)
        ensures
            boost == self@.corruption_boost,
    {
        self.corruption_boost
    }

    /// Whether the sentry is in a state its own operations can produce: the
    /// queue inside the script, health within its maximum, no negative
    /// corruption. Callers outside the library test it before a call that
    /// relies on it.
    pub fn is_consistent(&self) -> (consistent: bool)
        ensures
            consistent == sentry_valid(self@),
    {
        (self.next_index < self.script.len() || (self.script.len() == 0 && self.next_index == 0))
            && self.health <= self.max_health && (self.max_health < 0 || self.health >= 0) && self.corruption >= 0
            && self.corruption_boost >= 0
    }

    /// True once health has been brought down to 0. A defeated sentry takes
    /// no further turns (enforced by the caller).
    pub fn is_defeated(&self) -> (defeated: bool)
        ensures
            defeated == (self@.health <= 0),
    {
        self.health <= 0
    }

    /// Applies damage, clamped so health stays within `0..=max_health`, and
    /// returns how much health was actually lost. A negative `amount` heals,
    /// up to the maximum.
    pub fn take_damage(&mut self, amount: i32) -> (lost: i32)
        requires
            sentry_valid(old(self)@),
            old(self)@.max_health >= 0,
        ensures
            final(self)@ == (SentryView {
                health: clamp_int(old(self)@.health - amount, 0, old(self)@.max_health),
                ..old(self)@
            }),
            lost == old(self)@.health - final(self)@.health,
            sentry_valid(final(self)@),
    {
        let before = self.health;
        let lowered: i64 = before as i64 - amount as i64;
        let health: i32 = if lowered < 0 {
            0
        } else if lowered > self.max_health as i64 {
            self.max_health
        } else {
            lowered as i32
        };
        self.health = health;
        before - health
    }

    /// Adds corruption, strengthened by the current boost when it is an
    /// increase, and held at zero or above. Returns the actual change.
    pub fn add_corruption(&mut self, amount: i32) -> (change: i32)
        requires
            sentry_valid(old(self)@),
            amount > 0 ==> amount + old(self)@.corruption_boost <= i32::MAX,
            old(self)@.corruption + (if amount > 0 { amount + old(self)@.corruption_boost } else { amount as int })
                <= i32::MAX,
        ensures
            sentry_valid(final(self)@),
            final(self)@ == (SentryView {
                corruption: clamp_int(
                    old(self)@.corruption + (if amount > 0 { amount + old(self)@.corruption_boost } else { amount as int }),
                    0,
                    i32::MAX as int,
                ),
                ..old(self)@
            }),
            change == final(self)@.corruption - old(self)@.corruption,
    {
        let actual_amount = if amount > 0 { amount + self.corruption_boost } else { amount };
        let before = self.corruption;
        let raised = before + actual_amount;
        self.corruption = if raised < 0 { 0 } else { raised };
        self.corruption - before
    }

    /// Raises the boost every later increase of corruption gets, held at
    /// zero or above. Returns the actual change.
    pub fn add_corruption_boost(&mut self, amount: i32) -> (change: i32)
        requires
            sentry_valid(old(self)@),
            old(self)@.corruption_boost + amount <= i32::MAX,
        ensures
            sentry_valid(final(self)@),
            final(self)@ == (SentryView {
                corruption_boost: clamp_int(old(self)@.corruption_boost + amount, 0, i32::MAX as int),
                ..old(self)@
            }),
            change == final(self)@.corruption_boost - old(self)@.corruption_boost,
    {
        let before = self.corruption_boost;
        let raised = before + amount;
        self.corruption_boost = if raised < 0 { 0 } else { raised };
        self.corruption_boost - before
    }

    /// Drops the boost to zero and reports how much there was.
    pub fn clear_corruption_boost(&mut self) -> (cleared: i32)
        ensures
            final(self)@ == (SentryView { corruption_boost: 0, ..old(self)@ }),
            cleared == old(self)@.corruption_boost,
    {
        let cleared = self.corruption_boost;
        self.corruption_boost = 0;
        cleared
    }

    /// Corruption eats at the sentry once per turn: it deals its own amount
    /// as damage, then wears off by one. Returns the health actually lost.
    pub fn resolve_corruption_tick(&mut self) -> (dealt: i32)
        requires
            sentry_valid(old(self)@),
            old(self)@.corruption > 0 ==> old(self)@.max_health >= 0,
        ensures
            sentry_valid(final(self)@),
            old(self)@.corruption <= 0 ==> final(self)@ == old(self)@ && dealt == 0,
            old(self)@.corruption > 0 ==> final(self)@ == (SentryView {
                health: clamp_int(old(self)@.health - old(self)@.corruption, 0, old(self)@.max_health),
                corruption: old(self)@.corruption - 1,
                ..old(self)@
            }),
            old(self)@.corruption > 0 ==> dealt == old(self)@.health - final(self)@.health,
    {
        if self.corruption <= 0 {
            return 0;
        }
        let damage = self.corruption;
        let dealt = self.take_damage(damage);
        self.corruption = self.corruption - 1;
        dealt
    }

    /// The action the sentry will take when its turn begins, or `None` if
    /// there is nothing queued. Reading it never moves the queue.
    pub fn queued_action(&self) -> (action: Option<&SentryAction>)
        ensures
            action matches Some(a) ==> queued(self@) == Some(*a),
            action is None ==> queued(self@) is None,
    {
        if self.next_index < self.script.len() {
            Some(&self.script[self.next_index])
        } else {
            None
        }
    }

    /// Returns the announced action and queues the next one, wrapping back to
    /// the start of the script. Returns `None` when nothing was queued.
    pub fn perform_queued_action(&mut self) -> (action: Option<SentryAction>)
        ensures
            action == queued(old(self)@),
            final(self)@ == advanced(old(self)@),
            sentry_valid(old(self)@) ==> sentry_valid(final(self)@),
    {
        if self.next_index >= self.script.len() {
            return None;
        }
        let action = self.script[self.next_index].duplicate();
        self.next_index = (self.next_index + 1) % self.script.len();
        Some(action)
    }
}

/// A turn never changes the script, health or corruption: it only moves the
/// queue on.
pub proof fn law_a_turn_only_moves_the_queue(view: SentryView)
    ensures
        advanced(view).script == view.script,
        advanced(view).name == view.name,
        advanced(view).health == view.health,
        advanced(view).max_health == view.max_health,
        advanced(view).corruption == view.corruption,
        advanced(view).corruption_boost == view.corruption_boost,
{
}

/// The sentry cycles its script: after any number of turns, the queue has
/// moved on by that many actions, wrapping around, and each turn performs
/// the action that was announced for it.
pub proof fn law_the_script_cycles(view: SentryView, turns: nat)
    requires
        sentry_valid(view),
        view.script.len() > 0,
    ensures
        after_turns(view, turns).script == view.script,
        after_turns(view, turns).next_index == (view.next_index + turns as int) % (view.script.len() as int),
        queued(after_turns(view, turns)) == Some(view.script[(view.next_index + turns as int) % (view.script.len() as int)]),
    decreases turns,
{
    let n = view.script.len() as int;
    let start = view.next_index as int;
    if turns > 0 {
        law_the_script_cycles(view, (turns - 1) as nat);
        let t = turns as int;
        let before = after_turns(view, (turns - 1) as nat);
        assert(before.next_index == (start + t - 1) % n);
        assert(((start + t - 1) % n + 1) % n == (start + t) % n) by {
            if n > 1 {
                vstd::arithmetic::div_mod::lemma_add_mod_noop(start + t - 1, 1, n);
                vstd::arithmetic::div_mod::lemma_small_mod(1, n as nat);
            } else {
                vstd::arithmetic::div_mod::lemma_mod_bound((start + t - 1) % n + 1, n);
                vstd::arithmetic::div_mod::lemma_mod_bound(start + t, n);
            }
        }
    } else {
        vstd::arithmetic::div_mod::lemma_small_mod(view.next_index, n as nat);
    }
    vstd::arithmetic::div_mod::lemma_mod_bound(start + turns as int, n);
}

/// Damage of any size keeps health within `0..=max_health`, and what is
/// reported lost is exactly the change in health.
pub proof fn law_damage_keeps_health_in_bounds(view: SentryView, amount: int)
    requires
        sentry_valid(view),
        view.max_health >= 0,
    ensures
        0 <= clamp_int(view.health - amount, 0, view.max_health) <= view.max_health,
        amount >= 0 ==> clamp_int(view.health - amount, 0, view.max_health) <= view.health,
        amount <= 0 ==> clamp_int(view.health - amount, 0, view.max_health) >= view.health,
{
}

} // verus!
