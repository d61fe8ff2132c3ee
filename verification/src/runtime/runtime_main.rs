//! The runtime's clock and the decisions it takes between steps: when the
//! current goal counts as achieved, whether to send a babble command or to
//! plan for the goal, and what to send after planning.

use vstd::prelude::*;
use crate::types::runtime::{RuntimeCommand, SystemTime};

verus! {

/// The exact time one step of 100 milliseconds after `t`.
pub open spec fn time_step(t: SystemTime) -> SystemTime {
    SystemTime::Exact((t->Exact_0 + 100) as u64)
}

/// The time after `k` steps from the exact time `t`.
pub open spec fn time_after_steps(t: u64, k: nat) -> SystemTime
    decreases k,
{
    if k == 0 {
        SystemTime::Exact(t)
    } else {
        time_step(time_after_steps(t, (k - 1) as nat))
    }
}

/// Stepping the clock `k` times from time zero, one step per pass of the
/// runtime loop, reaches exactly `100 * k` milliseconds, as long as that
/// time fits.
pub proof fn lemma_time_after_steps(k: nat)
    requires
        100 * k <= u64::MAX,
    ensures
        time_after_steps(0, k) == SystemTime::Exact((100 * k) as u64),
    decreases k,
{
    if k > 0 {
        lemma_time_after_steps((k - 1) as nat);
    }
}

/// Advances the exact system time by one step of 100 milliseconds.
pub fn advance_time_step(time: &mut SystemTime)
    requires
        *old(time) is Exact,
        (*old(time))->Exact_0 + 100 <= u64::MAX,
    ensures
        *final(time) == SystemTime::Exact(((*old(time))->Exact_0 + 100) as u64),
        *final(time) == time_step(*old(time)),
{
    let t = match *time {
        SystemTime::Exact(t) => t,
        SystemTime::Range(t, _) => t,
    };
    *time = SystemTime::Exact(t + 100);
}

/// What the runtime does in a step.
pub enum RuntimeAction<V> {
    /// Chain backward and forward from each fact of the goal at this index.
    Plan(usize),
    /// Send this command.
    Execute(RuntimeCommand<V>),
}

/// What the runtime keeps between steps to decide what to do.
pub struct RuntimeControl<V> {
    /// The index of the goal being worked on.
    pub current_goal_index: usize,
    /// Commands still to send before planning starts.
    pub babble_command: Vec<RuntimeCommand<V>>,
    /// Whether the command sent last was a babble command.
    pub last_was_babble_command: bool,
}

impl<V> RuntimeControl<V> {
    /// No goal worked on yet, the given babble commands still to send.
    pub fn new(babble_command: Vec<RuntimeCommand<V>>) -> (c: Self)
        ensures
            c.current_goal_index == 0,
            c.babble_command@ == babble_command@,
            c.last_was_babble_command,
    {
        RuntimeControl { current_goal_index: 0, babble_command, last_was_babble_command: true }
    }

    /// One step, once the state has been read. `goal_matched` tells whether
    /// the state matches the facts of the current goal, which has
    /// `goal_facts` facts. Unless the last command was a babble command, a
    /// matched goal moves work on to the next goal (the index stays at its
    /// largest value). Then the first babble command, if any is left, is
    /// sent; otherwise the goal that was current when the step began is
    /// planned for, and a goal with facts ends babbling.
    pub fn decide(&mut self, goal_matched: bool, goal_facts: usize) -> (r: RuntimeAction<V>)
        ensures
            final(self).current_goal_index as int == if !old(self).last_was_babble_command && goal_matched
                && old(self).current_goal_index < usize::MAX {
                old(self).current_goal_index + 1
            } else {
                old(self).current_goal_index as int
            },
            old(self).babble_command@.len() > 0 ==> {
                &&& r == RuntimeAction::Execute(old(self).babble_command@[0])
                &&& final(self).babble_command@ == old(self).babble_command@.drop_first()
                &&& final(self).last_was_babble_command
            },
            old(self).babble_command@.len() == 0 ==> {
                &&& r == RuntimeAction::<V>::Plan(old(self).current_goal_index)
                &&& final(self).babble_command@ == old(self).babble_command@
                &&& final(self).last_was_babble_command == (old(self).last_was_babble_command
                    && goal_facts == 0)
            },
    {
        let goal_index = self.current_goal_index;
        if !self.last_was_babble_command && goal_matched && self.current_goal_index < usize::MAX {
            self.current_goal_index = self.current_goal_index + 1;
        }
        if self.babble_command.len() > 0 {
            let command = self.babble_command.remove(0);
            self.last_was_babble_command = true;
            RuntimeAction::Execute(command)
        } else {
            if goal_facts > 0 {
                self.last_was_babble_command = false;
            }
            RuntimeAction::Plan(goal_index)
        }
    }
}

/// The command to send after planning: the first of the path found, or,
/// where none was found, `no_action` for the system itself.
pub fn command_after_planning<V>(path: Vec<RuntimeCommand<V>>) -> (r: RuntimeCommand<V>)
    ensures
        path@.len() > 0 ==> r == path@[0],
        path@.len() == 0 ==> r.name@ == "no_action"@ && r.entity_id@ == "sys"@ && r.params@.len() == 0,
{
    let mut path = path;
    if path.len() > 0 {
        path.remove(0)
    } else {
        RuntimeCommand { name: "no_action".to_string(), entity_id: "sys".to_string(), params: Vec::new() }
    }
}

} // verus!
