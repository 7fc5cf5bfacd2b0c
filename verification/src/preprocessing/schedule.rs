//! In which order parts of a program are handed to workers and collected.

use vstd::prelude::*;

verus! {

/// Number of parts that are handed out before the first is waited for.
pub const AHEAD: usize = 2;

/// What is to be done next.
#[derive(Clone, Copy, Debug, PartialEq, Eq)]
pub enum Action {
    /// Hand the next part of the program, if there is one, to every worker.
    Feed,
    /// Wait until every worker has finished a part.
    Collect,
    /// Close the inputs of the workers: all parts are finished.
    Finish,
}

/// Keeps the workers busy: a few parts are handed out ahead, and one more
/// whenever one has been finished.
#[derive(Clone, Copy, Debug, PartialEq, Eq)]
pub struct Schedule {
    /// Parts that are still to be handed out ahead.
    pub ahead: usize,
    /// Parts that were handed out and not finished.
    pub scheduled: usize,
    /// A part was finished and not yet replaced.
    pub refill: bool,
}

impl Schedule {
    /// At most as many parts are under way as may be handed out ahead.
    pub open spec fn wf(self) -> bool {
        &&& self.scheduled + self.ahead + (if self.refill {
            1int
        } else {
            0int
        }) <= AHEAD
        &&& self.refill ==> self.ahead == 0
    }

    /// What is to be done next.
    pub open spec fn next_action(self) -> Action {
        if self.ahead > 0 || self.refill {
            Action::Feed
        } else if self.scheduled > 0 {
            Action::Collect
        } else {
            Action::Finish
        }
    }

    /// The state after feeding, where there may have been no part left.
    pub open spec fn after_feed(self, sent: bool) -> Schedule {
        Schedule {
            ahead: if self.ahead > 0 {
                (self.ahead - 1) as usize
            } else {
                0
            },
            scheduled: if sent {
                (self.scheduled + 1) as usize
            } else {
                self.scheduled
            },
            refill: false,
        }
    }

    /// The state after collecting.
    pub open spec fn after_collect(self) -> Schedule {
        Schedule { ahead: self.ahead, scheduled: (self.scheduled - 1) as usize, refill: true }
    }

    /// The state before anything was handed out.
    pub open spec fn initial() -> Schedule {
        Schedule { ahead: AHEAD, scheduled: 0, refill: false }
    }

    /// Starts.
    pub fn new() -> (schedule: Schedule)
        ensures
            schedule == Schedule::initial(),
            schedule.wf(),
    {
        Schedule { ahead: AHEAD, scheduled: 0, refill: false }
    }

    /// Says what is to be done next.
    pub fn action(&self) -> (action: Action)
        ensures
            action == self.next_action(),
    {
        if self.ahead > 0 || self.refill {
            Action::Feed
        } else if self.scheduled > 0 {
            Action::Collect
        } else {
            Action::Finish
        }
    }

    /// Takes note that the workers were fed, or that no part was left.
    pub fn fed(&mut self, sent: bool)
        requires
            old(self).wf(),
            old(self).next_action() == Action::Feed,
        ensures
            final(self).wf(),
            *final(self) == old(self).after_feed(sent),
    {
        if self.ahead > 0 {
            self.ahead = self.ahead - 1;
        }
        if sent {
            self.scheduled = self.scheduled + 1;
        }
        self.refill = false;
    }

    /// Takes note that every worker has finished a part.
    pub fn collected(&mut self)
        requires
            old(self).wf(),
            old(self).next_action() == Action::Collect,
        ensures
            final(self).wf(),
            *final(self) == old(self).after_collect(),
    {
        self.scheduled = self.scheduled - 1;
        self.refill = true;
    }

    /// The parts that the workers are fed in turn, and how often they are
    /// collected, until the schedule finishes a program with some parts left.
    pub open spec fn outcome<P>(self, parts: Seq<P>) -> (Seq<P>, nat)
        decreases 4 * parts.len() + 2 * self.scheduled + self.ahead + (if self.refill {
            1int
        } else {
            0int
        }),
        when self.wf()
    {
        match self.next_action() {
            Action::Feed => if parts.len() > 0 {
                let rest = self.after_feed(true).outcome(parts.drop_first());
                (seq![parts.first()] + rest.0, rest.1)
            } else {
                self.after_feed(false).outcome(parts)
            },
            Action::Collect => {
                let rest = self.after_collect().outcome(parts);
                (rest.0, rest.1 + 1)
            },
            Action::Finish => (Seq::empty(), 0),
        }
    }
}

/// Feeding and collecting as the schedule says feeds every part that is left
/// and collects every part that was fed.
proof fn lemma_outcome<P>(s: Schedule, parts: Seq<P>)
    requires
        s.wf(),
        parts.len() > 0 ==> s.next_action() != Action::Finish,
    ensures
        s.outcome(parts) == (parts, parts.len() + s.scheduled as nat),
    decreases 4 * parts.len() + 2 * s.scheduled + s.ahead + (if s.refill {
        1int
    } else {
        0int
    }),
{
    match s.next_action() {
        Action::Feed => {
            if parts.len() > 0 {
                lemma_outcome(s.after_feed(true), parts.drop_first());
                assert(seq![parts.first()] + parts.drop_first() =~= parts);
            } else {
                lemma_outcome(s.after_feed(false), parts);
            }
        },
        Action::Collect => {
            lemma_outcome(s.after_collect(), parts);
        },
        Action::Finish => {
            assert(parts =~= Seq::empty());
        },
    }
}

/// Every part of a program is fed to the workers, in order, and every part is
/// collected before the schedule finishes.
pub proof fn every_part_is_fed_and_collected<P>(parts: Seq<P>)
    ensures
        Schedule::initial().outcome(parts) == (parts, parts.len()),
{
    lemma_outcome(Schedule::initial(), parts);
}

/// A moment of a run: the state of the schedule, and how many parts were fed
/// and collected so far.
pub struct Moment {
    pub schedule: Schedule,
    pub fed: nat,
    pub collected: nat,
}

/// The moment after a number of actions, for a program of so many parts.
pub open spec fn moment(parts: nat, actions: nat) -> Moment
    decreases actions,
{
    if actions == 0 {
        Moment { schedule: Schedule::initial(), fed: 0, collected: 0 }
    } else {
        let m = moment(parts, (actions - 1) as nat);
        match m.schedule.next_action() {
            Action::Feed => if m.fed < parts {
                Moment { schedule: m.schedule.after_feed(true), fed: m.fed + 1, ..m }
            } else {
                Moment { schedule: m.schedule.after_feed(false), ..m }
            },
            Action::Collect => Moment {
                schedule: m.schedule.after_collect(),
                collected: m.collected + 1,
                ..m
            },
            Action::Finish => m,
        }
    }
}

/// At every moment the parts that were fed and not collected are those that the
/// schedule counts, and there are never more than may be handed out ahead.
pub proof fn few_parts_under_way(parts: nat, actions: nat)
    ensures
        moment(parts, actions).schedule.wf(),
        moment(parts, actions).fed <= parts,
        moment(parts, actions).fed == moment(parts, actions).collected + moment(
            parts,
            actions,
        ).schedule.scheduled,
        moment(parts, actions).fed - moment(parts, actions).collected <= AHEAD,
    decreases actions,
{
    if actions > 0 {
        few_parts_under_way(parts, (actions - 1) as nat);
    }
}

proof fn lemma_parts_ahead(parts: nat, actions: nat)
    ensures
        ({
            let m = moment(parts, actions);
            let waiting = m.schedule.ahead + (if m.schedule.refill {
                1int
            } else {
                0int
            });
            &&& m.schedule.wf()
            &&& m.fed == if m.collected + 2 - waiting < parts {
                m.collected + 2 - waiting
            } else {
                parts as int
            }
            &&& m.fed == m.collected + m.schedule.scheduled
        }),
    decreases actions,
{
    if actions > 0 {
        lemma_parts_ahead(parts, (actions - 1) as nat);
    }
}

/// The workers are kept busy: whenever it is not time to feed, two more parts
/// were fed than were collected, or all parts that there are. The schedule
/// finishes just when every part was fed and collected.
pub proof fn two_parts_are_kept_ahead(parts: nat, actions: nat)
    ensures
        ({
            let m = moment(parts, actions);
            &&& m.schedule.next_action() != Action::Feed ==> m.fed == if m.collected + 2 < parts {
                m.collected + 2
            } else {
                parts
            }
            &&& m.schedule.next_action() == Action::Collect ==> m.collected < m.fed
            &&& m.schedule.next_action() == Action::Finish ==> m.collected == parts && m.fed
                == parts
        }),
{
    lemma_parts_ahead(parts, actions);
}

/// Never more parts are under way than may be handed out ahead.
pub proof fn never_more_than_ahead(s: Schedule, sent: bool)
    requires
        s.wf(),
    ensures
        s.scheduled <= AHEAD,
        s.next_action() == Action::Feed ==> s.after_feed(sent).wf(),
        s.next_action() == Action::Collect ==> s.after_collect().wf(),
{
}

} // verus!
