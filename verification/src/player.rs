//! The replay of a list of actions against a clock.
//!
//! A player decides and its caller acts: the caller reads the clock, asks the
//! player for the next step, and performs it. The player never looks at a
//! clock itself, so what it decides is a function of the readings it is given.

use vstd::prelude::*;
use crate::script::Action;
use crate::time::lemma_span_of_nanos;
use crate::time::span_of_nanos;
use crate::time::Offset;
use crate::time::Span;

verus! {

/// Where a replay stands.
#[derive(Clone, Copy, Debug, PartialEq, Eq)]
pub enum Phase {
    /// The delay before the first action has not been announced yet.
    Starting,
    /// The next action is to be timed against the clock.
    Timing,
    /// The wait for the next action has been handed out; the action follows.
    Resting,
    /// Nothing is left to do.
    Over,
}

/// What the caller of a player is to do next.
#[derive(Clone, Copy, Debug, PartialEq, Eq)]
pub enum Step {
    /// Announce the delay, let it pass, and start the clock.
    Start(Span),
    /// Let the given span pass.
    Wait(Span),
    /// Place the pointer on the given pixel.
    Move { x: i32, y: i32 },
    /// Give up: the next action is due at no time that the clock reaches.
    Abort,
    /// Stop: the replay is over.
    Done,
}

/// A replay in progress.
pub struct Player {
    actions: Vec<Action>,
    delay: Span,
    next: usize,
    phase: Phase,
}

/// What a player holds.
pub struct PlayerView {
    /// The actions, in the order in which they are replayed.
    pub actions: Seq<Action>,
    /// The delay before the first of them.
    pub delay: Span,
    /// How many of them have been replayed.
    pub next: nat,
    pub phase: Phase,
}

impl PlayerView {
    /// `self` in another phase.
    pub open spec fn in_phase(self, phase: Phase) -> PlayerView {
        PlayerView { phase, ..self }
    }

    /// `self` with one more action replayed, about to time the next.
    pub open spec fn moved(self) -> PlayerView {
        PlayerView { next: self.next + 1, phase: Phase::Timing, ..self }
    }

    /// The move that replays the next action.
    pub open spec fn next_move(self) -> Step {
        Step::Move { x: self.actions[self.next as int].x, y: self.actions[self.next as int].y }
    }

    /// The state after a step taken when the clock reads `elapsed`, and the
    /// step.
    ///
    /// An action whose time has come, or has passed, is replayed at once; for
    /// one that is not yet due the wait is exactly what is left until it is,
    /// and the action follows the wait whatever the clock reads then.
    pub open spec fn advance(self, elapsed: Span) -> (PlayerView, Step) {
        match self.phase {
            Phase::Starting => (self.in_phase(Phase::Timing), Step::Start(self.delay)),
            Phase::Timing => if self.next >= self.actions.len() {
                (self.in_phase(Phase::Over), Step::Done)
            } else {
                match self.actions[self.next as int].t {
                    Offset::Unreachable => (self.in_phase(Phase::Over), Step::Abort),
                    Offset::At(due) => if due.total_nanos() > elapsed.total_nanos() {
                        (
                            self.in_phase(Phase::Resting),
                            Step::Wait(
                                span_of_nanos(
                                    (due.total_nanos() - elapsed.total_nanos()) as nat,
                                ),
                            ),
                        )
                    } else {
                        (self.moved(), self.next_move())
                    },
                }
            },
            Phase::Resting => (self.moved(), self.next_move()),
            Phase::Over => (self, Step::Done),
        }
    }

    /// Whether the state is one that a player can be in.
    pub open spec fn wf(self) -> bool {
        &&& self.next <= self.actions.len()
        &&& self.phase == Phase::Resting ==> self.next < self.actions.len()
    }
}

impl View for Player {
    type V = PlayerView;

    closed spec fn view(&self) -> PlayerView {
        PlayerView {
            actions: self.actions@,
            delay: self.delay,
            next: self.next as nat,
            phase: self.phase,
        }
    }
}

impl Player {
    #[verifier::type_invariant]
    spec fn inv(self) -> bool {
        self@.wf()
    }

    /// A player that is to replay `actions` after `delay`.
    pub fn new(actions: Vec<Action>, delay: Span) -> (p: Player)
        ensures
            p@ == (PlayerView { actions: actions@, delay, next: 0, phase: Phase::Starting }),
            p@.wf(),
    {
        Player { actions, delay, next: 0, phase: Phase::Starting }
    }

    /// Where the replay stands.
    pub fn phase(&self) -> (phase: Phase)
        ensures
            phase == self@.phase,
    {
        self.phase
    }

    /// How many actions have been replayed.
    pub fn replayed(&self) -> (n: usize)
        ensures
            n == self@.next,
            n <= self@.actions.len(),
    {
        proof {
            use_type_invariant(self);
        }
        self.next
    }

    /// Decides the next step, given that `elapsed` has gone by since the
    /// clock was started. Before the clock is started the reading is not
    /// looked at.
    pub fn step(&mut self, elapsed: Span) -> (step: Step)
        ensures
            (final(self)@, step) == old(self)@.advance(elapsed),
            final(self)@.wf(),
    {
        proof {
            use_type_invariant(&*self);
        }
        let len = self.actions.len();
        match self.phase {
            Phase::Starting => {
                self.phase = Phase::Timing;
                Step::Start(self.delay)
            },
            Phase::Timing => {
                if self.next >= len {
                    self.phase = Phase::Over;
                    return Step::Done;
                }
                let action = self.actions[self.next];
                match action.t {
                    Offset::Unreachable => {
                        self.phase = Phase::Over;
                        Step::Abort
                    },
                    Offset::At(due) => match due.remaining(elapsed) {
                        Some(wait) => {
                            proof {
                                lemma_span_of_nanos(wait);
                            }
                            self.phase = Phase::Resting;
                            Step::Wait(wait)
                        },
                        None => {
                            self.next = self.next + 1;
                            Step::Move { x: action.x, y: action.y }
                        },
                    },
                }
            },
            Phase::Resting => {
                let action = self.actions[self.next];
                self.phase = Phase::Timing;
                self.next = self.next + 1;
                Step::Move { x: action.x, y: action.y }
            },
            Phase::Over => Step::Done,
        }
    }
}


/// Whether the next action of `s` is due when the clock reads `reading`.
pub open spec fn is_due(s: PlayerView, reading: Span) -> bool {
    &&& s.next < s.actions.len()
    &&& s.actions[s.next as int].t@ is Some
    &&& s.actions[s.next as int].t@->0 <= reading.total_nanos()
}

/// Whether the clock readings are those of a caller that lets every wait
/// pass: the reading that follows a wait is later than the one before it by
/// the length of the wait at least.
pub open spec fn honest(s: PlayerView, readings: Seq<Span>) -> bool
    decreases readings.len(),
{
    if readings.len() < 2 {
        true
    } else {
        let (then, step) = s.advance(readings[0]);
        &&& step matches Step::Wait(w) ==> readings[1].total_nanos() >= readings[0].total_nanos()
            + w.total_nanos()
        &&& honest(then, readings.drop_first())
    }
}

/// Whether the steps taken at the given readings replay the actions in
/// their order, one at a time, and none before it is due.
pub open spec fn punctual(s: PlayerView, readings: Seq<Span>) -> bool
    decreases readings.len(),
{
    if readings.len() == 0 {
        true
    } else {
        let (then, step) = s.advance(readings[0]);
        &&& if step is Move {
            &&& is_due(s, readings[0])
            &&& step == s.next_move()
            &&& then.next == s.next + 1
        } else {
            then.next == s.next
        }
        &&& punctual(then, readings.drop_first())
    }
}

/// A step keeps a state well formed.
pub proof fn lemma_advance_wf(s: PlayerView, reading: Span)
    requires
        s.wf(),
    ensures
        s.advance(reading).0.wf(),
        s.advance(reading).0.actions == s.actions,
        s.advance(reading).0.delay == s.delay,
{
}

/// What is handed out as a wait is exactly what is left until the action is
/// due.
pub proof fn lemma_wait_until_due(s: PlayerView, reading: Span)
    requires
        s.advance(reading).1 is Wait,
    ensures
        s.phase == Phase::Timing,
        s.advance(reading).0 == s.in_phase(Phase::Resting),
        s.next < s.actions.len(),
        s.actions[s.next as int].t@ == Some(
            reading.total_nanos() + s.advance(reading).1->Wait_0.total_nanos(),
        ),
{
    match s.actions[s.next as int].t {
        Offset::At(due) => {
            crate::time::lemma_span_difference(due, reading);
        },
        Offset::Unreachable => {},
    }
}

/// Against a clock whose waits are let pass, the actions are replayed in
/// their order and none before it is due. Where the replay is taken up
/// behind a wait, the first reading is to be one at which the action is due.
pub proof fn lemma_replay_punctual(s: PlayerView, readings: Seq<Span>)
    requires
        s.wf(),
        honest(s, readings),
        s.phase == Phase::Resting && readings.len() > 0 ==> is_due(s, readings[0]),
    ensures
        punctual(s, readings),
    decreases readings.len(),
{
    if readings.len() > 0 {
        let (then, step) = s.advance(readings[0]);
        let rest = readings.drop_first();
        lemma_advance_wf(s, readings[0]);
        if step is Wait {
            lemma_wait_until_due(s, readings[0]);
        }
        if readings.len() >= 2 {
            assert(rest[0] == readings[1]);
        }
        lemma_replay_punctual(then, rest);
    }
}

/// A replay from its start, against a clock whose waits are let pass, places
/// the pointer in the order of the list and never before an action is due.
pub proof fn lemma_fresh_replay_punctual(actions: Seq<Action>, delay: Span, readings: Seq<Span>)
    requires
        honest(
            PlayerView { actions, delay, next: 0, phase: Phase::Starting },
            readings,
        ),
    ensures
        punctual(PlayerView { actions, delay, next: 0, phase: Phase::Starting }, readings),
{
    lemma_replay_punctual(
        PlayerView { actions, delay, next: 0, phase: Phase::Starting },
        readings,
    );
}

} // verus!
