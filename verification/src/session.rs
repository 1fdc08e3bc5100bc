//! A session: choosing a script and a delay, starting the replay on a key,
//! and going round again or leaving on another.

use vstd::prelude::*;

verus! {

/// A key press, as far as a session tells keys apart.
#[derive(Clone, Copy, Debug, PartialEq, Eq)]
pub enum Key {
    Space,
    KeyR,
    KeyQ,
    Other,
}

/// Where a session stands.
#[derive(Clone, Copy, Debug, PartialEq, Eq)]
pub enum Stage {
    /// A script is being chosen.
    Selecting,
    /// The delay before the replay is being chosen.
    Delaying,
    /// All is ready; the start key is awaited.
    Armed,
    /// The replay is running.
    Replaying,
    /// The replay is over; the key that restarts or the key that quits is
    /// awaited.
    Finished,
    /// The session has ended.
    Closed,
}

/// What happened outside the session.
#[derive(Clone, Copy, Debug, PartialEq, Eq)]
pub enum Event {
    /// A script was chosen.
    FilePicked,
    /// The choice of a script was given up.
    NothingPicked,
    /// A delay was chosen.
    DelayChosen,
    /// A key was pressed.
    Pressed(Key),
    /// The replay came to its end.
    ReplayEnded,
}

/// What is to be done for the session next.
#[derive(Clone, Copy, Debug, PartialEq, Eq)]
pub enum Command {
    /// Let the user choose a script.
    PickFile,
    /// Let the user choose the delay.
    AskDelay,
    /// Wait for the next key press.
    AwaitKey,
    /// Read the script and replay it.
    Replay,
    /// Leave.
    Exit,
}

/// What a session in the given stage is waiting for.
pub open spec fn pending(stage: Stage) -> Command {
    match stage {
        Stage::Selecting => Command::PickFile,
        Stage::Delaying => Command::AskDelay,
        Stage::Armed => Command::AwaitKey,
        Stage::Replaying => Command::Replay,
        Stage::Finished => Command::AwaitKey,
        Stage::Closed => Command::Exit,
    }
}

/// The stage that follows `stage` on `event`. The space key starts the
/// replay, `R` restarts with a new script and `Q` quits once a replay is
/// over; an event that the stage does not wait for changes nothing.
pub open spec fn successor(stage: Stage, event: Event) -> Stage {
    match (stage, event) {
        (Stage::Selecting, Event::FilePicked) => Stage::Delaying,
        (Stage::Selecting, Event::NothingPicked) => Stage::Closed,
        (Stage::Delaying, Event::DelayChosen) => Stage::Armed,
        (Stage::Armed, Event::Pressed(Key::Space)) => Stage::Replaying,
        (Stage::Replaying, Event::ReplayEnded) => Stage::Finished,
        (Stage::Finished, Event::Pressed(Key::KeyR)) => Stage::Selecting,
        (Stage::Finished, Event::Pressed(Key::KeyQ)) => Stage::Closed,
        _ => stage,
    }
}

/// The stage in which a session begins.
pub fn begin() -> (start: (Stage, Command))
    ensures
        start == (Stage::Selecting, Command::PickFile),
{
    (Stage::Selecting, Command::PickFile)
}

/// Takes a session from `stage` over `event`: the stage that follows, and
/// what is to be done in it.
pub fn advance(stage: Stage, event: Event) -> (next: (Stage, Command))
    ensures
        next.0 == successor(stage, event),
        next.1 == pending(next.0),
{
    let to = match stage {
        Stage::Selecting => match event {
            Event::FilePicked => Stage::Delaying,
            Event::NothingPicked => Stage::Closed,
            _ => stage,
        },
        Stage::Delaying => match event {
            Event::DelayChosen => Stage::Armed,
            _ => stage,
        },
        Stage::Armed => match event {
            Event::Pressed(Key::Space) => Stage::Replaying,
            _ => stage,
        },
        Stage::Replaying => match event {
            Event::ReplayEnded => Stage::Finished,
            _ => stage,
        },
        Stage::Finished => match event {
            Event::Pressed(Key::KeyR) => Stage::Selecting,
            Event::Pressed(Key::KeyQ) => Stage::Closed,
            _ => stage,
        },
        Stage::Closed => stage,
    };
    let command = match to {
        Stage::Selecting => Command::PickFile,
        Stage::Delaying => Command::AskDelay,
        Stage::Armed => Command::AwaitKey,
        Stage::Replaying => Command::Replay,
        Stage::Finished => Command::AwaitKey,
        Stage::Closed => Command::Exit,
    };
    (to, command)
}


/// A replay starts on the space key alone, and only when all is ready.
pub proof fn lemma_replay_needs_space(stage: Stage, event: Event)
    requires
        stage != Stage::Replaying,
        successor(stage, event) == Stage::Replaying,
    ensures
        stage == Stage::Armed,
        event == Event::Pressed(Key::Space),
{
}

/// A session that has ended stays so, and one that is under way ends only
/// where no script is chosen or, once a replay is over, on `Q`.
pub proof fn lemma_session_ends(stage: Stage, event: Event)
    ensures
        successor(Stage::Closed, event) == Stage::Closed,
        stage != Stage::Closed && successor(stage, event) == Stage::Closed ==> (stage
            == Stage::Selecting && event == Event::NothingPicked) || (stage == Stage::Finished
            && event == Event::Pressed(Key::KeyQ)),
{
}

/// While a key is awaited, every key but those the stage waits for is
/// passed over.
pub proof fn lemma_other_keys_are_passed_over(stage: Stage, key: Key)
    ensures
        stage == Stage::Armed && key != Key::Space ==> successor(stage, Event::Pressed(key))
            == stage,
        stage == Stage::Finished && key != Key::KeyR && key != Key::KeyQ ==> successor(
            stage,
            Event::Pressed(key),
        ) == stage,
{
}

} // verus!
