use grid_replay::session::{advance, begin, Command, Event, Key, Stage};

const KEYS: [Key; 4] = [Key::Space, Key::KeyR, Key::KeyQ, Key::Other];

#[test]
fn a_session_begins_with_the_choice_of_a_script() {
    assert_eq!(begin(), (Stage::Selecting, Command::PickFile));
}

#[test]
fn one_round_and_out() {
    let (s, c) = begin();
    assert_eq!(c, Command::PickFile);
    let (s, c) = advance(s, Event::FilePicked);
    assert_eq!((s, c), (Stage::Delaying, Command::AskDelay));
    let (s, c) = advance(s, Event::DelayChosen);
    assert_eq!((s, c), (Stage::Armed, Command::AwaitKey));
    let (s, c) = advance(s, Event::Pressed(Key::Space));
    assert_eq!((s, c), (Stage::Replaying, Command::Replay));
    let (s, c) = advance(s, Event::ReplayEnded);
    assert_eq!((s, c), (Stage::Finished, Command::AwaitKey));
    let (s, c) = advance(s, Event::Pressed(Key::KeyQ));
    assert_eq!((s, c), (Stage::Closed, Command::Exit));
}

#[test]
fn no_script_ends_the_session() {
    assert_eq!(advance(Stage::Selecting, Event::NothingPicked), (Stage::Closed, Command::Exit));
}

#[test]
fn only_the_space_key_starts_the_replay() {
    for key in KEYS {
        let expected = if key == Key::Space { (Stage::Replaying, Command::Replay) } else { (Stage::Armed, Command::AwaitKey) };
        assert_eq!(advance(Stage::Armed, Event::Pressed(key)), expected);
    }
}

#[test]
fn r_restarts_and_q_quits_once_the_replay_is_over() {
    assert_eq!(advance(Stage::Finished, Event::Pressed(Key::KeyR)), (Stage::Selecting, Command::PickFile));
    assert_eq!(advance(Stage::Finished, Event::Pressed(Key::KeyQ)), (Stage::Closed, Command::Exit));
    assert_eq!(advance(Stage::Finished, Event::Pressed(Key::Space)), (Stage::Finished, Command::AwaitKey));
    assert_eq!(advance(Stage::Finished, Event::Pressed(Key::Other)), (Stage::Finished, Command::AwaitKey));
}

#[test]
fn events_that_a_stage_does_not_wait_for_change_nothing() {
    let events = [
        Event::FilePicked,
        Event::NothingPicked,
        Event::DelayChosen,
        Event::Pressed(Key::Space),
        Event::Pressed(Key::KeyR),
        Event::Pressed(Key::KeyQ),
        Event::Pressed(Key::Other),
        Event::ReplayEnded,
    ];
    let stages = [Stage::Selecting, Stage::Delaying, Stage::Armed, Stage::Replaying, Stage::Finished, Stage::Closed];
    let mut moves = 0;
    for stage in stages {
        for event in events {
            let (next, _) = advance(stage, event);
            if next != stage {
                moves += 1;
            }
        }
    }
    assert_eq!(moves, 7);
    for event in events {
        assert_eq!(advance(Stage::Closed, event), (Stage::Closed, Command::Exit));
    }
    for key in KEYS {
        assert_eq!(advance(Stage::Replaying, Event::Pressed(key)), (Stage::Replaying, Command::Replay));
        assert_eq!(advance(Stage::Selecting, Event::Pressed(key)), (Stage::Selecting, Command::PickFile));
    }
}
