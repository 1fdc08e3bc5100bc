use grid_replay::player::{Phase, Player, Step};
use grid_replay::script::Action;
use grid_replay::time::{Offset, Span};

fn span(nanos: u128) -> Span {
    Span::from_nanos(nanos).unwrap()
}

fn action(x: i32, y: i32, nanos: u128) -> Action {
    Action { x, y, t: Offset::At(span(nanos)) }
}

#[test]
fn a_replay_of_nothing() {
    let mut p = Player::new(Vec::new(), span(4_100_000_000));
    assert_eq!(p.phase(), Phase::Starting);
    assert_eq!(p.step(Span::zero()), Step::Start(span(4_100_000_000)));
    assert_eq!(p.phase(), Phase::Timing);
    assert_eq!(p.step(Span::zero()), Step::Done);
    assert_eq!(p.phase(), Phase::Over);
    assert_eq!(p.step(span(5)), Step::Done);
    assert_eq!(p.replayed(), 0);
}

#[test]
fn waits_for_what_is_left_and_then_moves() {
    let actions = vec![action(752, 332, 0), action(1168, 748, 1_000_000_000), action(960, 540, 2_500_000_000)];
    let mut p = Player::new(actions, span(0));
    assert_eq!(p.step(span(999)), Step::Start(span(0)));
    assert_eq!(p.step(span(0)), Step::Move { x: 752, y: 332 });
    assert_eq!(p.replayed(), 1);
    assert_eq!(p.step(span(200_000)), Step::Wait(span(999_800_000)));
    assert_eq!(p.phase(), Phase::Resting);
    assert_eq!(p.replayed(), 1);
    assert_eq!(p.step(span(1_000_100_000)), Step::Move { x: 1168, y: 748 });
    assert_eq!(p.phase(), Phase::Timing);
    assert_eq!(p.step(span(1_000_200_000)), Step::Wait(span(1_499_800_000)));
    assert_eq!(p.step(span(2_500_000_001)), Step::Move { x: 960, y: 540 });
    assert_eq!(p.replayed(), 3);
    assert_eq!(p.step(span(2_500_000_002)), Step::Done);
    assert_eq!(p.phase(), Phase::Over);
}

#[test]
fn moves_after_a_wait_whatever_the_clock_reads() {
    let mut p = Player::new(vec![action(1, 2, 1_000)], span(7));
    assert_eq!(p.step(span(0)), Step::Start(span(7)));
    assert_eq!(p.step(span(400)), Step::Wait(span(600)));
    assert_eq!(p.step(span(401)), Step::Move { x: 1, y: 2 });
    assert_eq!(p.step(span(402)), Step::Done);
}

#[test]
fn an_action_that_is_due_exactly_now_moves_at_once() {
    let mut p = Player::new(vec![action(1, 2, 1_000)], span(7));
    p.step(span(0));
    assert_eq!(p.step(span(1_000)), Step::Move { x: 1, y: 2 });
}

#[test]
fn overdue_actions_move_at_once_in_the_order_of_the_list() {
    let actions = vec![action(1, 1, 3_000), action(2, 2, 1_000), action(3, 3, 2_000), action(4, 4, 5_000)];
    let mut p = Player::new(actions, span(0));
    p.step(span(0));
    assert_eq!(p.step(span(10)), Step::Wait(span(2_990)));
    assert_eq!(p.step(span(3_000)), Step::Move { x: 1, y: 1 });
    assert_eq!(p.step(span(3_001)), Step::Move { x: 2, y: 2 });
    assert_eq!(p.step(span(3_002)), Step::Move { x: 3, y: 3 });
    assert_eq!(p.step(span(3_003)), Step::Wait(span(1_997)));
    assert_eq!(p.step(span(5_000)), Step::Move { x: 4, y: 4 });
    assert_eq!(p.step(span(5_001)), Step::Done);
}

#[test]
fn gives_up_at_an_action_that_is_never_due() {
    let actions = vec![action(1, 1, 0), Action { x: 2, y: 2, t: Offset::Unreachable }, action(3, 3, 0)];
    let mut p = Player::new(actions, span(0));
    p.step(span(0));
    assert_eq!(p.step(span(0)), Step::Move { x: 1, y: 1 });
    assert_eq!(p.step(span(1)), Step::Abort);
    assert_eq!(p.phase(), Phase::Over);
    assert_eq!(p.replayed(), 1);
    assert_eq!(p.step(span(2)), Step::Done);
}

#[test]
fn every_move_comes_in_order_and_not_early_against_an_honest_clock() {
    let offsets: Vec<u128> = vec![0, 5, 5, 40, 12, 100, 100, 101, 3, 1_000];
    let actions: Vec<Action> = offsets.iter().enumerate().map(|(i, t)| action(i as i32, -(i as i32), *t)).collect();
    for slack in [0u128, 1, 7, 60] {
        let mut p = Player::new(actions.clone(), span(9));
        let mut clock: u128 = 0;
        let mut moved = 0usize;
        assert_eq!(p.step(span(clock)), Step::Start(span(9)));
        loop {
            match p.step(span(clock)) {
                Step::Wait(w) => {
                    assert_eq!(clock + w.as_nanos(), offsets[moved]);
                    clock += w.as_nanos() + slack;
                },
                Step::Move { x, y } => {
                    assert_eq!((x, y), (moved as i32, -(moved as i32)));
                    assert!(clock >= offsets[moved]);
                    moved += 1;
                    assert_eq!(p.replayed(), moved);
                    clock += slack;
                },
                Step::Done => break,
                other => panic!("{:?}", other),
            }
        }
        assert_eq!(moved, actions.len());
    }
}
