use pool_miner::board::Board;
use pool_miner::clock::Moment;
use pool_miner::miner::Miner;
use pool_miner::round::{Action, Event, Phase};
use pool_miner::search::{DrillHash, Report};
use pool_miner::task::{LastChallenge, MineTask, Offer};
use pool_miner::wire::ServerMessage;

fn miner() -> Miner {
    Miner::from_address("11111111111111111111111111111111").unwrap()
}

fn received() -> Moment {
    Moment { before_epoch: false, secs: 100, nanos: 0 }
}

fn task() -> MineTask<u8> {
    let mut task = MineTask::none_at(received());
    let message = ServerMessage::StartMining([7; 32], 10..20, 60);
    assert_eq!(task.offer(&LastChallenge::new(), message, 1, received(), "one"), Offer::Accepted);
    task
}

#[test]
fn round_of_a_task() {
    let miner = miner();
    let (phase, action) = Phase::Free.advance(Event::Rested, &miner, 30);
    assert!(matches!(action, Action::TakeTask));
    let (phase, action) = phase.advance(Event::Taken(task()), &miner, 30);
    match action {
        Action::ReadClock(since) => assert_eq!(since.epoch_secs(), Some(100)),
        other => panic!("{:?}", other),
    }
    let (phase, action) = phase.advance(Event::Elapsed(60), &miner, 30);
    assert!(matches!(phase, Phase::Timing(_)));
    assert!(matches!(action, Action::ReadClock(_)));
    let (phase, action) = phase.advance(Event::Elapsed(31), &miner, 30);
    match action {
        Action::Mine(challenge, nonces, cutoff) => {
            assert_eq!(challenge, [7; 32]);
            assert_eq!(nonces, 10..20);
            assert_eq!(cutoff, 29);
        }
        other => panic!("{:?}", other),
    }
    let hash = DrillHash { d: [9; 16], h: [8; 32] };
    let report = Report { nonce: 12, difficulty: 4, hash, hashes: 5, readings: vec![] };
    let (phase, action) = phase.advance(Event::Reports(vec![None, Some(report)]), &miner, 30);
    match action {
        Action::Send(best, message) => {
            assert_eq!((best.nonce, best.difficulty, best.hashes), (12, 4, 5));
            assert_eq!(message[0], 2);
            assert_eq!(&message[1..17], &[9; 16]);
            assert_eq!(&message[17..25], &[12, 0, 0, 0, 0, 0, 0, 0]);
            assert_eq!(&message[25..57], &[0; 32]);
        }
        other => panic!("{:?}", other),
    }
    match &phase {
        Phase::Reporting(task) => assert_eq!(task.sender, Some(1)),
        _ => panic!("not reporting"),
    }
    let (phase, action) = phase.advance(Event::Sent, &miner, 30);
    assert!(matches!(phase, Phase::Free));
    match action {
        Action::Finish(challenge, millis) => {
            assert_eq!(challenge, [7; 32]);
            assert_eq!(millis, 800);
        }
        other => panic!("{:?}", other),
    }
}

#[test]
fn rounds_without_a_task() {
    let miner = miner();
    let none: MineTask<u8> = MineTask::none_at(received());
    let (phase, action) = Phase::Free.advance(Event::Taken(none), &miner, 30);
    assert!(matches!(phase, Phase::Free));
    assert!(matches!(action, Action::Idle(1)));
    let (phase, _) = Phase::Free.advance(Event::Taken(task()), &miner, 30);
    let (phase, action) = phase.advance(Event::Elapsed(61), &miner, 30);
    assert!(matches!(phase, Phase::Free));
    assert!(matches!(action, Action::Expired(1)));
}

#[test]
fn events_that_cannot_come() {
    let timing = Phase::Timing(task());
    assert!(timing.accepts(&Event::Elapsed(60)));
    assert!(!timing.accepts(&Event::Elapsed(61)));
    assert!(!timing.accepts(&Event::Sent));
    let hash = DrillHash::zero();
    let half = Report { nonce: 1, difficulty: 1, hash, hashes: 1 << 63, readings: vec![] };
    let mining = Phase::Mining(task());
    assert!(mining.accepts(&Event::Reports(vec![Some(half.clone()), None])));
    assert!(!mining.accepts(&Event::Reports(vec![Some(half.clone()), None, Some(half)])));
    assert!(Phase::<u8>::Free.accepts(&Event::Rested));
    assert!(Phase::Checking(task()).accepts(&Event::Elapsed(u128::MAX)));
    assert!(Phase::Reporting(task()).accepts(&Event::Sent));
}

#[test]
fn board_of_a_beginner() {
    let board: Board<u8> = Board::new();
    assert!(board.task.is_idle());
    assert_eq!(board.task.challenge, [0; 32]);
    assert!(board.requested);
    assert!(board.last.is_repeated_by(&[0; 32]));
}

#[test]
fn request_and_last_challenge_over_a_round() {
    let board: Board<u8> = Board::new();
    let (mut requested, mut last) = (board.requested, board.last);
    let mut note = |action: Action| {
        action.note_request(&mut requested);
        action.note_last(&mut last);
        (requested, last.bytes)
    };
    assert_eq!(note(Action::TakeTask), (true, [0; 32]));
    assert_eq!(note(Action::ReadClock(received())), (true, [0; 32]));
    assert_eq!(note(Action::Mine([7; 32], 10..20, 5)), (false, [0; 32]));
    let best = pool_miner::search::best_of(&vec![]);
    assert_eq!(note(Action::Send(best, vec![])), (false, [0; 32]));
    assert_eq!(note(Action::Finish([7; 32], 800)), (true, [7; 32]));
    assert_eq!(note(Action::Expired(1)), (true, [7; 32]));
    assert_eq!(note(Action::Idle(1)), (true, [0; 32]));
}

#[test]
fn tasks_of_two_servers_go_back_to_their_senders() {
    let mut board: Board<u8> = Board::new();
    let start = |byte: u8| ServerMessage::StartMining([byte; 32], 10..20, 60);
    let mut senders = Vec::new();
    assert_eq!(board.task.offer(&board.last, start(1), 1, received(), "one"), Offer::Accepted);
    assert_eq!(board.task.offer(&board.last, start(1), 2, received(), "two"), Offer::Busy);
    senders.push(board.task.take().sender);
    senders.push(board.task.take().sender);
    assert_eq!(board.task.offer(&board.last, start(2), 2, received(), "two"), Offer::Accepted);
    assert_eq!(board.task.offer(&board.last, start(3), 1, received(), "one"), Offer::Busy);
    let (phase, _) = Phase::Free.advance(Event::Taken(board.task.take()), &miner(), 30);
    senders.push(phase.task().unwrap().sender);
    assert_eq!(senders, vec![Some(1), None, Some(2)]);
    assert!(Phase::<u8>::Free.task().is_none());
}
