use pool_miner::clock::Moment;
use pool_miner::task::{ready_due, LastChallenge, MineTask, Offer};
use pool_miner::wire::ServerMessage;

fn at(secs: u64) -> Moment {
    Moment { before_epoch: false, secs, nanos: 0 }
}

fn start(byte: u8) -> ServerMessage {
    ServerMessage::StartMining([byte; 32], 10..20, 60)
}

#[test]
fn new_task_is_none() {
    let task: MineTask<u8> = MineTask::new();
    assert_eq!(task.challenge, [0; 32]);
    assert_eq!(task.nonce_range, 0..0);
    assert_eq!(task.cutoff, 0);
    assert_eq!(task.sender, None);
    assert_eq!(task.url, "");
    assert!(task.is_idle());
    assert!(task.receive_time.epoch_secs().unwrap() > 1_500_000_000);
    assert!(task.receive_time.nanos < 1_000_000_000);
}

#[test]
fn offered_task_is_taken_up() {
    let mut task: MineTask<u8> = MineTask::none_at(at(1));
    let mut last = LastChallenge::new();
    assert_eq!(task.offer(&last, start(7), 1, at(5), "one"), Offer::Accepted);
    assert_eq!(task.offer(&last, start(8), 2, at(6), "two"), Offer::Busy);
    let copy = task.clone();
    let taken = task.take();
    for t in [&copy, &taken] {
        assert_eq!(t.challenge, [7; 32]);
        assert_eq!(t.nonce_range, 10..20);
        assert_eq!(t.cutoff, 60);
        assert_eq!(t.sender, Some(1));
        assert_eq!(t.receive_time.epoch_secs(), Some(5));
        assert_eq!(t.url, "one");
    }
    assert!(task.is_idle());
    assert_eq!(task.challenge, [7; 32]);
    assert!(task.take().is_idle());
    last.remember(taken.challenge);
    assert_eq!(task.offer(&last, start(7), 3, at(7), "one"), Offer::Duplicate);
    assert!(task.is_idle());
    assert_eq!(task.offer(&last, start(8), 3, at(7), "two"), Offer::Accepted);
    assert_eq!(task.url, "two");
    assert_eq!(task.offer(&last, start(7), 4, at(8), "one"), Offer::Duplicate);
    assert_eq!(task.sender, Some(3));
}

#[test]
fn zeros_are_refused_until_something_is_remembered() {
    let mut task: MineTask<u8> = MineTask::none_at(at(1));
    let mut last = LastChallenge::new();
    assert_eq!(task.offer(&last, start(0), 1, at(5), ""), Offer::Duplicate);
    last.remember([9; 32]);
    assert!(last.is_repeated_by(&[9; 32]));
    assert!(!last.is_repeated_by(&[0; 32]));
    let mut near = [9; 32];
    near[31] = 8;
    assert!(!last.is_repeated_by(&near));
    last.forget();
    assert!(last.is_repeated_by(&[0; 32]));
}

#[test]
fn expiry_and_time_for_a_round() {
    let mut task: MineTask<u8> = MineTask::none_at(at(1));
    task.cutoff = 60;
    assert!(!task.is_expired(0));
    assert!(!task.is_expired(60));
    assert!(task.is_expired(61));
    assert_eq!(task.round_cutoff(0, 30), 30);
    assert_eq!(task.round_cutoff(30, 30), 30);
    assert_eq!(task.round_cutoff(31, 30), 29);
    assert_eq!(task.round_cutoff(60, 30), 0);
    task.cutoff = u64::MAX;
    assert_eq!(task.round_cutoff(0, u32::MAX), u32::MAX as u64);
}

#[test]
fn seconds_between_moments() {
    let a = Moment { before_epoch: false, secs: 10, nanos: 900_000_000 };
    let b = Moment { before_epoch: false, secs: 12, nanos: 800_000_000 };
    let c = Moment { before_epoch: true, secs: 1, nanos: 100_000_000 };
    assert_eq!(b.secs_since(&a), Some(1));
    assert_eq!(a.secs_since(&a), Some(0));
    assert_eq!(a.secs_since(&b), None);
    assert_eq!(a.secs_since(&c), Some(12));
    assert_eq!(c.secs_since(&a), None);
    assert_eq!(a.epoch_secs(), Some(10));
    assert_eq!(c.epoch_secs(), None);
    let far = Moment { before_epoch: false, secs: u64::MAX, nanos: 0 };
    let long_ago = Moment { before_epoch: true, secs: u64::MAX, nanos: 0 };
    assert_eq!(far.secs_since(&long_ago), Some(2 * (u64::MAX as u128)));
    assert_eq!(far.epoch_secs(), Some(u64::MAX));
    let beyond = Moment { before_epoch: false, secs: u64::MAX, nanos: 1_000_000_000 };
    assert_eq!(beyond.epoch_secs(), None);
}

#[test]
fn the_present_moment() {
    let before = std::time::SystemTime::now()
        .duration_since(std::time::UNIX_EPOCH)
        .unwrap()
        .as_secs();
    let now = Moment::now();
    assert!(!now.before_epoch);
    assert!(now.secs >= before && now.secs <= before + 20);
}

#[test]
fn seconds_since_receipt() {
    let task: MineTask<u8> = MineTask::none_at(at(100));
    assert_eq!(task.elapsed(&at(100)), Some(0));
    assert_eq!(task.elapsed(&at(161)), Some(61));
    assert_eq!(task.elapsed(&at(99)), None);
}

#[test]
fn ready_messages_are_due_while_tasks_are_asked_for() {
    assert_eq!(ready_due(true), Some(500));
    assert_eq!(ready_due(false), None);
}
