use pool_miner::connect::{Retry, TimestampReply, UrlError, RETRY_SECS};
use pool_miner::link::{Link, LinkAction, LinkEvent};
use pool_miner::miner::Miner;
use pool_miner::ready::{ReadyAction, ReadyEvent};
use pool_miner::wire::{Frame, Reaction, ServerMessage};

fn miner() -> Miner {
    Miner::from_address("2gPihUTjt3FJqf1VpidgrY5cZ6PuyMccGVwQHRfjMPZG").unwrap()
}

fn step(link: Link, event: LinkEvent) -> (Link, LinkAction) {
    assert!(link.accepts(&event), "{:?} {:?}", link, event);
    link.advance(&event, &miner(), "pool.example:3000")
}

fn reply(body: &str) -> LinkEvent {
    LinkEvent::Reply(TimestampReply::Body(body.to_string()))
}

fn start_frame(challenge: u8) -> Frame {
    let mut bytes = vec![0u8];
    bytes.extend([challenge; 32]);
    bytes.extend(7u64.to_le_bytes());
    bytes.extend(10u64.to_le_bytes());
    bytes.extend(20u64.to_le_bytes());
    Frame::Binary(bytes)
}

#[test]
fn server_without_a_time_is_asked_again() {
    for (event, why) in [
        (LinkEvent::Reply(TimestampReply::Unreachable), Retry::Restarting),
        (LinkEvent::Reply(TimestampReply::NoBody), Retry::EmptyBody),
        (reply("soon"), Retry::BadTimestamp),
    ] {
        let (link, action) = step(Link::Asking, event);
        assert_eq!(link, Link::Waiting);
        match action {
            LinkAction::Retry(retry, secs) => assert_eq!((retry, secs), (why, 3)),
            other => panic!("{:?}", other),
        }
        let (link, action) = step(link, LinkEvent::Rested);
        assert_eq!(link, Link::Asking);
        assert!(matches!(action, LinkAction::AskTime));
    }
}

#[test]
fn refused_websocket_is_tried_again_with_a_new_time() {
    let (link, action) = step(Link::Asking, reply("17"));
    assert_eq!(link, Link::Opening);
    match action {
        LinkAction::Connect(timestamp, handshake) => {
            assert_eq!(timestamp, 17);
            assert_eq!(handshake.uri, "ws://pool.example:3000/?timestamp=17");
        }
        other => panic!("{:?}", other),
    }
    let (link, action) = step(link, LinkEvent::Refused);
    assert_eq!(link, Link::Waiting);
    assert!(matches!(action, LinkAction::Wait(RETRY_SECS)));
    let (link, action) = step(link, LinkEvent::Rested);
    assert!(matches!(action, LinkAction::AskTime));
    let (_, action) = step(link, reply("20"));
    match action {
        LinkAction::Connect(timestamp, handshake) => {
            assert_eq!(timestamp, 20);
            assert_eq!(handshake.uri, "ws://pool.example:3000/?timestamp=20");
        }
        other => panic!("{:?}", other),
    }
}

#[test]
fn frames_up_to_the_close_are_taken() {
    let (link, action) = step(Link::Opening, LinkEvent::Opened);
    assert_eq!(link, Link::Open);
    assert!(matches!(action, LinkAction::Read));
    let (link, action) = step(link, LinkEvent::Arrived(start_frame(4)));
    assert_eq!(link, Link::Open);
    match action {
        LinkAction::React(Reaction::Start(ServerMessage::StartMining(challenge, nonces, cutoff))) => {
            assert_eq!((challenge, nonces, cutoff), ([4; 32], 10..20, 7))
        }
        other => panic!("{:?}", other),
    }
    let (link, action) = step(link, LinkEvent::Arrived(Frame::Text("hello".to_string())));
    assert_eq!(link, Link::Open);
    assert!(matches!(action, LinkAction::React(Reaction::ShowText)));
    let (link, action) = step(link, LinkEvent::Arrived(Frame::Close));
    assert_eq!(link, Link::Closing);
    assert!(matches!(action, LinkAction::React(Reaction::ShowClose)));
    assert!(!link.accepts(&LinkEvent::Arrived(start_frame(5))));
    let (link, action) = step(link, LinkEvent::Drained);
    assert_eq!(link, Link::Waiting);
    assert!(matches!(action, LinkAction::Wait(0)));
    let (link, action) = step(link, LinkEvent::Rested);
    assert_eq!(link, Link::Asking);
    assert!(matches!(action, LinkAction::AskTime));
}

#[test]
fn lost_websocket_is_opened_again() {
    let (link, action) = step(Link::Open, LinkEvent::Lost);
    assert_eq!(link, Link::Closing);
    assert!(matches!(action, LinkAction::Drain));
    let (link, action) = step(link, LinkEvent::Drained);
    assert_eq!(link, Link::Waiting);
    assert!(matches!(action, LinkAction::Wait(0)));
}

#[test]
fn server_of_no_use_is_given_up() {
    let (link, action) = Link::Asking.advance(&reply("1"), &miner(), "a b");
    assert_eq!(link, Link::GivenUp);
    assert!(matches!(action, LinkAction::GiveUp(1, UrlError::Unparsable)));
    for event in [reply("1"), LinkEvent::Rested, LinkEvent::Opened, LinkEvent::Drained] {
        assert!(!link.accepts(&event));
    }
}

#[test]
fn events_out_of_turn_are_not_accepted() {
    assert!(!Link::Asking.accepts(&LinkEvent::Rested));
    assert!(!Link::Waiting.accepts(&reply("1")));
    assert!(!Link::Opening.accepts(&LinkEvent::Lost));
    assert!(!Link::Open.accepts(&LinkEvent::Drained));
    assert!(!Link::Open.accepts(&LinkEvent::Arrived(Frame::Binary(vec![]))));
    assert!(!Link::Open.accepts(&LinkEvent::Arrived(Frame::Binary(vec![0; 50]))));
    assert!(Link::Open.accepts(&LinkEvent::Arrived(Frame::Binary(vec![0; 48]))));
}

#[test]
fn ready_messages_are_sent_while_tasks_are_wanted() {
    assert_eq!(ReadyAction::next(ReadyEvent::Wanted(false)), ReadyAction::See);
    assert_eq!(ReadyAction::next(ReadyEvent::Wanted(true)), ReadyAction::Send);
    assert_eq!(ReadyAction::next(ReadyEvent::Sent(true)), ReadyAction::Rest(500));
    assert_eq!(ReadyAction::next(ReadyEvent::Sent(false)), ReadyAction::Rest(500));
    assert_eq!(ReadyAction::next(ReadyEvent::Rested), ReadyAction::See);
}
