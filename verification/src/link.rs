//! The course of a connection to one server: it is asked for its time, a websocket is opened, its
//! frames are read, and when the websocket is gone the server is asked again.

use crate::connect::{
    dial, handshake_request, is_request_for, is_websocket_key, lemma_addresses_of_a_server,
    lemma_request_names_the_miner, redial_after, timestamp_of, url_parts, websocket_address, Dial,
    Handshake, Retry, TimestampReply, UrlError, RETRY_SECS,
};
use crate::miner::{base64_text, basic_authorization, Miner};
use crate::text::{decimal, parsed_u64};
use crate::wire::{
    is_readable, lemma_start_fields, process_message, reacts, readable, start_of, Frame, Reaction,
    Start, START_MIN_LEN, START_TYPE,
};
use std::ops::ControlFlow;
use vstd::prelude::*;
use vstd::utf8::encode_utf8;

verus! {

/// How far a connection has come.
#[derive(Clone, Copy, Debug, PartialEq, Eq, Structural)]
pub enum Link {
    /// The server is being asked for its time.
    Asking,
    /// It is to be asked again after a wait.
    Waiting,
    /// A websocket is being opened.
    Opening,
    /// The websocket is open.
    Open,
    /// The websocket is gone; some tasks that it brought may still have to be offered.
    Closing,
    /// The address of the server is of no use.
    GivenUp,
}

/// What happened last.
#[derive(Debug)]
pub enum LinkEvent {
    /// What came of asking for the time.
    Reply(TimestampReply),
    /// The wait is over.
    Rested,
    /// The websocket could not be opened.
    Refused,
    /// The websocket is open.
    Opened,
    /// A frame came.
    Arrived(Frame),
    /// Reading failed or broke off, or there is no more to read.
    Lost,
    /// All tasks that the websocket brought have been offered.
    Drained,
}

/// What is to be done next.
#[derive(Debug)]
pub enum LinkAction {
    /// Ask the server for its time.
    AskTime,
    /// Say why the server is tried again, and wait so many seconds.
    Retry(Retry, u64),
    /// Wait so many seconds.
    Wait(u64),
    /// The server gave this time: open a websocket.
    Connect(u64, Handshake),
    /// The server gave this time, but its address is of no use: give up.
    GiveUp(u64, UrlError),
    /// Read the next frame.
    Read,
    /// Do this about the frame, and read the next one as long as the websocket is open.
    React(Reaction),
    /// Offer the tasks that are left.
    Drain,
}

impl Link {
    /// The events that can come.
    pub open spec fn awaits(self, event: LinkEvent) -> bool {
        match (self, event) {
            (Link::Asking, LinkEvent::Reply(_)) => true,
            (Link::Waiting, LinkEvent::Rested) => true,
            (Link::Opening, LinkEvent::Refused) => true,
            (Link::Opening, LinkEvent::Opened) => true,
            (Link::Open, LinkEvent::Arrived(frame)) => readable(frame),
            (Link::Open, LinkEvent::Lost) => true,
            (Link::Closing, LinkEvent::Drained) => true,
            _ => false,
        }
    }

    /// How far the connection to `server` has come after `event`.
    pub open spec fn after(self, event: LinkEvent, server: Seq<char>) -> Link {
        match event {
            LinkEvent::Reply(reply) => match timestamp_of(reply) {
                Err(_) => Link::Waiting,
                Ok(timestamp) => match url_parts(websocket_address(server, timestamp)) {
                    Some((_, Some(_))) => Link::Opening,
                    _ => Link::GivenUp,
                },
            },
            LinkEvent::Rested => Link::Asking,
            LinkEvent::Refused => Link::Waiting,
            LinkEvent::Opened => Link::Open,
            LinkEvent::Arrived(frame) => if frame is Close {
                Link::Closing
            } else {
                Link::Open
            },
            LinkEvent::Lost => Link::Closing,
            LinkEvent::Drained => Link::Waiting,
        }
    }

    /// Whether `action` is what `event` calls for, for the miner with this address.
    pub open spec fn calls_for(
        self,
        event: LinkEvent,
        server: Seq<char>,
        address: Seq<char>,
        action: LinkAction,
    ) -> bool {
        match event {
            LinkEvent::Reply(reply) => match timestamp_of(reply) {
                Err(retry) => action == LinkAction::Retry(retry, RETRY_SECS),
                Ok(timestamp) => match url_parts(websocket_address(server, timestamp)) {
                    Some((uri, Some(host))) => action matches LinkAction::Connect(given, handshake)
                        && given == timestamp && is_request_for(uri, host, address, handshake@),
                    Some((_, None)) => action == LinkAction::GiveUp(timestamp, UrlError::NoHost),
                    None => action == LinkAction::GiveUp(timestamp, UrlError::Unparsable),
                },
            },
            LinkEvent::Rested => action == LinkAction::AskTime,
            LinkEvent::Refused => action == LinkAction::Wait(RETRY_SECS),
            LinkEvent::Opened => action == LinkAction::Read,
            LinkEvent::Arrived(frame) => action matches LinkAction::React(reaction) && reacts(
                frame,
                reaction,
            ),
            LinkEvent::Lost => action == LinkAction::Drain,
            LinkEvent::Drained => action == LinkAction::Wait(0),
        }
    }

    /// Tells whether `event` can come.
    pub fn accepts(&self, event: &LinkEvent) -> (r: bool)
        ensures
            r == self.awaits(*event),
    {
        match (self, event) {
            (Link::Asking, LinkEvent::Reply(_)) => true,
            (Link::Waiting, LinkEvent::Rested) => true,
            (Link::Opening, LinkEvent::Refused) => true,
            (Link::Opening, LinkEvent::Opened) => true,
            (Link::Open, LinkEvent::Arrived(frame)) => is_readable(frame),
            (Link::Open, LinkEvent::Lost) => true,
            (Link::Closing, LinkEvent::Drained) => true,
            _ => false,
        }
    }

    /// Goes on with the connection of `miner` to `server` after `event`.
    pub fn advance(self, event: &LinkEvent, miner: &Miner, server: &str) -> (r: (Link, LinkAction))
        requires
            self.awaits(*event),
        ensures
            r.0 == self.after(*event, server@),
            self.calls_for(*event, server@, miner.address(), r.1),
    {
        match event {
            LinkEvent::Reply(reply) => match dial(miner, server, reply) {
                Dial::Wait(retry) => (Link::Waiting, LinkAction::Retry(retry, RETRY_SECS)),
                Dial::Connect(timestamp, handshake) => (
                    Link::Opening,
                    LinkAction::Connect(timestamp, handshake),
                ),
                Dial::GiveUp(timestamp, error) => (
                    Link::GivenUp,
                    LinkAction::GiveUp(timestamp, error),
                ),
            },
            LinkEvent::Rested => (Link::Asking, LinkAction::AskTime),
            LinkEvent::Refused => (Link::Waiting, LinkAction::Wait(redial_after(true))),
            LinkEvent::Opened => (Link::Open, LinkAction::Read),
            LinkEvent::Arrived(frame) => {
                let (reaction, flow) = process_message(frame);
                match flow {
                    ControlFlow::Break(_) => (Link::Closing, LinkAction::React(reaction)),
                    ControlFlow::Continue(_) => (Link::Open, LinkAction::React(reaction)),
                }
            },
            LinkEvent::Lost => (Link::Closing, LinkAction::Drain),
            LinkEvent::Drained => (Link::Waiting, LinkAction::Wait(redial_after(false))),
        }
    }
}

/// An event of a connection and the action that it called for, with the tasks that were offered
/// between the event before and this one.
pub struct LinkStep {
    pub offered: Seq<Start>,
    pub event: LinkEvent,
    pub action: LinkAction,
}

/// How far the connection has come after the first `i` steps.
pub open spec fn link_at(run: Seq<LinkStep>, server: Seq<char>, i: int) -> Link
    decreases i,
{
    if i <= 0 {
        Link::Asking
    } else {
        link_at(run, server, i - 1).after(run[i - 1].event, server)
    }
}

/// The task that an event brings, if it is a frame with a start message.
pub open spec fn brought_by(event: LinkEvent) -> Seq<Start> {
    match event {
        LinkEvent::Arrived(Frame::Binary(b)) => if b@[0] == START_TYPE && b@.len()
            >= START_MIN_LEN {
            seq![start_of(b@)]
        } else {
            Seq::empty()
        },
        _ => Seq::empty(),
    }
}

/// The task that an action hands on, to be offered.
pub open spec fn handed_on_by(action: LinkAction) -> Seq<Start> {
    match action {
        LinkAction::React(Reaction::Start(message)) => seq![message@],
        _ => Seq::empty(),
    }
}

/// The tasks that the events of the first `i` steps bring, in their order.
pub open spec fn brought(run: Seq<LinkStep>, i: int) -> Seq<Start>
    decreases i,
{
    if i <= 0 {
        Seq::empty()
    } else {
        brought(run, i - 1) + brought_by(run[i - 1].event)
    }
}

/// The tasks that are offered in the first `i` steps, in their order.
pub open spec fn offered(run: Seq<LinkStep>, i: int) -> Seq<Start>
    decreases i,
{
    if i <= 0 {
        Seq::empty()
    } else {
        offered(run, i - 1) + run[i - 1].offered
    }
}

/// The tasks that have been handed on in the first `i` steps and not been offered yet: a task is
/// offered before those that were handed on after it.
pub open spec fn pending(run: Seq<LinkStep>, i: int) -> Seq<Start>
    decreases i,
{
    if i <= 0 {
        Seq::empty()
    } else {
        pending(run, i - 1).skip(run[i - 1].offered.len() as int) + handed_on_by(run[i - 1].action)
    }
}

/// Whether step `i` can follow on the steps before: its event can come, its action is what the event
/// calls for, and the tasks that are offered are the next of those that are pending; at the event
/// that ends the offering they are all of those.
pub open spec fn is_link_step(
    run: Seq<LinkStep>,
    server: Seq<char>,
    address: Seq<char>,
    i: int,
) -> bool {
    &&& link_at(run, server, i).awaits(run[i].event)
    &&& link_at(run, server, i).calls_for(run[i].event, server, address, run[i].action)
    &&& run[i].offered.len() <= pending(run, i).len()
    &&& run[i].offered == pending(run, i).take(run[i].offered.len() as int)
    &&& run[i].event is Drained ==> run[i].offered == pending(run, i)
}

/// Whether a connection can run like this, from the first time that the server is asked.
pub open spec fn is_link_run(run: Seq<LinkStep>, server: Seq<char>, address: Seq<char>) -> bool {
    forall|i: int| 0 <= i < run.len() ==> #[trigger] is_link_step(run, server, address, i)
}

/// A websocket is opened to the one server only, and each time with a time that the server has just
/// been asked for.
pub proof fn lemma_each_connection_asks_anew(
    run: Seq<LinkStep>,
    server: Seq<char>,
    address: Seq<char>,
    i: int,
)
    requires
        is_link_run(run, server, address),
        0 <= i < run.len(),
        run[i].action is Connect,
    ensures
        run[i].event matches LinkEvent::Reply(reply) && timestamp_of(reply) == Ok::<u64, Retry>(
            run[i].action->Connect_0,
        ),
        url_parts(websocket_address(server, run[i].action->Connect_0)) matches Some(
            (uri, Some(host)),
        ) && is_request_for(uri, host, address, run[i].action->Connect_1@),
        i > 0 ==> run[i - 1].action == LinkAction::AskTime,
{
    assert(is_link_step(run, server, address, i));
    if i > 0 {
        assert(is_link_step(run, server, address, i - 1));
    }
}

/// After a websocket that could not be opened, the server is asked for its time again
/// `RETRY_SECS` seconds later; no task is offered meanwhile.
pub proof fn lemma_refused_is_tried_again(
    run: Seq<LinkStep>,
    server: Seq<char>,
    address: Seq<char>,
    i: int,
)
    requires
        is_link_run(run, server, address),
        0 <= i < run.len(),
        run[i].event is Refused,
    ensures
        run[i].action == LinkAction::Wait(RETRY_SECS),
        run[i].offered == Seq::<Start>::empty(),
        i + 1 < run.len() ==> {
            &&& run[i + 1].event is Rested
            &&& run[i + 1].action == LinkAction::AskTime
            &&& run[i + 1].offered == Seq::<Start>::empty()
        },
        i + 2 < run.len() ==> run[i + 2].event is Reply && run[i + 2].offered
            == Seq::<Start>::empty(),
{
    lemma_tasks_in_order(run, server, address, i);
    assert(is_link_step(run, server, address, i));
    if i + 1 < run.len() {
        lemma_tasks_in_order(run, server, address, i + 1);
        assert(is_link_step(run, server, address, i + 1));
        assert(link_at(run, server, i + 1) == Link::Waiting);
    }
    if i + 2 < run.len() {
        lemma_tasks_in_order(run, server, address, i + 2);
        assert(is_link_step(run, server, address, i + 2));
        assert(link_at(run, server, i + 2) == Link::Asking);
    }
}

/// Once a close frame has come, or reading has failed or ended, no frame of the connection is taken
/// any more, but all tasks that it brought are offered; then the server is asked for its time again,
/// without a wait.
pub proof fn lemma_ended_is_opened_again(
    run: Seq<LinkStep>,
    server: Seq<char>,
    address: Seq<char>,
    i: int,
)
    requires
        is_link_run(run, server, address),
        0 <= i < run.len(),
        run[i].event is Lost || run[i].event == LinkEvent::Arrived(Frame::Close),
    ensures
        i + 1 < run.len() ==> {
            &&& run[i + 1].event is Drained
            &&& run[i + 1].action == LinkAction::Wait(0)
            &&& offered(run, i + 2) == brought(run, i + 1)
        },
        i + 2 < run.len() ==> run[i + 2].event is Rested && run[i + 2].action
            == LinkAction::AskTime,
        i + 3 < run.len() ==> run[i + 3].event is Reply,
{
    assert(is_link_step(run, server, address, i));
    if i + 1 < run.len() {
        assert(is_link_step(run, server, address, i + 1));
        assert(link_at(run, server, i + 1) == Link::Closing);
        lemma_tasks_in_order(run, server, address, i + 1);
        assert(offered(run, i + 2) == offered(run, i + 1) + pending(run, i + 1));
    }
    if i + 2 < run.len() {
        assert(is_link_step(run, server, address, i + 2));
        assert(link_at(run, server, i + 2) == Link::Waiting);
    }
    if i + 3 < run.len() {
        assert(is_link_step(run, server, address, i + 3));
        assert(link_at(run, server, i + 3) == Link::Asking);
    }
}

/// A connection ends only where the server gave a time with which its address is of no use; until
/// then there is always a next action.
pub proof fn lemma_connection_goes_on(
    run: Seq<LinkStep>,
    server: Seq<char>,
    address: Seq<char>,
    i: int,
)
    requires
        is_link_run(run, server, address),
        0 <= i < run.len(),
    ensures
        link_at(run, server, i) != Link::GivenUp,
        link_at(run, server, i + 1) == Link::GivenUp <==> run[i].action is GiveUp,
        run[i].action matches LinkAction::GiveUp(timestamp, _) ==> {
            &&& run[i].event matches LinkEvent::Reply(reply) && timestamp_of(reply) == Ok::<
                u64,
                Retry,
            >(timestamp)
            &&& !(url_parts(websocket_address(server, timestamp)) matches Some((_, Some(_))))
        },
{
    assert(is_link_step(run, server, address, i));
    assert(link_at(run, server, i + 1) == link_at(run, server, i).after(run[i].event, server));
}

/// The tasks that are offered are those that the frames bring, each once and in their order. Unless
/// a websocket is open or has just gone, none is left to be offered.
pub proof fn lemma_tasks_in_order(
    run: Seq<LinkStep>,
    server: Seq<char>,
    address: Seq<char>,
    i: int,
)
    requires
        is_link_run(run, server, address),
        0 <= i <= run.len(),
    ensures
        offered(run, i) + pending(run, i) == brought(run, i),
        link_at(run, server, i) == Link::Open || link_at(run, server, i) == Link::Closing
            || pending(run, i) == Seq::<Start>::empty(),
    decreases i,
{
    if i > 0 {
        lemma_tasks_in_order(run, server, address, i - 1);
        let step = run[i - 1];
        assert(is_link_step(run, server, address, i - 1));
        let before = pending(run, i - 1);
        assert(before =~= step.offered + before.skip(step.offered.len() as int));
        assert(handed_on_by(step.action) =~= brought_by(step.event));
        assert(offered(run, i) + pending(run, i) =~= offered(run, i - 1) + before + brought_by(
            step.event,
        ));
    } else {
        assert(offered(run, i) + pending(run, i) =~= brought(run, i));
    }
}

/// Each step of a connection, from the event alone. A reply without a time is waited for three
/// seconds; a reply with one opens a websocket to the server with that time, or the address of the
/// server is given up. A refused websocket is waited for three seconds, one that has ended is not
/// waited for; after a wait the server is asked again.
pub proof fn lemma_steps_of_a_connection(
    link: Link,
    event: &LinkEvent,
    miner: &Miner,
    server: &str,
    r: (Link, LinkAction),
)
    requires
        call_ensures(Link::advance, (link, event, miner, server), r),
    ensures
        event matches LinkEvent::Reply(TimestampReply::Unreachable) ==> r.0 == Link::Waiting && r.1
            == LinkAction::Retry(Retry::Restarting, 3),
        event matches LinkEvent::Reply(TimestampReply::NoBody) ==> r.0 == Link::Waiting && r.1
            == LinkAction::Retry(Retry::EmptyBody, 3),
        event matches LinkEvent::Reply(TimestampReply::Body(body)) ==> match parsed_u64(body@) {
            None => r.0 == Link::Waiting && r.1 == LinkAction::Retry(Retry::BadTimestamp, 3),
            Some(timestamp) => match url_parts(
                "ws://"@ + server@ + (if server@.len() == 0 || server@.last() == '/' {
                    Seq::empty()
                } else {
                    seq!['/']
                }) + "?timestamp="@ + decimal(timestamp as nat),
            ) {
                None => r.0 == Link::GivenUp && r.1 == LinkAction::GiveUp(
                    timestamp,
                    UrlError::Unparsable,
                ),
                Some((_, None)) => r.0 == Link::GivenUp && r.1 == LinkAction::GiveUp(
                    timestamp,
                    UrlError::NoHost,
                ),
                Some((uri, Some(host))) => r.0 == Link::Opening && (
                r.1 matches LinkAction::Connect(given, handshake) && {
                    &&& given == timestamp
                    &&& handshake@.method == "GET"@
                    &&& handshake@.uri == uri
                    &&& handshake@.headers.len() == 6
                    &&& handshake@.headers[0].0 == "Sec-Websocket-Key"@
                    &&& handshake@.headers[1] == ("Host"@, host)
                    &&& handshake@.headers[2] == ("Upgrade"@, "websocket"@)
                    &&& handshake@.headers[3] == ("Connection"@, "upgrade"@)
                    &&& handshake@.headers[4] == ("Sec-Websocket-Version"@, "13"@)
                    &&& handshake@.headers[5] == (
                        "Authorization"@,
                        "Basic "@ + base64_text(encode_utf8(miner.address() + ":"@)),
                    )
                }),
            },
        },
        event is Rested ==> r.0 == Link::Asking && r.1 == LinkAction::AskTime,
        event is Refused ==> r.0 == Link::Waiting && r.1 == LinkAction::Wait(3),
        event is Opened ==> r.0 == Link::Open && r.1 == LinkAction::Read,
        event matches LinkEvent::Arrived(frame) ==> {
            &&& r.0 == (if frame is Close {
                Link::Closing
            } else {
                Link::Open
            })
            &&& r.1 matches LinkAction::React(reaction) && reacts(*frame, reaction)
            &&& handed_on_by(r.1) == brought_by(*event)
        },
        event is Lost ==> r.0 == Link::Closing && r.1 == LinkAction::Drain,
        event is Drained ==> r.0 == Link::Waiting && r.1 == LinkAction::Wait(0),
{
    if let LinkEvent::Reply(TimestampReply::Body(body)) = event {
        if let Some(timestamp) = parsed_u64(body@) {
            lemma_addresses_of_a_server(server@, timestamp);
            if let LinkAction::Connect(_, handshake) = r.1 {
                let parts = url_parts(websocket_address(server@, timestamp));
                let found = parts->0;
                let (uri, host) = (found.0, found.1->0);
                let authorization = basic_authorization(miner.address());
                let key = choose|key: Seq<char>| #[trigger]
                    is_websocket_key(key) && handshake@ == handshake_request(
                        uri,
                        host,
                        authorization,
                        key,
                    );
                lemma_request_names_the_miner(uri, host, authorization, key);
            }
        }
    }
}

/// The events that a connection waits for, at each point.
pub proof fn lemma_events_of_a_connection(link: &Link, event: &LinkEvent, r: bool)
    requires
        call_ensures(Link::accepts, (link, event), r),
    ensures
        r == link.awaits(*event),
        *link == Link::Asking ==> (r <==> event is Reply),
        *link == Link::Waiting ==> (r <==> event is Rested),
        *link == Link::Opening ==> (r <==> event is Refused || event is Opened),
        *link == Link::Open ==> (r <==> event is Lost || (event matches LinkEvent::Arrived(frame)
            && !(frame matches Frame::Binary(b) && (b@.len() == 0 || b@[0] == 0 && 49 <= b@.len()
            < 57)))),
        *link == Link::Closing ==> (r <==> event is Drained),
        *link == Link::GivenUp ==> !r,
{
}

/// A frame brings a task just if it is binary, begins with a zero and is 49 bytes long or longer;
/// what the task is can be told from its bytes.
pub proof fn lemma_tasks_that_frames_bring(event: LinkEvent)
    ensures
        brought_by(event).len() <= 1,
        brought_by(event).len() == 1 <==> (event matches LinkEvent::Arrived(Frame::Binary(b))
            && b@[0] == 0 && b@.len() >= 49),
        event matches LinkEvent::Arrived(Frame::Binary(b)) ==> (b@[0] == 0 && b@.len() >= 57 ==> {
            let start = brought_by(event)[0];
            &&& forall|i: int| 1 <= i < 33 ==> #[trigger] b@[i] == start.challenge[i - 1]
            &&& forall|i: int|
                33 <= i < 41 ==> #[trigger] b@[i] == (start.cutoff >> (8 * (i - 33)) as u64) & 0xff
            &&& forall|i: int|
                41 <= i < 49 ==> #[trigger] b@[i] == (start.first_nonce >> (8 * (i - 41)) as u64)
                    & 0xff
            &&& forall|i: int|
                49 <= i < 57 ==> #[trigger] b@[i] == (start.end_nonce >> (8 * (i - 49)) as u64)
                    & 0xff
        }),
{
    if let LinkEvent::Arrived(Frame::Binary(b)) = event {
        if b@.len() >= 57 {
            lemma_start_fields(b@);
        }
    }
}

} // verus!
