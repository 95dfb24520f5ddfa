//! The ready loop of a connection: a server is asked for tasks as long as they are wanted.

use crate::task::{ready_due, READY_MILLIS};
use vstd::prelude::*;

verus! {

/// What happened last.
#[derive(Clone, Copy, Debug, PartialEq, Eq, Structural)]
pub enum ReadyEvent {
    /// Whether tasks are wanted, as was just read.
    Wanted(bool),
    /// The ready message was sent, or could not be.
    Sent(bool),
    /// The wait is over.
    Rested,
}

/// What is to be done next.
#[derive(Clone, Copy, Debug, PartialEq, Eq, Structural)]
pub enum ReadyAction {
    /// See whether tasks are wanted.
    See,
    /// Send a ready message.
    Send,
    /// Wait so many milliseconds.
    Rest(u64),
}

impl ReadyAction {
    /// The events that can come of an action.
    pub open spec fn awaits(self, event: ReadyEvent) -> bool {
        match self {
            ReadyAction::See => event is Wanted,
            ReadyAction::Send => event is Sent,
            ReadyAction::Rest(_) => event is Rested,
        }
    }

    /// The action that is due after `event`.
    pub open spec fn after(event: ReadyEvent) -> ReadyAction {
        match event {
            ReadyEvent::Wanted(wanted) => if wanted {
                ReadyAction::Send
            } else {
                ReadyAction::See
            },
            ReadyEvent::Sent(_) => ReadyAction::Rest(READY_MILLIS),
            ReadyEvent::Rested => ReadyAction::See,
        }
    }

    /// Decides what to do after `event`. Whether a ready message could be sent makes no difference.
    pub fn next(event: ReadyEvent) -> (action: ReadyAction)
        ensures
            action == ReadyAction::after(event),
    {
        match event {
            ReadyEvent::Wanted(wanted) => match ready_due(wanted) {
                Some(_) => ReadyAction::Send,
                None => ReadyAction::See,
            },
            ReadyEvent::Sent(_) => ReadyAction::Rest(READY_MILLIS),
            ReadyEvent::Rested => ReadyAction::See,
        }
    }
}

/// An event of a ready loop, and the millisecond at which the loop learns of it.
pub struct Heard {
    pub event: ReadyEvent,
    pub at: int,
}

/// The action that is due after the first `i` events.
pub open spec fn ready_action(run: Seq<Heard>, i: int) -> ReadyAction {
    if i <= 0 {
        ReadyAction::See
    } else {
        ReadyAction::after(run[i - 1].event)
    }
}

/// Whether event `i` can follow on those before: it is one that can come of the action that is due,
/// and a wait is over no sooner than it was to be.
pub open spec fn is_ready_step(run: Seq<Heard>, i: int) -> bool {
    &&& ready_action(run, i).awaits(run[i].event)
    &&& ready_action(run, i) matches ReadyAction::Rest(millis) ==> run[i].at >= run[i - 1].at
        + millis
}

/// Whether a ready loop can run like this. No event comes before an earlier one.
pub open spec fn is_ready_run(run: Seq<Heard>) -> bool {
    &&& forall|i: int| 0 <= i < run.len() ==> #[trigger] is_ready_step(run, i)
    &&& forall|i: int, j: int|
        0 <= i <= j < run.len() ==> (#[trigger] run[i]).at <= (#[trigger] run[j]).at
}

/// Whether a ready message is sent after event `i`: it goes out between that event and the next.
pub open spec fn sends_at(run: Seq<Heard>, i: int) -> bool {
    &&& 0 <= i < run.len()
    &&& ready_action(run, i + 1) == ReadyAction::Send
}

/// A ready message is sent just when tasks have been seen to be wanted, and once for each such
/// time: what became of a message is learned only right after that.
pub proof fn lemma_ready_only_when_wanted(run: Seq<Heard>, i: int)
    requires
        is_ready_run(run),
        0 <= i < run.len(),
    ensures
        sends_at(run, i) <==> run[i].event == ReadyEvent::Wanted(true),
        run[i].event is Sent <==> sends_at(run, i - 1),
{
    assert(is_ready_step(run, i));
}

/// While tasks are seen not to be wanted, no ready message is sent.
pub proof fn lemma_no_ready_while_unwanted(run: Seq<Heard>)
    requires
        is_ready_run(run),
        forall|i: int|
            0 <= i < run.len() ==> (#[trigger] run[i]).event != ReadyEvent::Wanted(true),
    ensures
        forall|i: int| 0 <= i < run.len() ==> !#[trigger] sends_at(run, i),
        forall|i: int| 0 <= i < run.len() ==> (#[trigger] run[i]).event == ReadyEvent::Wanted(false),
{
    assert forall|i: int| 0 <= i < run.len() implies (#[trigger] run[i]).event
        == ReadyEvent::Wanted(false) by {
        lemma_only_looks(run, i);
    }
}

/// An event of a run in which tasks are never wanted is that they are not.
proof fn lemma_only_looks(run: Seq<Heard>, i: int)
    requires
        is_ready_run(run),
        forall|j: int|
            0 <= j < run.len() ==> (#[trigger] run[j]).event != ReadyEvent::Wanted(true),
        0 <= i < run.len(),
    ensures
        run[i].event == ReadyEvent::Wanted(false),
    decreases i,
{
    assert(is_ready_step(run, i));
    if i > 0 {
        lemma_only_looks(run, i - 1);
    }
}

/// Two ready messages of one connection are sent at least `READY_MILLIS` apart: the second goes out
/// that long after the loop has learned what became of the first, or later. It goes out only after
/// tasks have been seen to be wanted again.
pub proof fn lemma_ready_messages_apart(run: Seq<Heard>, i: int, j: int)
    requires
        is_ready_run(run),
        i < j,
        sends_at(run, i),
        sends_at(run, j),
    ensures
        i + 2 < j,
        run[i + 1].event is Sent,
        run[i].at <= run[i + 1].at,
        run[i + 1].at + READY_MILLIS <= run[j].at,
        run[j].event == ReadyEvent::Wanted(true),
{
    assert(is_ready_step(run, i + 1));
    assert(j != i + 1);
    assert(is_ready_step(run, i + 2));
    assert(j != i + 2);
    assert(run[i + 2].at <= run[j].at);
    assert(is_ready_step(run, j));
}

/// A ready message that could not be sent is passed over: the loop goes on as it does after one
/// that was sent.
pub proof fn lemma_failed_ready_is_ignored()
    ensures
        ReadyAction::after(ReadyEvent::Sent(false)) == ReadyAction::after(ReadyEvent::Sent(true)),
{
}

/// After tasks have been seen to be wanted, a ready message is sent; after that, half a second is
/// waited; and otherwise it is seen again whether tasks are wanted.
pub proof fn lemma_steps_of_the_ready_loop(event: ReadyEvent, action: ReadyAction)
    requires
        call_ensures(ReadyAction::next, (event,), action),
    ensures
        action == ReadyAction::Send <==> event == ReadyEvent::Wanted(true),
        event is Sent <==> action is Rest,
        event is Sent ==> action == ReadyAction::Rest(500),
        action == ReadyAction::See <==> event is Rested || event == ReadyEvent::Wanted(false),
        action == ReadyAction::after(event),
{
}

} // verus!
