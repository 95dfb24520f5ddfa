//! What all connections and the mining loop share: one task, one request for tasks and one last
//! challenge.

use crate::clock::{Moment, NANOS_PER_SEC};
use crate::round::{Action, Event, Phase};
use crate::task::{after_offer, no_challenge, no_task, verdict, LastChallenge, MineTask, Offer, Task};
use crate::wire::Start;
use vstd::prelude::*;

verus! {

/// What is shared.
pub struct Board<S> {
    pub task: MineTask<S>,
    /// Whether servers are asked for tasks.
    pub requested: bool,
    pub last: LastChallenge,
}

impl<S> Board<S> {
    /// The board of a miner that has just begun: there is no task, tasks are asked for, and nothing
    /// has been worked on.
    pub fn new() -> (board: Board<S>)
        ensures
            board.task@ == no_task::<S>(board.task.receive_time),
            board.task.receive_time.nanos < NANOS_PER_SEC,
            board.requested,
            board.last@ == no_challenge(),
            board.task.is_blank(),
            forall|i: int| 0 <= i < 32 ==> #[trigger] board.last.bytes@[i] == 0,
    {
        Board { task: MineTask::new(), requested: true, last: LastChallenge::new() }
    }
}

/// How far the mining loop has come with an action.
pub enum Stage {
    /// It is due.
    Due,
    /// What it means for the request for tasks has been noted.
    Requested,
    /// What it means for the last challenge has been noted too, and the rest of it is under way.
    UnderWay,
}

/// A board, and how far the mining loop has come: its phase, the action at hand, and how far it has
/// come with that.
pub struct World<S> {
    pub task: Task<S>,
    pub requested: bool,
    pub last: Seq<u8>,
    pub phase: Phase<S>,
    pub action: Action,
    pub stage: Stage,
}

/// One thing that happens to a world.
pub enum Move<S> {
    /// A connection offers a task of its server, with its own sender.
    Offer(Start, S, Moment, Seq<char>),
    /// The mining loop notes what its action means for the request for tasks.
    NoteRequest,
    /// The mining loop notes what its action means for the last challenge.
    NoteLast,
    /// The mining loop learns of an event, and another action is due.
    Learn(Event<S>, Action),
}

impl<S> World<S> {
    /// The world in which a miner begins.
    pub open spec fn is_initial(self) -> bool {
        &&& self.task == no_task::<S>(self.task.receive_time)
        &&& self.requested
        &&& self.last == no_challenge()
        &&& self.phase == Phase::<S>::Free
        &&& self.action is TakeTask
        &&& self.stage is Due
    }

    /// Whether `event` is what comes of the action at hand.
    pub open spec fn comes_of_action(self, event: Event<S>) -> bool {
        match self.action {
            Action::TakeTask => event matches Event::Taken(task) && task@ == self.task,
            Action::Idle(_) => event is Rested,
            Action::Expired(_) => event is Rested,
            Action::ReadClock(_) => event is Elapsed,
            Action::Mine(_, _, _) => event is Reports,
            Action::Send(_, _) => event is Sent,
            Action::Finish(_, _) => event is Rested,
        }
    }

    /// Whether `m` can happen. A connection can offer at any time; the mining loop notes what each
    /// action means, first for the request and then for the last challenge, and then learns what
    /// comes of it.
    pub open spec fn allows(self, m: Move<S>, pubkey: Seq<u8>, max_cutoff: u32) -> bool {
        match m {
            Move::Offer(_, _, _, _) => true,
            Move::NoteRequest => self.stage is Due,
            Move::NoteLast => self.stage is Requested,
            Move::Learn(event, action) => {
                &&& self.stage is UnderWay
                &&& self.comes_of_action(event)
                &&& self.phase.awaits(event)
                &&& self.phase.calls_for(event, pubkey, max_cutoff, action)
            },
        }
    }

    /// The world after `m`.
    pub open spec fn after(self, m: Move<S>) -> World<S> {
        match m {
            Move::Offer(start, sender, now, url) => World {
                task: after_offer(self.task, self.last, start, sender, now, url),
                ..self
            },
            Move::NoteRequest => World {
                requested: self.action.requested_after(self.requested),
                stage: Stage::Requested,
                ..self
            },
            Move::NoteLast => World {
                last: self.action.last_after(self.last),
                stage: Stage::UnderWay,
                ..self
            },
            Move::Learn(event, action) => World {
                task: if event is Taken {
                    self.task.dropped()
                } else {
                    self.task
                },
                phase: self.phase.after(event),
                action,
                stage: Stage::Due,
                ..self
            },
        }
    }

    /// The world after a run of moves.
    pub open spec fn after_run(self, run: Seq<Move<S>>) -> World<S>
        decreases run.len(),
    {
        if run.len() == 0 {
            self
        } else {
            self.after_run(run.drop_last()).after(run.last())
        }
    }

    /// Whether the moves can happen one after the other.
    pub open spec fn allows_run(self, run: Seq<Move<S>>, pubkey: Seq<u8>, max_cutoff: u32) -> bool
        decreases run.len(),
    {
        run.len() > 0 ==> {
            &&& self.allows_run(run.drop_last(), pubkey, max_cutoff)
            &&& self.after_run(run.drop_last()).allows(run.last(), pubkey, max_cutoff)
        }
    }

    /// The tasks that are taken on in a run, in their order.
    pub open spec fn accepted(self, run: Seq<Move<S>>) -> Seq<Task<S>>
        decreases run.len(),
    {
        if run.len() == 0 {
            Seq::empty()
        } else {
            let world = self.after_run(run.drop_last());
            let earlier = self.accepted(run.drop_last());
            match run.last() {
                Move::Offer(start, sender, now, url) => if verdict(world.task, world.last, start)
                    == Offer::Accepted {
                    earlier.push(Task { start, sender: Some(sender), receive_time: now, url })
                } else {
                    earlier
                },
                _ => earlier,
            }
        }
    }

    /// The tasks that are taken up in a run, in their order.
    pub open spec fn taken(self, run: Seq<Move<S>>) -> Seq<Task<S>>
        decreases run.len(),
    {
        if run.len() == 0 {
            Seq::empty()
        } else {
            let earlier = self.taken(run.drop_last());
            match run.last() {
                Move::Learn(Event::Taken(task), _) => if task@.sender is Some {
                    earlier.push(task@)
                } else {
                    earlier
                },
                _ => earlier,
            }
        }
    }

    /// The action at hand is one of those that the phase calls for.
    pub open spec fn in_step(self) -> bool {
        match self.phase {
            Phase::Free => self.action is TakeTask || self.action is Idle || self.action is Expired
                || self.action is Finish,
            Phase::Checking(_) => self.action is ReadClock,
            Phase::Timing(_) => self.action is ReadClock,
            Phase::Mining(_) => self.action is Mine,
            Phase::Reporting(_) => self.action is Send,
        }
    }

    /// The mining loop is between setting the cores to work and finishing the round.
    pub open spec fn at_work(self) -> bool {
        match self.phase {
            Phase::Mining(_) => !(self.stage is Due),
            Phase::Reporting(_) => true,
            Phase::Free => self.action is Finish && self.stage is Due,
            _ => false,
        }
    }
}

/// The task that is waiting, if there is one.
pub open spec fn waiting<S>(task: Task<S>) -> Seq<Task<S>> {
    if task.sender is Some {
        seq![task]
    } else {
        Seq::empty()
    }
}

/// Whatever servers send and however often, connections change neither the request for tasks nor
/// the last challenge nor anything of the mining loop, and a task that is waiting stays as it is:
/// its sender is not cleared.
pub proof fn lemma_connections_only_offer<S>(world: World<S>, run: Seq<Move<S>>)
    requires
        forall|i: int| 0 <= i < run.len() ==> (#[trigger] run[i]) is Offer,
    ensures
        world.after_run(run) == (World { task: world.after_run(run).task, ..world }),
        world.task.sender is Some ==> world.after_run(run).task == world.task,
    decreases run.len(),
{
    if run.len() > 0 {
        let fewer = run.drop_last();
        assert forall|i: int| 0 <= i < fewer.len() implies (#[trigger] fewer[i]) is Offer by {
            assert(fewer[i] == run[i]);
        }
        lemma_connections_only_offer(world, fewer);
        assert(run[run.len() - 1] is Offer);
    }
}

/// In any run of offers by any number of servers and of the one mining loop, what is taken up is
/// what was taken on, each task once, in its order and with the sender that it came with; no more
/// than one task is waiting at any time.
pub proof fn lemma_each_task_is_taken_up_once<S>(
    world: World<S>,
    run: Seq<Move<S>>,
    pubkey: Seq<u8>,
    max_cutoff: u32,
)
    requires
        world.allows_run(run, pubkey, max_cutoff),
    ensures
        waiting(world.task) + world.accepted(run) == world.taken(run) + waiting(
            world.after_run(run).task,
        ),
        waiting(world.after_run(run).task).len() <= 1,
    decreases run.len(),
{
    if run.len() == 0 {
        assert(waiting(world.task) + world.accepted(run) =~= world.taken(run) + waiting(
            world.after_run(run).task,
        ));
    } else {
        let fewer = run.drop_last();
        lemma_each_task_is_taken_up_once(world, fewer, pubkey, max_cutoff);
        let before = world.after_run(fewer);
        let after = world.after_run(run);
        let (accepted, taken) = (world.accepted(fewer), world.taken(fewer));
        let all = waiting(world.task) + accepted;
        assert(all == taken + waiting(before.task));
        match run.last() {
            Move::Offer(start, sender, now, url) => {
                if verdict(before.task, before.last, start) == Offer::Accepted {
                    assert(waiting(before.task) =~= Seq::<Task<S>>::empty());
                    assert(waiting(world.task) + world.accepted(run) =~= all.push(after.task));
                    assert(taken + waiting(after.task) =~= all.push(after.task));
                }
            },
            Move::NoteRequest => {},
            Move::NoteLast => {},
            Move::Learn(event, action) => {
                if event is Taken {
                    assert(world.taken(run) + waiting(after.task) =~= taken + waiting(before.task));
                }
            },
        }
    }
}

/// Servers are asked for tasks except from the moment that the cores are set to work until the
/// round is finished.
pub proof fn lemma_request_rests_while_at_work<S>(
    world: World<S>,
    run: Seq<Move<S>>,
    pubkey: Seq<u8>,
    max_cutoff: u32,
)
    requires
        world.is_initial(),
        world.allows_run(run, pubkey, max_cutoff),
    ensures
        world.after_run(run).in_step(),
        world.after_run(run).requested <==> !world.after_run(run).at_work(),
    decreases run.len(),
{
    if run.len() > 0 {
        lemma_request_rests_while_at_work(world, run.drop_last(), pubkey, max_cutoff);
    }
}

/// The task at hand is the one that was taken up last, and is one of those that a server offered,
/// with the sender of that server: the solution of each task goes back to where the task came from.
pub proof fn lemma_solution_goes_back<S>(
    world: World<S>,
    run: Seq<Move<S>>,
    pubkey: Seq<u8>,
    max_cutoff: u32,
)
    requires
        world.is_initial(),
        world.allows_run(run, pubkey, max_cutoff),
    ensures
        world.after_run(run).phase.has_sender(),
        world.after_run(run).phase.task_at_hand() matches Some(task) ==> {
            &&& world.taken(run).len() > 0
            &&& task@ == world.taken(run).last()
            &&& world.taken(run).len() <= world.accepted(run).len()
            &&& task@ == world.accepted(run)[world.taken(run).len() - 1]
        },
    decreases run.len(),
{
    lemma_each_task_is_taken_up_once(world, run, pubkey, max_cutoff);
    assert(waiting(world.task) + world.accepted(run) =~= world.accepted(run));
    if run.len() > 0 {
        let fewer = run.drop_last();
        lemma_solution_goes_back(world, fewer, pubkey, max_cutoff);
        lemma_request_rests_while_at_work(world, fewer, pubkey, max_cutoff);
    }
    if world.after_run(run).phase.task_at_hand() is Some {
        let n = world.taken(run).len() - 1;
        assert((world.taken(run) + waiting(world.after_run(run).task))[n] == world.taken(run)[n]);
    }
}

} // verus!
