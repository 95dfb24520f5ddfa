//! The course of a round: a task is taken up, checked, mined, reported and remembered.

use crate::clock::Moment;
use crate::le::lemma_le_injective;
use crate::miner::{lemma_pubkey_length, Miner};
use crate::search::{
    best_of, candidates, drillx_hashes, first_nonce, is_best, leading_zeros,
    lemma_best_is_one_of_the_reports, lemma_best_is_unique, lemma_best_of_round, lemma_total_is_sum,
    searched, total_fits, total_hashes, weight, Best, Report,
};
use crate::task::{
    no_challenge, time_for_round, verdict, LastChallenge, MineTask, Offer, Task, IDLE_SECS,
    REST_MILLIS,
};
use crate::wire::{lemma_solution_layout, solution_bytes, Start};
use std::ops::Range;
use vstd::prelude::*;

verus! {

/// How far a round has come.
pub enum Phase<S> {
    /// No task has been taken up.
    Free,
    /// It is to be seen whether the task has run out.
    Checking(MineTask<S>),
    /// The task has not run out; it is to be seen how much time there is for it.
    Timing(MineTask<S>),
    /// The cores are at work.
    Mining(MineTask<S>),
    /// The solution is on its way to the server.
    Reporting(MineTask<S>),
}

/// What happened last.
pub enum Event<S> {
    /// The wait is over.
    Rested,
    /// This was taken up, which may be no task.
    Taken(MineTask<S>),
    /// So many seconds have gone by since the task was received.
    Elapsed(u128),
    /// The cores are done.
    Reports(Vec<Option<Report>>),
    /// The solution has been sent, or could not be.
    Sent,
}

/// What is to be done next.
#[derive(Debug)]
pub enum Action {
    /// Take up the task that is waiting.
    TakeTask,
    /// There is no task: forget the last challenge, and wait so many seconds.
    Idle(u64),
    /// The task has run out: wait so many seconds.
    Expired(u64),
    /// See how many seconds have gone by since this moment.
    ReadClock(Moment),
    /// Ask for no task, and search these nonces for so many seconds.
    Mine([u8; 32], Range<u64>, u64),
    /// Send this message about the best solution to the sender of the task.
    Send(Best, Vec<u8>),
    /// Ask for tasks again, remember this challenge, and wait so many milliseconds.
    Finish([u8; 32], u64),
}

impl Action {
    /// Whether tasks are asked for once the action is under way: no longer when the cores are set
    /// to work, and again when the round is finished.
    pub open spec fn requested_after(self, requested: bool) -> bool {
        match self {
            Action::Mine(_, _, _) => false,
            Action::Finish(_, _) => true,
            _ => requested,
        }
    }

    /// The last challenge once the action is under way: forgotten when there is no task, and that
    /// of the task when the round is finished.
    pub open spec fn last_after(self, last: Seq<u8>) -> Seq<u8> {
        match self {
            Action::Idle(_) => no_challenge(),
            Action::Finish(challenge, _) => challenge@,
            _ => last,
        }
    }

    /// Notes whether tasks are asked for.
    pub fn note_request(&self, requested: &mut bool)
        ensures
            *final(requested) == self.requested_after(*old(requested)),
            self is Mine ==> !*final(requested),
            self is Finish ==> *final(requested),
            !(self is Mine) && !(self is Finish) ==> *final(requested) == *old(requested),
    {
        match self {
            Action::Mine(_, _, _) => {
                *requested = false;
            },
            Action::Finish(_, _) => {
                *requested = true;
            },
            _ => {},
        }
    }

    /// Notes the last challenge.
    pub fn note_last(&self, last: &mut LastChallenge)
        ensures
            final(last)@ == self.last_after(old(last)@),
            self is Idle ==> forall|i: int| 0 <= i < 32 ==> #[trigger] final(last).bytes@[i] == 0,
            self matches Action::Finish(challenge, _) ==> final(last).bytes@ == challenge@,
            !(self is Idle) && !(self is Finish) ==> final(last).bytes@ == old(last).bytes@,
    {
        match self {
            Action::Idle(_) => {
                last.forget();
            },
            Action::Finish(challenge, _) => {
                last.remember(*challenge);
            },
            _ => {},
        }
    }
}

impl<S> Phase<S> {
    /// The task at hand.
    pub open spec fn task_at_hand(self) -> Option<MineTask<S>> {
        match self {
            Phase::Free => None,
            Phase::Checking(task) => Some(task),
            Phase::Timing(task) => Some(task),
            Phase::Mining(task) => Some(task),
            Phase::Reporting(task) => Some(task),
        }
    }

    /// The task at hand.
    pub fn task(&self) -> (task: Option<&MineTask<S>>)
        ensures
            match task {
                Some(task) => self.task_at_hand() == Some(*task),
                None => self.task_at_hand() is None,
            },
    {
        match self {
            Phase::Free => None,
            Phase::Checking(task) => Some(task),
            Phase::Timing(task) => Some(task),
            Phase::Mining(task) => Some(task),
            Phase::Reporting(task) => Some(task),
        }
    }

    /// The task at hand has a sender.
    pub open spec fn has_sender(self) -> bool {
        self.task_at_hand() matches Some(task) ==> task.sender is Some
    }

    /// The events that can come in this phase. The time for a task is not worked out once the task
    /// has run out, and the hashes are counted in 64 bits.
    pub open spec fn awaits(self, event: Event<S>) -> bool {
        match (self, event) {
            (Phase::Free, Event::Rested) => true,
            (Phase::Free, Event::Taken(_)) => true,
            (Phase::Checking(_), Event::Elapsed(_)) => true,
            (Phase::Timing(task), Event::Elapsed(elapsed)) => elapsed <= task@.start.cutoff,
            (Phase::Mining(_), Event::Reports(reports)) => total_hashes(reports@) <= u64::MAX,
            (Phase::Reporting(_), Event::Sent) => true,
            _ => false,
        }
    }

    /// The phase after `event`.
    pub open spec fn after(self, event: Event<S>) -> Phase<S> {
        match (self, event) {
            (Phase::Free, Event::Taken(task)) => if task@.sender is None {
                Phase::Free
            } else {
                Phase::Checking(task)
            },
            (Phase::Checking(task), Event::Elapsed(elapsed)) => if elapsed > task@.start.cutoff {
                Phase::Free
            } else {
                Phase::Timing(task)
            },
            (Phase::Timing(task), Event::Elapsed(_)) => Phase::Mining(task),
            (Phase::Mining(task), Event::Reports(_)) => Phase::Reporting(task),
            _ => Phase::Free,
        }
    }

    /// Whether `action` is what `event` calls for.
    pub open spec fn calls_for(
        self,
        event: Event<S>,
        pubkey: Seq<u8>,
        max_cutoff: u32,
        action: Action,
    ) -> bool {
        match (self, event) {
            (Phase::Free, Event::Taken(task)) => if task@.sender is None {
                action matches Action::Idle(secs) && secs == IDLE_SECS
            } else {
                action matches Action::ReadClock(since) && since == task@.receive_time
            },
            (Phase::Checking(task), Event::Elapsed(elapsed)) => if elapsed > task@.start.cutoff {
                action matches Action::Expired(secs) && secs == IDLE_SECS
            } else {
                action matches Action::ReadClock(since) && since == task@.receive_time
            },
            (Phase::Timing(task), Event::Elapsed(elapsed)) => {
                &&& action matches Action::Mine(challenge, nonces, cutoff)
                &&& challenge@ == task@.start.challenge
                &&& nonces.start == task@.start.first_nonce
                &&& nonces.end == task@.start.end_nonce
                &&& cutoff == time_for_round(task@, elapsed as int, max_cutoff)
            },
            (Phase::Mining(task), Event::Reports(reports)) => {
                &&& action matches Action::Send(best, message)
                &&& is_best(reports@, best)
                &&& best.hashes == total_hashes(reports@)
                &&& message@ == solution_bytes(best.hash@.0, best.nonce, pubkey)
            },
            (Phase::Reporting(task), Event::Sent) => {
                &&& action matches Action::Finish(challenge, millis)
                &&& challenge@ == task@.start.challenge
                &&& millis == REST_MILLIS
            },
            _ => action is TakeTask,
        }
    }

    /// Tells whether `event` can come in this phase.
    pub fn accepts(&self, event: &Event<S>) -> (r: bool)
        ensures
            r == self.awaits(*event),
    {
        match (self, event) {
            (Phase::Free, Event::Rested) => true,
            (Phase::Free, Event::Taken(_)) => true,
            (Phase::Checking(_), Event::Elapsed(_)) => true,
            (Phase::Timing(task), Event::Elapsed(elapsed)) => !task.is_expired(*elapsed),
            (Phase::Mining(_), Event::Reports(reports)) => total_fits(reports),
            (Phase::Reporting(_), Event::Sent) => true,
            _ => false,
        }
    }

    /// Goes on with the round after `event`.
    pub fn advance(self, event: Event<S>, miner: &Miner, max_cutoff: u32) -> (r: (Phase<S>, Action))
        requires
            self.has_sender(),
            self.awaits(event),
        ensures
            r.0 == self.after(event),
            r.0.has_sender(),
            self.calls_for(event, miner.pubkey(), max_cutoff, r.1),
    {
        match (self, event) {
            (Phase::Free, Event::Taken(task)) => if task.is_idle() {
                (Phase::Free, Action::Idle(IDLE_SECS))
            } else {
                let since = task.receive_time;
                (Phase::Checking(task), Action::ReadClock(since))
            },
            (Phase::Checking(task), Event::Elapsed(elapsed)) => if task.is_expired(elapsed) {
                (Phase::Free, Action::Expired(IDLE_SECS))
            } else {
                let since = task.receive_time;
                (Phase::Timing(task), Action::ReadClock(since))
            },
            (Phase::Timing(task), Event::Elapsed(elapsed)) => {
                let cutoff = task.round_cutoff(elapsed, max_cutoff);
                let challenge = task.challenge;
                let nonces = task.nonce_range.start..task.nonce_range.end;
                (Phase::Mining(task), Action::Mine(challenge, nonces, cutoff))
            },
            (Phase::Mining(task), Event::Reports(reports)) => {
                let best = best_of(&reports);
                let message = miner.solution_message(&best);
                (Phase::Reporting(task), Action::Send(best, message))
            },
            (Phase::Reporting(task), Event::Sent) => {
                let challenge = task.challenge;
                (Phase::Free, Action::Finish(challenge, REST_MILLIS))
            },
            _ => (Phase::Free, Action::TakeTask),
        }
    }
}

/// A task that is taken up, and that runs out neither before it is checked nor before its time is
/// worked out, is mined, reported to its own sender and remembered; then the next can be taken up.
pub proof fn lemma_round_of_a_task<S>(
    task: MineTask<S>,
    checked: u128,
    timed: u128,
    reports: Vec<Option<Report>>,
)
    requires
        task@.sender is Some,
        checked <= task@.start.cutoff,
        timed <= task@.start.cutoff,
        total_hashes(reports@) <= u64::MAX,
    ensures
        ({
            let taken = Phase::Free.after(Event::Taken(task));
            let fresh = taken.after(Event::Elapsed(checked));
            let mining = fresh.after(Event::Elapsed(timed));
            let reporting = mining.after(Event::Reports(reports));
            &&& taken == Phase::Checking(task) && taken.awaits(Event::Elapsed(checked))
            &&& fresh == Phase::Timing(task) && fresh.awaits(Event::Elapsed(timed))
            &&& mining == Phase::Mining(task) && mining.awaits(Event::Reports(reports))
            &&& reporting == Phase::Reporting(task) && reporting.awaits(Event::Sent)
            &&& reporting.after(Event::Sent) == Phase::<S>::Free
        }),
{
}

/// What is no task, and a task that has run out when it is checked, are dropped.
pub proof fn lemma_dropped_tasks<S>(none: MineTask<S>, old: MineTask<S>, checked: u128)
    requires
        none@.sender is None,
        old@.sender is Some,
        checked > old@.start.cutoff,
    ensures
        Phase::Free.after(Event::Taken(none)) == Phase::<S>::Free,
        Phase::Free.after(Event::Taken(old)).after(Event::Elapsed(checked)) == Phase::<S>::Free,
{
}

/// The challenge of a task whose round is finished is refused when it is offered next.
pub proof fn lemma_finished_task_is_not_repeated<S>(
    task: MineTask<S>,
    pubkey: Seq<u8>,
    max_cutoff: u32,
    action: Action,
    waiting: Task<S>,
    start: Start,
)
    requires
        Phase::Reporting(task).calls_for(Event::Sent, pubkey, max_cutoff, action),
        start.challenge == task@.start.challenge,
    ensures
        action matches Action::Finish(challenge, _) && verdict(waiting, challenge@, start)
            == Offer::Duplicate,
{
}

/// The message that ends the search for a task tells the server of a solution of the puzzle for
/// the challenge and for the nonce that it names, as long as anything of any difficulty was found;
/// and nothing that was tried is more difficult. Each core `k` that reports has searched from its
/// first nonce to `lasts[k]`.
pub proof fn lemma_message_tells_of_a_solution<S>(
    task: MineTask<S>,
    cutoff: u64,
    cores: Seq<usize>,
    lasts: Seq<int>,
    reports: Vec<Option<Report>>,
    pubkey: Seq<u8>,
    max_cutoff: u32,
    action: Action,
)
    requires
        pubkey.len() == 32,
        cores.len() == reports@.len(),
        lasts.len() == reports@.len(),
        forall|k: int|
            0 <= k < reports@.len() ==> ((#[trigger] reports@[k]) matches Some(report) ==> searched(
                task@.start.challenge,
                first_nonce(task@.start.first_nonce, cores[k]),
                task@.start.end_nonce,
                cutoff,
                lasts[k],
                report,
            )),
        Phase::Mining(task).calls_for(Event::Reports(reports), pubkey, max_cutoff, action),
    ensures
        action matches Action::Send(best, message) && {
            &&& message@.len() == 60
            &&& message@.subrange(25, 57) == pubkey
            &&& best.difficulty > 0 ==> exists|hash: Seq<u8>|
                {
                    &&& #[trigger] leading_zeros(hash) == best.difficulty
                    &&& drillx_hashes(task@.start.challenge, message@.subrange(17, 25)).contains(
                        (message@.subrange(1, 17), hash),
                    )
                }
            &&& forall|k: int, i: int|
                0 <= k < reports@.len() && reports@[k] is Some && 0 <= i < candidates(
                    task@.start.challenge,
                    first_nonce(task@.start.first_nonce, cores[k]),
                    lasts[k],
                ).len() ==> weight(
                    #[trigger] candidates(
                        task@.start.challenge,
                        first_nonce(task@.start.first_nonce, cores[k]),
                        lasts[k],
                    )[i],
                ) <= best.difficulty
        },
{
    let best = action->Send_0;
    let message = action->Send_1;
    lemma_solution_layout(best.hash@.0, best.nonce, pubkey);
    lemma_le_injective(message@.subrange(17, 25));
    lemma_best_of_round(
        task@.start.challenge,
        task.nonce_range,
        cutoff,
        cores,
        lasts,
        reports@,
        best,
    );
    if best.difficulty > 0 {
        assert(leading_zeros(best.hash@.1) == best.difficulty);
        assert(best.hash@ == (message@.subrange(1, 17), best.hash@.1));
    }
}

/// The message that ends the search for a task follows from the reports and the public key alone.
pub proof fn lemma_same_reports_same_message<S>(
    task1: MineTask<S>,
    task2: MineTask<S>,
    reports: Vec<Option<Report>>,
    pubkey: Seq<u8>,
    max_cutoff1: u32,
    max_cutoff2: u32,
    action1: Action,
    action2: Action,
)
    requires
        Phase::Mining(task1).calls_for(Event::Reports(reports), pubkey, max_cutoff1, action1),
        Phase::Mining(task2).calls_for(Event::Reports(reports), pubkey, max_cutoff2, action2),
    ensures
        action1 is Send,
        action2 is Send,
        action1->Send_1@ == action2->Send_1@,
{
    lemma_best_is_unique(reports@, action1->Send_0, action2->Send_0);
}

/// What is taken up is checked if it has a sender, against the moment of its own receipt; if it has
/// none there is no task, and a second is waited.
pub proof fn lemma_task_is_checked<S>(
    task: MineTask<S>,
    miner: &Miner,
    max_cutoff: u32,
    r: (Phase<S>, Action),
)
    requires
        call_ensures(
            Phase::<S>::advance,
            (Phase::Free, Event::Taken(task), miner, max_cutoff),
            r,
        ),
    ensures
        task.sender is None ==> r.0 == Phase::<S>::Free && (r.1 matches Action::Idle(secs) && secs
            == 1),
        task.sender is Some ==> r.0 == Phase::Checking(task) && (r.1 matches Action::ReadClock(
            since,
        ) && since == task.receive_time),
{
}

/// A task that has run out, more seconds after its receipt than it allows, is dropped, and a second
/// is waited; one that has not is gone on with.
pub proof fn lemma_expired_task_is_dropped<S>(
    task: MineTask<S>,
    elapsed: u128,
    miner: &Miner,
    max_cutoff: u32,
    r: (Phase<S>, Action),
)
    requires
        call_ensures(
            Phase::<S>::advance,
            (Phase::Checking(task), Event::Elapsed(elapsed), miner, max_cutoff),
            r,
        ),
    ensures
        elapsed > task.cutoff ==> r.0 == Phase::<S>::Free && (r.1 matches Action::Expired(secs)
            && secs == 1),
        elapsed <= task.cutoff ==> r.0 == Phase::Timing(task) && (r.1 matches Action::ReadClock(
            since,
        ) && since == task.receive_time),
{
}

/// The cores are set to work on the challenge and the nonces of the task, for no longer than the
/// user allows nor than is left of the task, and for no less than one of these.
pub proof fn lemma_task_is_mined<S>(
    task: MineTask<S>,
    elapsed: u128,
    miner: &Miner,
    max_cutoff: u32,
    r: (Phase<S>, Action),
)
    requires
        elapsed <= task.cutoff,
        call_ensures(
            Phase::<S>::advance,
            (Phase::Timing(task), Event::Elapsed(elapsed), miner, max_cutoff),
            r,
        ),
    ensures
        r.0 == Phase::Mining(task),
        r.1 matches Action::Mine(challenge, nonces, cutoff) && {
            &&& challenge@ == task.challenge@
            &&& nonces.start == task.nonce_range.start
            &&& nonces.end == task.nonce_range.end
            &&& cutoff <= max_cutoff
            &&& elapsed + cutoff <= task.cutoff
            &&& cutoff == max_cutoff || elapsed + cutoff == task.cutoff
        },
{
    lemma_mining_time(task, elapsed, miner.pubkey(), max_cutoff, r.1);
}

/// The time for which the cores are set to work.
pub proof fn lemma_mining_time<S>(
    task: MineTask<S>,
    elapsed: u128,
    pubkey: Seq<u8>,
    max_cutoff: u32,
    action: Action,
)
    requires
        elapsed <= task@.start.cutoff,
        Phase::Timing(task).calls_for(Event::Elapsed(elapsed), pubkey, max_cutoff, action),
    ensures
        action matches Action::Mine(_, _, cutoff) && {
            &&& cutoff <= max_cutoff
            &&& elapsed + cutoff <= task.cutoff
            &&& cutoff == max_cutoff || elapsed + cutoff == task.cutoff
        },
{
}

/// What is sent of the reports is the best of them, in a message that spells out its digest, its
/// nonce and the public key of the miner byte by byte.
pub proof fn lemma_best_is_sent<S>(
    task: MineTask<S>,
    reports: Vec<Option<Report>>,
    miner: &Miner,
    max_cutoff: u32,
    r: (Phase<S>, Action),
)
    requires
        call_ensures(
            Phase::<S>::advance,
            (Phase::Mining(task), Event::Reports(reports), miner, max_cutoff),
            r,
        ),
    ensures
        r.0 == Phase::Reporting(task),
        r.1 matches Action::Send(best, message) && {
            &&& forall|j: int|
                0 <= j < reports@.len() ==> ((#[trigger] reports@[j]) matches Some(report)
                    ==> report.difficulty <= best.difficulty)
            &&& best.difficulty > 0 ==> exists|i: int|
                {
                    &&& 0 <= i < reports@.len()
                    &&& (#[trigger] reports@[i]) matches Some(report) && report.nonce == best.nonce
                        && report.difficulty == best.difficulty && report.hash == best.hash
                    &&& forall|j: int|
                        0 <= j < i ==> ((#[trigger] reports@[j]) matches Some(report)
                            ==> report.difficulty < best.difficulty)
                }
            &&& best.difficulty == 0 ==> best.nonce == 0 && forall|i: int|
                0 <= i < 16 ==> #[trigger] best.hash.d@[i] == 0
            &&& best.hashes == reports@.map_values(
                |report: Option<Report>|
                    match report {
                        Some(report) => report.hashes as int,
                        None => 0,
                    },
            ).fold_left(0int, |sum: int, n: int| sum + n)
            &&& message@.len() == 60
            &&& message@[0] == 2
            &&& message@.subrange(1, 17) == best.hash.d@
            &&& forall|i: int|
                17 <= i < 25 ==> #[trigger] message@[i] == (best.nonce >> (8 * (i - 17)) as u64)
                    & 0xff
            &&& message@.subrange(25, 57) == miner.pubkey()
            &&& message@[57] == 0x78 && message@[58] == 0x78 && message@[59] == 0x78
        },
{
    let best = r.1->Send_0;
    lemma_best_is_one_of_the_reports(reports@, best);
    lemma_total_is_sum(reports@);
    lemma_pubkey_length(*miner);
    lemma_solution_layout(best.hash@.0, best.nonce, miner.pubkey());
}

/// A round ends, whether or not its solution could be sent, with its own challenge being remembered
/// and 800 milliseconds of rest; then another task is taken up.
pub proof fn lemma_round_is_finished<S>(
    task: MineTask<S>,
    miner: &Miner,
    max_cutoff: u32,
    r: (Phase<S>, Action),
    next: (Phase<S>, Action),
)
    requires
        call_ensures(
            Phase::<S>::advance,
            (Phase::Reporting(task), Event::Sent, miner, max_cutoff),
            r,
        ),
        call_ensures(Phase::<S>::advance, (r.0, Event::Rested, miner, max_cutoff), next),
    ensures
        r.0 == Phase::<S>::Free,
        r.1 matches Action::Finish(challenge, millis) && challenge@ == task.challenge@ && millis
            == 800,
        next.0 == Phase::<S>::Free,
        next.1 is TakeTask,
{
}

/// No more and no other events are accepted than a round waits for: a reading of the clock may not
/// show that the task has run out between the check and the start, and the hashes of all reports can
/// be counted in 64 bits.
pub proof fn lemma_events_of_a_round<S>(phase: &Phase<S>, event: &Event<S>, r: bool)
    requires
        call_ensures(Phase::<S>::accepts, (phase, event), r),
    ensures
        phase is Free ==> (r <==> event is Rested || event is Taken),
        phase is Checking ==> (r <==> event is Elapsed),
        phase matches Phase::Timing(task) ==> (r <==> (event matches Event::Elapsed(elapsed)
            && elapsed <= task.cutoff)),
        phase is Mining ==> (r <==> (event matches Event::Reports(reports) && reports@.map_values(
            |report: Option<Report>|
                match report {
                    Some(report) => report.hashes as int,
                    None => 0,
                },
        ).fold_left(0int, |sum: int, n: int| sum + n) <= u64::MAX)),
        phase is Reporting ==> (r <==> event is Sent),
{
    if let Event::Reports(reports) = event {
        lemma_total_is_sum(reports@);
    }
}

/// Tasks are not asked for once the cores are set to work, and are again once the round is finished;
/// the last challenge is forgotten when there is no task, and is that of the round when it is
/// finished. Nothing else changes either.
pub proof fn lemma_what_actions_note(action: Action, requested: bool, last: Seq<u8>)
    ensures
        action is Mine ==> !action.requested_after(requested),
        action is Finish ==> action.requested_after(requested),
        !(action is Mine) && !(action is Finish) ==> action.requested_after(requested) == requested,
        action is Idle ==> action.last_after(last).len() == 32 && forall|i: int|
            0 <= i < 32 ==> #[trigger] action.last_after(last)[i] == 0,
        action matches Action::Finish(challenge, _) ==> action.last_after(last) == challenge@,
        !(action is Idle) && !(action is Finish) ==> action.last_after(last) == last,
{
}

/// There is a task at hand in each phase but the free one, and it is the one of the phase.
pub proof fn lemma_task_of_a_phase<S>(phase: &Phase<S>, task: Option<&MineTask<S>>)
    requires
        call_ensures(Phase::<S>::task, (phase,), task),
    ensures
        task is None <==> phase is Free,
        task matches Some(task) ==> *phase == Phase::Checking(*task) || *phase == Phase::Timing(
            *task,
        ) || *phase == Phase::Mining(*task) || *phase == Phase::Reporting(*task),
{
}

} // verus!
