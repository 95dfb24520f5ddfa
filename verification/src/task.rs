//! The task that is at hand, and the rules by which tasks are taken on, taken up and dropped.

use crate::clock::{Moment, NANOS_PER_SEC};
use crate::wire::{ServerMessage, Start};
use std::ops::Range;
use vstd::prelude::*;

verus! {

/// How long to wait when there is no task to work on, in seconds.
pub const IDLE_SECS: u64 = 1;

/// How long to wait after a task is done with, in milliseconds.
pub const REST_MILLIS: u64 = 800;

/// How long to wait between two ready messages, in milliseconds.
pub const READY_MILLIS: u64 = 500;

/// A task, and `sender`, by which its solution goes back to the server that set it. A task without
/// a sender is no task.
pub struct MineTask<S> {
    pub challenge: [u8; 32],
    pub nonce_range: Range<u64>,
    /// How many seconds may be spent on the task, from its receipt.
    pub cutoff: u64,
    pub sender: Option<S>,
    pub receive_time: Moment,
    pub url: String,
}

/// What a task holds.
pub struct Task<S> {
    pub start: Start,
    pub sender: Option<S>,
    pub receive_time: Moment,
    pub url: Seq<char>,
}

impl<S> View for MineTask<S> {
    type V = Task<S>;

    open spec fn view(&self) -> Task<S> {
        Task {
            start: Start {
                challenge: self.challenge@,
                first_nonce: self.nonce_range.start,
                end_nonce: self.nonce_range.end,
                cutoff: self.cutoff,
            },
            sender: self.sender,
            receive_time: self.receive_time,
            url: self.url@,
        }
    }
}

/// The challenge of zeros.
pub open spec fn no_challenge() -> Seq<u8> {
    Seq::new(32, |i: int| 0u8)
}

/// The task that is none.
pub open spec fn no_task<S>(receive_time: Moment) -> Task<S> {
    Task {
        start: Start { challenge: no_challenge(), first_nonce: 0, end_nonce: 0, cutoff: 0 },
        sender: None,
        receive_time,
        url: Seq::empty(),
    }
}

impl<S> Task<S> {
    /// The task without its sender.
    pub open spec fn dropped(self) -> Task<S> {
        Task { sender: None, ..self }
    }

    /// The whole seconds from the receipt of the task to `now`.
    pub open spec fn age(self, now: Moment) -> int {
        (now@ - self.receive_time@) / 1_000_000_000
    }
}

/// What becomes of a task that a server offers.
#[derive(Clone, Copy, Debug, PartialEq, Eq, Structural)]
pub enum Offer {
    /// It has the challenge that was worked on last, and is refused.
    Duplicate,
    /// Another task is waiting, and it is refused.
    Busy,
    /// It is the task at hand.
    Accepted,
}

/// What becomes of the offer `start` while `task` is at hand and `last` was worked on last.
pub open spec fn verdict<S>(task: Task<S>, last: Seq<u8>, start: Start) -> Offer {
    if start.challenge == last {
        Offer::Duplicate
    } else if task.sender is Some {
        Offer::Busy
    } else {
        Offer::Accepted
    }
}

/// The task at hand once `start` has been offered.
pub open spec fn after_offer<S>(
    task: Task<S>,
    last: Seq<u8>,
    start: Start,
    sender: S,
    now: Moment,
    url: Seq<char>,
) -> Task<S> {
    if verdict(task, last, start) == Offer::Accepted {
        Task { start, sender: Some(sender), receive_time: now, url }
    } else {
        task
    }
}

/// How many seconds to spend on `task`, of which `elapsed` have gone by.
pub open spec fn time_for_round<S>(task: Task<S>, elapsed: int, max_cutoff: u32) -> int {
    if task.start.cutoff - elapsed > max_cutoff {
        max_cutoff as int
    } else {
        task.start.cutoff - elapsed
    }
}

/// Whether a clone of a task may have this sender.
pub open spec fn sender_cloned<S: Clone>(a: Option<S>, b: Option<S>) -> bool {
    match (a, b) {
        (Some(a), Some(b)) => cloned(a, b),
        (None, None) => true,
        _ => false,
    }
}

impl<S: Clone> Clone for MineTask<S> {
    fn clone(&self) -> (copy: Self)
        ensures
            copy@ == (Task { sender: copy.sender, ..self@ }),
            sender_cloned(self.sender, copy.sender),
            copy.challenge == self.challenge,
            copy.nonce_range == self.nonce_range,
            copy.cutoff == self.cutoff,
            copy.receive_time == self.receive_time,
            copy.url@ == self.url@,
            copy.sender is Some <==> self.sender is Some,
    {
        MineTask {
            challenge: self.challenge,
            nonce_range: self.nonce_range.start..self.nonce_range.end,
            cutoff: self.cutoff,
            sender: self.sender.clone(),
            receive_time: self.receive_time,
            url: self.url.clone(),
        }
    }
}

impl<S> MineTask<S> {
    /// Whether nothing is to be mined, for nobody: the challenge is of zeros, the range of nonces is
    /// that from zero to zero, and there is neither time nor a sender nor a server.
    pub open spec fn is_blank(self) -> bool {
        &&& forall|i: int| 0 <= i < 32 ==> #[trigger] self.challenge@[i] == 0
        &&& self.nonce_range.start == 0
        &&& self.nonce_range.end == 0
        &&& self.cutoff == 0
        &&& self.sender is None
        &&& self.url@.len() == 0
    }

    /// No task, as of now.
    pub fn new() -> (task: MineTask<S>)
        ensures
            task@ == no_task::<S>(task.receive_time),
            task.receive_time.nanos < NANOS_PER_SEC,
            task.is_blank(),
    {
        MineTask::none_at(Moment::now())
    }

    /// No task, as of `receive_time`.
    pub fn none_at(receive_time: Moment) -> (task: MineTask<S>)
        ensures
            task@ == no_task::<S>(receive_time),
            task.receive_time == receive_time,
            task.is_blank(),
    {
        let task = MineTask {
            challenge: [0u8; 32],
            nonce_range: 0..0,
            cutoff: 0,
            sender: None,
            receive_time,
            url: String::new(),
        };
        assert(task@.start.challenge =~= no_challenge());
        assert(task@.url =~= Seq::<char>::empty());
        task
    }

    /// Offers the task that `message` starts. It is taken on if it is no repetition of the last one
    /// and no other task is waiting; otherwise nothing changes.
    pub fn offer(
        &mut self,
        last: &LastChallenge,
        message: ServerMessage,
        sender: S,
        now: Moment,
        url: &str,
    ) -> (offer: Offer)
        ensures
            offer == verdict(old(self)@, last@, message@),
            final(self)@ == after_offer(old(self)@, last@, message@, sender, now, url@),
            message matches ServerMessage::StartMining(challenge, nonce_range, cutoff) ==> {
                &&& offer == Offer::Duplicate <==> challenge@ == last.bytes@
                &&& offer == Offer::Accepted <==> challenge@ != last.bytes@ && old(self).sender
                    is None
                &&& offer != Offer::Accepted ==> *final(self) == *old(self)
                &&& offer == Offer::Accepted ==> {
                    &&& final(self).challenge == challenge
                    &&& final(self).nonce_range == nonce_range
                    &&& final(self).cutoff == cutoff
                    &&& final(self).sender == Some(sender)
                    &&& final(self).receive_time == now
                    &&& final(self).url@ == url@
                }
            },
    {
        let ServerMessage::StartMining(challenge, nonce_range, cutoff) = message;
        if last.is_repeated_by(&challenge) {
            return Offer::Duplicate;
        }
        if self.sender.is_some() {
            return Offer::Busy;
        }
        self.challenge = challenge;
        self.nonce_range = nonce_range;
        self.cutoff = cutoff;
        self.sender = Some(sender);
        self.receive_time = now;
        self.url = url.to_owned();
        Offer::Accepted
    }

    /// Takes the task up, which makes room for another.
    pub fn take(&mut self) -> (task: MineTask<S>)
        ensures
            task@ == old(self)@,
            final(self)@ == old(self)@.dropped(),
            task.challenge == old(self).challenge,
            task.nonce_range == old(self).nonce_range,
            task.cutoff == old(self).cutoff,
            task.sender == old(self).sender,
            task.receive_time == old(self).receive_time,
            task.url@ == old(self).url@,
            *final(self) == (MineTask { sender: None, ..*old(self) }),
    {
        let sender = self.sender.take();
        MineTask {
            challenge: self.challenge,
            nonce_range: self.nonce_range.start..self.nonce_range.end,
            cutoff: self.cutoff,
            sender,
            receive_time: self.receive_time,
            url: self.url.clone(),
        }
    }

    /// Tells whether there is a task to work on.
    pub fn is_idle(&self) -> (idle: bool)
        ensures
            idle <==> self@.sender is None,
    {
        self.sender.is_none()
    }

    /// The whole seconds from the receipt of the task to `now`; none if the clock has gone back.
    pub fn elapsed(&self, now: &Moment) -> (secs: Option<u128>)
        ensures
            match secs {
                Some(secs) => self@.receive_time@ <= now@ && secs == self@.age(*now),
                None => now@ < self@.receive_time@,
            },
    {
        now.secs_since(&self.receive_time)
    }

    /// Tells whether the task has run out, `elapsed` seconds after its receipt.
    pub fn is_expired(&self, elapsed: u128) -> (expired: bool)
        ensures
            expired <==> elapsed > self@.start.cutoff,
    {
        elapsed > self.cutoff as u128
    }

    /// How many seconds to spend on the task, `elapsed` seconds after its receipt: what is left of
    /// its cutoff, but no more than `max_cutoff`.
    pub fn round_cutoff(&self, elapsed: u128, max_cutoff: u32) -> (cutoff: u64)
        requires
            elapsed <= self@.start.cutoff,
        ensures
            cutoff == time_for_round(self@, elapsed as int, max_cutoff),
            cutoff <= max_cutoff,
            elapsed + cutoff <= self.cutoff,
            cutoff == max_cutoff || elapsed + cutoff == self.cutoff,
    {
        let left: u64 = self.cutoff - elapsed as u64;
        if left > max_cutoff as u64 {
            max_cutoff as u64
        } else {
            left
        }
    }
}

/// The challenge that was worked on last, or that of zeros.
#[derive(Clone, Copy, Debug)]
pub struct LastChallenge {
    pub bytes: [u8; 32],
}

impl View for LastChallenge {
    type V = Seq<u8>;

    open spec fn view(&self) -> Seq<u8> {
        self.bytes@
    }
}

impl LastChallenge {
    /// Nothing has been worked on.
    pub fn new() -> (last: LastChallenge)
        ensures
            last@ == no_challenge(),
            forall|i: int| 0 <= i < 32 ==> #[trigger] last.bytes@[i] == 0,
    {
        let last = LastChallenge { bytes: [0u8; 32] };
        assert(last@ =~= no_challenge());
        last
    }

    /// Tells whether `challenge` is the one that was worked on last.
    pub fn is_repeated_by(&self, challenge: &[u8; 32]) -> (r: bool)
        ensures
            r <==> challenge@ == self@,
            r <==> challenge@ == self.bytes@,
    {
        let mut i: usize = 0;
        while i < 32
            invariant
                i <= 32,
                forall|j: int| 0 <= j < i ==> challenge@[j] == self@[j],
            decreases 32 - i,
        {
            if challenge[i] != self.bytes[i] {
                return false;
            }
            i += 1;
        }
        assert(challenge@ =~= self@);
        true
    }

    /// Forgets the last challenge, as is done whenever there is no task to work on.
    pub fn forget(&mut self)
        ensures
            final(self)@ == no_challenge(),
            forall|i: int| 0 <= i < 32 ==> #[trigger] final(self).bytes@[i] == 0,
    {
        *self = LastChallenge::new();
    }

    /// Remembers the challenge of a task that is done with.
    pub fn remember(&mut self, challenge: [u8; 32])
        ensures
            final(self)@ == challenge@,
            final(self).bytes == challenge,
    {
        self.bytes = challenge;
    }
}

/// Whether a message that asks for a task is due, and how many milliseconds to wait after it: only
/// while tasks are asked for.
pub fn ready_due(requested: bool) -> (wait: Option<u64>)
    ensures
        wait == (if requested {
            Some(READY_MILLIS)
        } else {
            None
        }),
{
    if requested {
        Some(READY_MILLIS)
    } else {
        None
    }
}

/// A task that is taken on is the one that is taken up next, whatever else is offered before.
pub proof fn lemma_taken_on_is_taken_up<S>(
    task: Task<S>,
    last: Seq<u8>,
    start: Start,
    sender: S,
    now: Moment,
    url: Seq<char>,
    other_last: Seq<u8>,
    other: Start,
    other_sender: S,
    later: Moment,
    other_url: Seq<char>,
)
    requires
        verdict(task, last, start) == Offer::Accepted,
    ensures
        ({
            let waiting = after_offer(task, last, start, sender, now, url);
            &&& waiting == Task { start, sender: Some(sender), receive_time: now, url }
            &&& verdict(waiting, other_last, other) != Offer::Accepted
            &&& after_offer(waiting, other_last, other, other_sender, later, other_url) == waiting
        }),
{
}

/// Once a task has been taken up, there is none to take up, and any other challenge than the last
/// one is taken on.
pub proof fn lemma_taking_up_makes_room<S>(task: Task<S>, last: Seq<u8>, start: Start)
    ensures
        task.dropped().sender is None,
        task.dropped().dropped() == task.dropped(),
        verdict(task.dropped(), last, start) == Offer::Accepted <==> start.challenge != last,
{
}

/// The challenge that was worked on last is refused, whether or not a task is waiting.
pub proof fn lemma_last_challenge_is_refused<S>(
    task: Task<S>,
    start: Start,
    sender: S,
    now: Moment,
    url: Seq<char>,
)
    ensures
        verdict(task, start.challenge, start) == Offer::Duplicate,
        after_offer(task, start.challenge, start, sender, now, url) == task,
{
}

/// Once the last challenge is forgotten, every challenge but that of zeros is taken on where no
/// task is waiting.
pub proof fn lemma_forgotten_challenge_is_accepted<S>(task: Task<S>, start: Start)
    requires
        task.sender is None,
        start.challenge != no_challenge(),
    ensures
        verdict(task, no_challenge(), start) == Offer::Accepted,
{
}

/// A task that has run out does not come back.
pub proof fn lemma_expiry_is_final<S>(task: Task<S>, now: Moment, later: Moment)
    requires
        task.age(now) > task.start.cutoff,
        now@ <= later@,
    ensures
        task.age(later) > task.start.cutoff,
{
}

/// The time for a round is no longer than allowed, and ends no later than the task does.
pub proof fn lemma_round_ends_in_time<S>(task: Task<S>, elapsed: int, max_cutoff: u32)
    requires
        0 <= elapsed <= task.start.cutoff,
    ensures
        0 <= time_for_round(task, elapsed, max_cutoff) <= max_cutoff,
        elapsed + time_for_round(task, elapsed, max_cutoff) <= task.start.cutoff,
{
}

/// An offer is refused as a repetition just if its challenge is the last one, and taken on just if
/// it is not and no task is waiting. One that is taken on replaces all that the task at hand holds;
/// one that is refused changes nothing.
pub proof fn lemma_rules_of_offers<S>(
    task: Task<S>,
    last: Seq<u8>,
    start: Start,
    sender: S,
    now: Moment,
    url: Seq<char>,
)
    ensures
        verdict(task, last, start) == Offer::Duplicate <==> start.challenge == last,
        verdict(task, last, start) == Offer::Busy <==> start.challenge != last && task.sender
            is Some,
        verdict(task, last, start) == Offer::Accepted <==> start.challenge != last && task.sender
            is None,
        ({
            let after = after_offer(task, last, start, sender, now, url);
            if start.challenge != last && task.sender is None {
                &&& after.start == start
                &&& after.sender == Some(sender)
                &&& after.receive_time == now
                &&& after.url == url
            } else {
                after == task
            }
        }),
{
}

/// The challenge that stands for none is 32 zeros, and the task that stands for none has no sender.
pub proof fn lemma_none_is_blank<S>(receive_time: Moment)
    ensures
        no_challenge().len() == 32,
        forall|i: int| 0 <= i < 32 ==> #[trigger] no_challenge()[i] == 0,
        no_task::<S>(receive_time).sender is None,
        no_task::<S>(receive_time).start.challenge == no_challenge(),
        no_task::<S>(receive_time).receive_time == receive_time,
{
}

/// The age of a task is the whole seconds that fit between its receipt and now.
pub proof fn lemma_age_is_whole_seconds<S>(task: &MineTask<S>, now: &Moment, secs: Option<u128>)
    requires
        call_ensures(MineTask::<S>::elapsed, (task, now), secs),
    ensures
        secs is None <==> now@ < task.receive_time@,
        secs matches Some(secs) ==> task.receive_time@ + secs * 1_000_000_000 <= now@
            < task.receive_time@ + (secs + 1) * 1_000_000_000,
{
}

/// A task has run out just if more seconds have gone by than it allows.
pub proof fn lemma_expiry<S>(task: &MineTask<S>, elapsed: u128, expired: bool)
    requires
        call_ensures(MineTask::<S>::is_expired, (task, elapsed), expired),
    ensures
        expired <==> elapsed > task.cutoff,
{
}

/// The seconds for a round are the lesser of what is left of the task and what the user allows.
pub proof fn lemma_time_for_a_round<S>(
    task: &MineTask<S>,
    elapsed: u128,
    max_cutoff: u32,
    cutoff: u64,
)
    requires
        elapsed <= task.cutoff,
        call_ensures(MineTask::<S>::round_cutoff, (task, elapsed, max_cutoff), cutoff),
    ensures
        cutoff <= max_cutoff,
        elapsed + cutoff <= task.cutoff,
        cutoff == max_cutoff || elapsed + cutoff == task.cutoff,
{
}

/// A ready message is due just while tasks are asked for, and half a second is waited after it.
pub proof fn lemma_ready_due(requested: bool, wait: Option<u64>)
    requires
        call_ensures(ready_due, (requested,), wait),
    ensures
        wait is Some <==> requested,
        wait matches Some(wait) ==> wait == 500,
{
}

/// A challenge is repeated just if all of its bytes are those of the last one.
pub proof fn lemma_repetition(last: &LastChallenge, challenge: &[u8; 32], r: bool)
    requires
        call_ensures(LastChallenge::is_repeated_by, (last, challenge), r),
    ensures
        r <==> forall|i: int| 0 <= i < 32 ==> #[trigger] challenge@[i] == last.bytes@[i],
{
    if forall|i: int| 0 <= i < 32 ==> #[trigger] challenge@[i] == last.bytes@[i] {
        assert(challenge@ =~= last.bytes@);
    }
}

} // verus!
