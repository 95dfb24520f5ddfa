//! The search for the nonce whose hash is the most difficult.

use crate::le::{le_bytes, to_le_bytes};
use drillx_2::equix::SolverMemory;
use std::ops::Range;
use std::time::Instant;
use vstd::prelude::*;

verus! {

/// How far apart the first nonces of neighbouring cores lie.
pub const NONCES_PER_CORE: u64 = 10_000;

/// The clock is read at each nonce that is a multiple of this.
pub const CLOCK_PERIOD: u64 = 50;

/// The solver finds no more solutions than this for one nonce.
pub const SOLUTIONS_PER_NONCE: u64 = 8;

/// The working memory of the Equi-X solver, `drillx_2::equix::SolverMemory`. Nothing is known of
/// what it holds.
#[verifier::external_type_specification]
#[verifier::external_body]
pub struct ExSolverMemory(drillx_2::equix::SolverMemory);

/// A reading of the monotonic clock, `std::time::Instant`. Nothing is known of what it holds.
#[verifier::external_type_specification]
#[verifier::external_body]
pub struct ExInstant(std::time::Instant);

/// `drillx_2::equix::SolverMemory::new` allocates working memory for the solver. Nothing is
/// claimed of what it holds: the solver writes each part before it reads it.
pub assume_specification[ drillx_2::equix::SolverMemory::new ]() -> (memory: SolverMemory);

/// One solution of the drillx puzzle: a digest, and its hash.
#[derive(Clone, Copy, Debug)]
pub struct DrillHash {
    pub d: [u8; 16],
    pub h: [u8; 32],
}

impl View for DrillHash {
    type V = (Seq<u8>, Seq<u8>);

    open spec fn view(&self) -> (Seq<u8>, Seq<u8>) {
        (self.d@, self.h@)
    }
}

/// What `drillx_2::get_hashes_with_memory` finds for a challenge and the bytes of a nonce: the
/// digest and the hash of each solution, in the order in which the solver meets them.
pub uninterp spec fn drillx_hashes(challenge: Seq<u8>, nonce: Seq<u8>) -> Seq<(Seq<u8>, Seq<u8>)>;

/// Calls `drillx_2::get_hashes_with_memory`. The result depends on the challenge and the nonce
/// alone: the working memory is scratch space, and the hash program is the same whether it is
/// compiled or interpreted. The digest is sorted as words in the byte order of the target before
/// it is hashed, so the name stands for the function as it is built for that target. Where the
/// challenge and the nonce yield no hash program, there are no solutions; there are never more than
/// eight, since `equix::SolutionArray` holds no more and the solver drops the rest.
#[verifier::external_body]
fn hashes_of_nonce(memory: &mut SolverMemory, challenge: &[u8; 32], nonce: &[u8; 8]) -> (r: Vec<
    DrillHash,
>)
    ensures
        r@.map_values(|x: DrillHash| x@) == drillx_hashes(challenge@, nonce@),
        r@.len() <= SOLUTIONS_PER_NONCE,
{
    drillx_2::get_hashes_with_memory(memory, challenge, nonce)
        .into_iter()
        .map(|x| DrillHash { d: x.d, h: x.h })
        .collect()
}

/// Calls `std::time::Instant::elapsed` and hands its whole seconds on. Nothing is claimed of the
/// result, which is up to the clock.
#[verifier::external_body]
fn elapsed_secs(timer: &Instant) -> (secs: u64) {
    timer.elapsed().as_secs()
}

/// The number of zero bits before the first one bit of a byte.
pub open spec fn leading_zeros_of_byte(b: u8) -> nat {
    if b >= 0x80 {
        0
    } else if b >= 0x40 {
        1
    } else if b >= 0x20 {
        2
    } else if b >= 0x10 {
        3
    } else if b >= 0x08 {
        4
    } else if b >= 0x04 {
        5
    } else if b >= 0x02 {
        6
    } else if b >= 0x01 {
        7
    } else {
        8
    }
}

/// The number of zero bits before the first one bit of a string of bytes.
pub open spec fn leading_zeros(s: Seq<u8>) -> nat
    decreases s.len(),
{
    if s.len() == 0 {
        0
    } else if s[0] == 0 {
        8 + leading_zeros(s.drop_first())
    } else {
        leading_zeros_of_byte(s[0])
    }
}

/// Calls `drillx_2::Hash::difficulty`, which counts the zero bits at the beginning of the hash.
#[verifier::external_body]
fn difficulty_of(hash: &DrillHash) -> (difficulty: u32)
    ensures
        difficulty == leading_zeros(hash@.1),
{
    drillx_2::Hash { d: hash.d, h: hash.h }.difficulty()
}

impl DrillHash {
    /// The hash that stands for no solution: all of its bytes are zero.
    pub fn zero() -> (hash: DrillHash)
        ensures
            hash@ == zero_hash(),
    {
        let hash = DrillHash { d: [0u8; 16], h: [0u8; 32] };
        assert(hash@.0 =~= zero_hash().0);
        assert(hash@.1 =~= zero_hash().1);
        hash
    }

    /// How difficult the hash is: the number of zero bits that it begins with.
    pub fn difficulty(&self) -> (difficulty: u32)
        ensures
            difficulty == leading_zeros(self@.1),
    {
        difficulty_of(self)
    }
}

/// The digest and the hash that stand for no solution.
pub open spec fn zero_hash() -> (Seq<u8>, Seq<u8>) {
    (Seq::new(16, |i: int| 0u8), Seq::new(32, |i: int| 0u8))
}

/// A solution, and the nonce that it is for.
pub struct Candidate {
    pub nonce: int,
    pub hash: (Seq<u8>, Seq<u8>),
}

/// How difficult a candidate is.
pub open spec fn weight(c: Candidate) -> nat {
    leading_zeros(c.hash.1)
}

/// The solutions `hashes`, all for `nonce`.
pub open spec fn tagged(nonce: int, hashes: Seq<(Seq<u8>, Seq<u8>)>) -> Seq<Candidate> {
    Seq::new(hashes.len(), |i: int| Candidate { nonce, hash: hashes[i] })
}

/// All solutions for the nonces from `first` to `last`, in the order of the nonces.
pub open spec fn candidates(challenge: Seq<u8>, first: int, last: int) -> Seq<Candidate>
    decreases last - first + 1,
{
    if last < first {
        Seq::empty()
    } else {
        candidates(challenge, first, last - 1) + tagged(
            last,
            drillx_hashes(challenge, le_bytes(last as u64)),
        )
    }
}

/// Candidate `i` is the first of the most difficult ones, and is of any difficulty at all.
pub open spec fn is_first_best(c: Seq<Candidate>, i: int) -> bool {
    &&& 0 <= i < c.len()
    &&& weight(c[i]) > 0
    &&& forall|j: int| 0 <= j < c.len() ==> weight(#[trigger] c[j]) <= weight(c[i])
    &&& forall|j: int| 0 <= j < i ==> weight(#[trigger] c[j]) < weight(c[i])
}

/// `nonce`, `difficulty` and `hash` are those of the first of the most difficult candidates; where
/// no candidate has any difficulty, they are `fallback`, zero and the hash of zeros.
pub open spec fn leads(
    c: Seq<Candidate>,
    fallback: u64,
    nonce: u64,
    difficulty: u32,
    hash: (Seq<u8>, Seq<u8>),
) -> bool {
    ||| {
        &&& forall|j: int| 0 <= j < c.len() ==> weight(#[trigger] c[j]) == 0
        &&& nonce == fallback
        &&& difficulty == 0
        &&& hash == zero_hash()
    }
    ||| exists|i: int| #[trigger] led_by(c, i, nonce, difficulty, hash)
}

/// `nonce`, `difficulty` and `hash` are those of candidate `i`, the first of the most difficult.
pub open spec fn led_by(
    c: Seq<Candidate>,
    i: int,
    nonce: u64,
    difficulty: u32,
    hash: (Seq<u8>, Seq<u8>),
) -> bool {
    &&& is_first_best(c, i)
    &&& c[i] == Candidate { nonce: nonce as int, hash }
    &&& difficulty == weight(c[i])
}

/// The state of a search: the nonce at hand, and the best of what has been seen.
#[derive(Clone, Copy, Debug)]
pub struct Search {
    pub nonce: u64,
    pub best_nonce: u64,
    pub best_difficulty: u32,
    pub best_hash: DrillHash,
    pub hashes: u64,
}

impl Search {
    /// Whether the best so far is the first of the most difficult of `c`, or else the fallback.
    pub open spec fn leads(self, c: Seq<Candidate>, fallback: u64) -> bool {
        leads(c, fallback, self.best_nonce, self.best_difficulty, self.best_hash@)
    }

    /// Whether nothing that is kept as the best differs from `other`.
    pub open spec fn same_best(self, other: Search) -> bool {
        &&& self.best_nonce == other.best_nonce
        &&& self.best_difficulty == other.best_difficulty
        &&& self.best_hash == other.best_hash
    }

    /// Whether `self` keeps as its best what `before` kept, or else the first of the most difficult
    /// of `hashes`, should that be more difficult.
    pub open spec fn improves(self, before: Search, hashes: Seq<DrillHash>) -> bool {
        ||| {
            &&& forall|j: int|
                0 <= j < hashes.len() ==> leading_zeros((#[trigger] hashes[j])@.1)
                    <= before.best_difficulty
            &&& self.same_best(before)
        }
        ||| exists|i: int| #[trigger] self.improved_by(before, hashes, i)
    }

    /// Whether `self` keeps as its best hash `i` of `hashes`, the first of the most difficult ones,
    /// which is more difficult than what `before` kept.
    pub open spec fn improved_by(self, before: Search, hashes: Seq<DrillHash>, i: int) -> bool {
        &&& 0 <= i < hashes.len()
        &&& leading_zeros(hashes[i]@.1) > before.best_difficulty
        &&& forall|j: int|
            0 <= j < hashes.len() ==> leading_zeros((#[trigger] hashes[j])@.1) <= leading_zeros(
                hashes[i]@.1,
            )
        &&& forall|j: int|
            0 <= j < i ==> leading_zeros((#[trigger] hashes[j])@.1) < leading_zeros(hashes[i]@.1)
        &&& self.best_nonce == before.nonce
        &&& self.best_difficulty == leading_zeros(hashes[i]@.1)
        &&& self.best_hash == hashes[i]
    }

    /// A search that is about to try its first nonce.
    pub fn start(first: u64) -> (s: Search)
        ensures
            s.nonce == first,
            s.best_nonce == first,
            s.best_difficulty == 0,
            s.best_hash@ == zero_hash(),
            s.hashes == 0,
    {
        Search {
            nonce: first,
            best_nonce: first,
            best_difficulty: 0,
            best_hash: DrillHash::zero(),
            hashes: 0,
        }
    }

    /// Counts the solutions of the nonce at hand and keeps the best. It fails, and changes nothing,
    /// where the count does not fit in 64 bits.
    pub fn absorb(&mut self, hashes: &Vec<DrillHash>) -> (counted: bool)
        ensures
            counted <==> old(self).hashes + hashes@.len() <= u64::MAX,
            counted ==> {
                &&& final(self).nonce == old(self).nonce
                &&& final(self).hashes == old(self).hashes + hashes@.len()
                &&& final(self).improves(*old(self), hashes@)
            },
            !counted ==> *final(self) == *old(self),
    {
        let total = match self.hashes.checked_add(hashes.len() as u64) {
            Some(total) => total,
            None => {
                return false;
            },
        };
        let ghost before = *self;
        self.hashes = total;
        let mut k: usize = 0;
        while k < hashes.len()
            invariant
                k <= hashes@.len(),
                self.nonce == before.nonce,
                self.hashes == total,
                self.improves(before, hashes@.take(k as int)),
            decreases hashes@.len() - k,
        {
            let hash = hashes[k];
            let ghost seen = hashes@.take(k as int);
            let ghost more = hashes@.take(k + 1);
            let ghost last = *self;
            assert(more =~= seen.push(hash));
            let difficulty = hash.difficulty();
            if difficulty > self.best_difficulty {
                self.best_nonce = self.nonce;
                self.best_difficulty = difficulty;
                self.best_hash = hash;
                proof {
                    lemma_more_difficult(before, last, *self, seen, hash);
                }
            } else {
                proof {
                    lemma_no_more_difficult(before, last, seen, hash);
                }
            }
            k += 1;
        }
        assert(hashes@.take(hashes@.len() as int) =~= hashes@);
        true
    }

    /// Whether the clock is to be read before the search goes on.
    pub fn needs_clock(&self, end: u64) -> (r: bool)
        ensures
            r <==> self.nonce < end && self.nonce % CLOCK_PERIOD == 0,
    {
        self.nonce < end && self.nonce % CLOCK_PERIOD == 0
    }

    /// Moves on to the next nonce, unless the range is done with or, at a nonce where the clock is
    /// read, `elapsed` seconds are as many as `cutoff` or more.
    pub fn advance(&mut self, end: u64, elapsed: u64, cutoff: u64) -> (goes_on: bool)
        ensures
            goes_on <==> old(self).nonce < end && !(old(self).nonce % CLOCK_PERIOD == 0 && elapsed
                >= cutoff),
            goes_on ==> *final(self) == (Search {
                nonce: (old(self).nonce + 1) as u64,
                ..*old(self)
            }),
            !goes_on ==> *final(self) == *old(self),
    {
        if self.nonce >= end {
            return false;
        }
        if self.nonce % CLOCK_PERIOD == 0 && elapsed >= cutoff {
            return false;
        }
        self.nonce = self.nonce + 1;
        true
    }
}

/// A hash that is more difficult than all before becomes the best.
proof fn lemma_more_difficult(
    before: Search,
    last: Search,
    now: Search,
    seen: Seq<DrillHash>,
    hash: DrillHash,
)
    requires
        last.improves(before, seen),
        last.nonce == before.nonce,
        leading_zeros(hash@.1) > last.best_difficulty,
        now.best_nonce == before.nonce,
        now.best_difficulty == leading_zeros(hash@.1),
        now.best_hash == hash,
    ensures
        now.improves(before, seen.push(hash)),
{
    let more = seen.push(hash);
    let n = seen.len() as int;
    assert(more[n] == hash);
    assert forall|j: int| 0 <= j < n implies leading_zeros((#[trigger] more[j])@.1)
        < leading_zeros(hash@.1) by {
        assert(more[j] == seen[j]);
    }
    assert(now.improved_by(before, more, n));
}

/// A hash that is no more difficult than the best changes nothing.
proof fn lemma_no_more_difficult(
    before: Search,
    last: Search,
    seen: Seq<DrillHash>,
    hash: DrillHash,
)
    requires
        last.improves(before, seen),
        leading_zeros(hash@.1) <= last.best_difficulty,
    ensures
        last.improves(before, seen.push(hash)),
{
    let more = seen.push(hash);
    let n = seen.len() as int;
    assert(more[n] == hash);
    assert(forall|j: int| 0 <= j < n ==> #[trigger] more[j] == seen[j]);
    if exists|i: int| #[trigger] last.improved_by(before, seen, i) {
        let i = choose|i: int| #[trigger] last.improved_by(before, seen, i);
        assert(more[i] == seen[i]);
        assert(last.improved_by(before, more, i));
    }
}

/// What a search leaves behind.
#[derive(Clone, Debug)]
pub struct Report {
    pub nonce: u64,
    pub difficulty: u32,
    pub hash: DrillHash,
    /// How many hashes were looked at.
    pub hashes: u64,
    /// The seconds that the clock showed, each time that it was read.
    pub readings: Vec<u64>,
}

/// The core `core` takes part if its number, cut to 32 bits, is below the number of threads.
pub open spec fn takes_part(core: usize, threads: u32) -> bool {
    core as int % 0x1_0000_0000 < threads
}

/// The first nonce of a core.
pub open spec fn first_nonce(start: u64, core: usize) -> int {
    start + NONCES_PER_CORE * core
}

/// The greater of two numbers.
pub open spec fn greater(a: int, b: int) -> int {
    if a < b {
        b
    } else {
        a
    }
}

/// A search from `first` can be at nonce `last`: each nonce from `first` to `end` is tried, both
/// included, and `first` is tried even when it lies behind `end`.
pub open spec fn within(first: int, end: u64, last: int) -> bool {
    first <= last <= greater(first, end as int)
}

/// How many multiples of `CLOCK_PERIOD` there are from `first` on and before `bound`.
pub open spec fn clock_stops(first: int, bound: int) -> nat
    decreases bound - first,
{
    if bound <= first {
        0
    } else if (bound - 1) % CLOCK_PERIOD as int == 0 {
        clock_stops(first, bound - 1) + 1
    } else {
        clock_stops(first, bound - 1)
    }
}

/// `readings` are those of a search of the nonces from `first` to `last`. The clock is read once at
/// each multiple of `CLOCK_PERIOD` that lies before `end`. The search ends at the first reading that
/// is not below `cutoff`, or else at the end of the range.
pub open spec fn timed(
    first: int,
    end: u64,
    cutoff: u64,
    last: int,
    readings: Seq<u64>,
) -> bool {
    &&& readings.len() == clock_stops(
        first,
        if last < end {
            last + 1
        } else {
            last
        },
    )
    &&& forall|i: int| 0 <= i < readings.len() - 1 ==> #[trigger] readings[i] < cutoff
    &&& if last < end {
        last % CLOCK_PERIOD as int == 0 && readings.last() >= cutoff
    } else {
        last == greater(first, end as int) && (readings.len() > 0 ==> readings.last() < cutoff)
    }
}

/// `report` is what a search of the nonces from `first` to `last` leaves behind.
pub open spec fn searched(
    challenge: Seq<u8>,
    first: int,
    end: u64,
    cutoff: u64,
    last: int,
    report: Report,
) -> bool {
    let c = candidates(challenge, first, last);
    &&& within(first, end, last)
    &&& timed(first, end, cutoff, last, report.readings@)
    &&& report.hashes == c.len()
    &&& report.hashes <= SOLUTIONS_PER_NONCE * (last - first + 1)
    &&& leads(c, first as u64, report.nonce, report.difficulty, report.hash@)
}

/// Tells whether the core `core` takes part in a search with `threads` threads.
pub fn core_takes_part(core: usize, threads: u32) -> (r: bool)
    ensures
        r == takes_part(core, threads),
{
    let low = core as u64 % 0x1_0000_0000u64;
    low < threads as u64
}

/// The first nonce of a core, if it fits in 64 bits.
pub fn first_nonce_of(start: u64, core: usize) -> (first: Option<u64>)
    ensures
        match first {
            Some(nonce) => nonce == first_nonce(start, core),
            None => first_nonce(start, core) > u64::MAX,
        },
{
    assert(0 <= NONCES_PER_CORE * core <= 10_000 * 0xffff_ffff_ffff_ffff) by (nonlinear_arith)
        requires
            NONCES_PER_CORE == 10_000,
            0 <= core <= 0xffff_ffff_ffff_ffff,
    ;
    let first: u128 = start as u128 + NONCES_PER_CORE as u128 * core as u128;
    if first <= u64::MAX as u128 {
        Some(first as u64)
    } else {
        None
    }
}

/// Searches the nonces of one core for the most difficult hash, until the range is done with or
/// `timer` shows `cutoff` seconds. There is nothing to report of a core that takes no part, or
/// whose first nonce or number of hashes does not fit in 64 bits; the number of hashes fits unless
/// there are more than `u64::MAX / SOLUTIONS_PER_NONCE` nonces.
pub fn search(
    challenge: &[u8; 32],
    nonces: &Range<u64>,
    core: usize,
    threads: u32,
    timer: &Instant,
    cutoff: u64,
) -> (report: Option<Report>)
    ensures
        match report {
            Some(report) => {
                &&& takes_part(core, threads)
                &&& first_nonce(nonces.start, core) <= u64::MAX
                &&& exists|last: int|
                    #[trigger] searched(
                        challenge@,
                        first_nonce(nonces.start, core),
                        nonces.end,
                        cutoff,
                        last,
                        report,
                    )
            },
            None => {
                ||| !takes_part(core, threads)
                ||| first_nonce(nonces.start, core) > u64::MAX
                ||| exists|last: int|
                    {
                        &&& #[trigger] within(first_nonce(nonces.start, core), nonces.end, last)
                        &&& candidates(challenge@, first_nonce(nonces.start, core), last).len()
                            > u64::MAX
                    }
            },
        },
        ({
            let first = first_nonce(nonces.start, core);
            let tries = greater(first, nonces.end as int) - first + 1;
            takes_part(core, threads) && first <= u64::MAX && SOLUTIONS_PER_NONCE * tries
                <= u64::MAX ==> report is Some
        }),
{
    if !core_takes_part(core, threads) {
        return None;
    }
    let first = match first_nonce_of(nonces.start, core) {
        Some(first) => first,
        None => {
            return None;
        },
    };
    search_from(challenge, first, nonces.end, timer, cutoff)
}

/// Searches the nonces from `first` on. It fails where the number of hashes does not fit in 64 bits.
fn search_from(challenge: &[u8; 32], first: u64, end: u64, timer: &Instant, cutoff: u64) -> (report:
    Option<Report>)
    ensures
        match report {
            Some(report) => exists|last: int|
                #[trigger] searched(challenge@, first as int, end, cutoff, last, report),
            None => exists|last: int|
                {
                    &&& #[trigger] within(first as int, end, last)
                    &&& candidates(challenge@, first as int, last).len() > u64::MAX
                    &&& SOLUTIONS_PER_NONCE * (last - first + 1) > u64::MAX
                },
        },
{
    let mut memory = SolverMemory::new();
    let mut state = Search::start(first);
    let mut readings: Vec<u64> = Vec::new();
    loop
        invariant
            within(first as int, end, state.nonce as int),
            state.hashes == candidates(challenge@, first as int, state.nonce - 1).len(),
            state.leads(candidates(challenge@, first as int, state.nonce - 1), first),
            state.hashes <= SOLUTIONS_PER_NONCE * (state.nonce - first),
            readings@.len() == clock_stops(first as int, state.nonce as int),
            forall|i: int| 0 <= i < readings@.len() ==> #[trigger] readings@[i] < cutoff,
        decreases greater(first as int, end as int) - state.nonce,
    {
        let ghost before = state;
        let ghost seen = candidates(challenge@, first as int, state.nonce - 1);
        let ghost all = candidates(challenge@, first as int, state.nonce as int);
        let nonce_bytes = to_le_bytes(state.nonce);
        let hashes = hashes_of_nonce(&mut memory, challenge, &nonce_bytes);
        let counted = state.absorb(&hashes);
        proof {
            let views = hashes@.map_values(|x: DrillHash| x@);
            assert(all == seen + tagged(before.nonce as int, views));
        }
        if !counted {
            assert(within(first as int, end, before.nonce as int));
            return None;
        }
        proof {
            lemma_leads_extends(before, state, seen, first, hashes@);
        }
        let mut elapsed: u64 = 0;
        if state.needs_clock(end) {
            elapsed = elapsed_secs(timer);
            readings.push(elapsed);
        }
        let goes_on = state.advance(end, elapsed, cutoff);
        if !goes_on {
            let report = Report {
                nonce: state.best_nonce,
                difficulty: state.best_difficulty,
                hash: state.best_hash,
                hashes: state.hashes,
                readings,
            };
            let found = Some(report);
            assert(searched(challenge@, first as int, end, cutoff, state.nonce as int, found->0));
            return found;
        }
    }
}

/// What leads before a nonce is tried, and what that nonce improves, make what leads after it.
proof fn lemma_leads_extends(
    before: Search,
    after: Search,
    c: Seq<Candidate>,
    fallback: u64,
    hashes: Seq<DrillHash>,
)
    requires
        before.leads(c, fallback),
        after.improves(before, hashes),
    ensures
        after.leads(
            c + tagged(before.nonce as int, hashes.map_values(|x: DrillHash| x@)),
            fallback,
        ),
{
    let views = hashes.map_values(|x: DrillHash| x@);
    let t = tagged(before.nonce as int, views);
    let all = c + t;
    let n = c.len() as int;
    assert(forall|j: int| 0 <= j < n ==> #[trigger] all[j] == c[j]);
    assert(forall|j: int| 0 <= j < hashes.len() ==> #[trigger] t[j].hash == hashes[j]@);
    assert forall|j: int| n <= j < all.len() implies weight(#[trigger] all[j]) == leading_zeros(
        hashes[j - n]@.1,
    ) by {
        assert(all[j] == t[j - n]);
    }
    assert forall|j: int| 0 <= j < n implies weight(#[trigger] all[j])
        <= before.best_difficulty by {
        assert(all[j] == c[j]);
    }
    if exists|i: int| #[trigger] after.improved_by(before, hashes, i) {
        let i = choose|i: int| #[trigger] after.improved_by(before, hashes, i);
        assert(all[n + i] == t[i]);
        assert(is_first_best(all, n + i));
        assert(led_by(
            all,
            n + i,
            after.best_nonce,
            after.best_difficulty,
            after.best_hash@,
        ));
    } else {
        let (nonce, difficulty, hash) = (
            before.best_nonce,
            before.best_difficulty,
            before.best_hash@,
        );
        if exists|i: int| #[trigger] led_by(c, i, nonce, difficulty, hash) {
            let i = choose|i: int| #[trigger] led_by(c, i, nonce, difficulty, hash);
            assert(all[i] == c[i]);
            assert(is_first_best(all, i));
            assert(led_by(all, i, nonce, difficulty, hash));
        }
    }
}

/// The best of what all cores report.
#[derive(Clone, Copy, Debug)]
pub struct Best {
    pub nonce: u64,
    pub difficulty: u32,
    pub hash: DrillHash,
    /// How many hashes were looked at on all cores.
    pub hashes: u64,
}

/// How many hashes the reports count together.
pub open spec fn total_hashes(reports: Seq<Option<Report>>) -> int
    decreases reports.len(),
{
    if reports.len() == 0 {
        0
    } else {
        total_hashes(reports.drop_last()) + match reports.last() {
            Some(report) => report.hashes as int,
            None => 0,
        }
    }
}

/// The difficulty that is reported; zero where there is no report.
pub open spec fn reported(report: Option<Report>) -> int {
    match report {
        Some(report) => report.difficulty as int,
        None => 0,
    }
}

/// `best` is report `i`, the first of those with the greatest difficulty.
pub open spec fn is_best_report(reports: Seq<Option<Report>>, i: int, best: Best) -> bool {
    &&& 0 <= i < reports.len()
    &&& reports[i] matches Some(report) && {
        &&& report.difficulty > 0
        &&& best.nonce == report.nonce
        &&& best.difficulty == report.difficulty
        &&& best.hash == report.hash
    }
    &&& forall|j: int|
        0 <= j < reports.len() ==> reported(#[trigger] reports[j]) <= reported(reports[i])
    &&& forall|j: int| 0 <= j < i ==> reported(#[trigger] reports[j]) < reported(reports[i])
}

/// `best` is the first of the reports with the greatest difficulty; where none reports any
/// difficulty, it is nonce zero with the hash of zeros.
pub open spec fn is_best(reports: Seq<Option<Report>>, best: Best) -> bool {
    ||| {
        &&& forall|j: int| 0 <= j < reports.len() ==> reported(#[trigger] reports[j]) == 0
        &&& best.nonce == 0
        &&& best.difficulty == 0
        &&& best.hash@ == zero_hash()
    }
    ||| exists|i: int| #[trigger] is_best_report(reports, i, best)
}

/// Tells whether the hashes of all reports can be counted in 64 bits.
pub fn total_fits(reports: &Vec<Option<Report>>) -> (fits: bool)
    ensures
        fits <==> total_hashes(reports@) <= u64::MAX,
{
    let mut total: u64 = 0;
    let mut k: usize = 0;
    while k < reports.len()
        invariant
            k <= reports@.len(),
            total == total_hashes(reports@.take(k as int)),
        decreases reports@.len() - k,
    {
        proof {
            assert(reports@.take(k + 1).drop_last() =~= reports@.take(k as int));
            lemma_total_grows(reports@, k + 1);
        }
        if let Some(report) = &reports[k] {
            match total.checked_add(report.hashes) {
                Some(sum) => {
                    total = sum;
                },
                None => {
                    return false;
                },
            }
        }
        k += 1;
    }
    assert(reports@.take(reports@.len() as int) =~= reports@);
    true
}

/// Picks the best of the reports and counts the hashes of all of them.
pub fn best_of(reports: &Vec<Option<Report>>) -> (best: Best)
    requires
        total_hashes(reports@) <= u64::MAX,
    ensures
        is_best(reports@, best),
        best.hashes == total_hashes(reports@),
{
    let mut best = Best { nonce: 0, difficulty: 0, hash: DrillHash::zero(), hashes: 0 };
    let mut k: usize = 0;
    while k < reports.len()
        invariant
            k <= reports@.len(),
            total_hashes(reports@) <= u64::MAX,
            is_best(reports@.take(k as int), best),
            best.hashes == total_hashes(reports@.take(k as int)),
        decreases reports@.len() - k,
    {
        let ghost seen = reports@.take(k as int);
        let ghost more = reports@.take(k + 1);
        let ghost last = best;
        proof {
            assert(more.drop_last() =~= seen);
            assert(forall|j: int| 0 <= j < k ==> #[trigger] more[j] == seen[j]);
            lemma_total_grows(reports@, k + 1);
        }
        if let Some(report) = &reports[k] {
            best.hashes = best.hashes + report.hashes;
            if report.difficulty > best.difficulty {
                best.difficulty = report.difficulty;
                best.nonce = report.nonce;
                best.hash = report.hash;
                assert(is_best_report(more, k as int, best));
            }
        }
        proof {
            if best.difficulty == last.difficulty && exists|i: int| #[trigger]
                is_best_report(seen, i, last) {
                let i = choose|i: int| #[trigger] is_best_report(seen, i, last);
                assert(more[i] == seen[i]);
                assert(is_best_report(more, i, best));
            }
        }
        k += 1;
    }
    assert(reports@.take(reports@.len() as int) =~= reports@);
    best
}

/// Some of the reports count no more hashes than all of them.
proof fn lemma_total_grows(reports: Seq<Option<Report>>, k: int)
    requires
        0 <= k <= reports.len(),
    ensures
        0 <= total_hashes(reports.take(k)) <= total_hashes(reports),
    decreases reports.len() - k, k,
{
    if k < reports.len() {
        lemma_total_grows(reports, k + 1);
        assert(reports.take(k + 1).drop_last() =~= reports.take(k));
    } else {
        assert(reports.take(k) =~= reports);
    }
    lemma_total_nonnegative(reports.take(k));
}

/// A count of hashes is not negative.
proof fn lemma_total_nonnegative(reports: Seq<Option<Report>>)
    ensures
        0 <= total_hashes(reports),
    decreases reports.len(),
{
    if reports.len() > 0 {
        lemma_total_nonnegative(reports.drop_last());
    }
}

/// The hashes per second, where a whole second has gone by.
pub fn hash_power(hashes: u64, secs: u64) -> (power: Option<u64>)
    ensures
        match power {
            Some(power) => secs > 0 && power == hashes / secs,
            None => secs == 0,
        },
{
    if secs == 0 {
        None
    } else {
        Some(hashes / secs)
    }
}

/// The first core begins where the range does, each further core 10,000 nonces later, and no core
/// before the range.
pub proof fn lemma_first_nonces_apart(start: u64, a: usize, b: usize)
    ensures
        first_nonce(start, 0) == start,
        first_nonce(start, b) - first_nonce(start, a) == 10_000 * (b - a),
        first_nonce(start, a) >= start,
{
    assert(NONCES_PER_CORE * b - NONCES_PER_CORE * a == NONCES_PER_CORE * (b - a))
        by (nonlinear_arith);
    assert(NONCES_PER_CORE * a >= 0) by (nonlinear_arith)
        requires
            a >= 0,
    ;
}

/// Where a core begins follows from the start of the range and the number of the core alone: it is
/// found, if it fits in 64 bits, 10,000 nonces behind the start for each core before.
pub proof fn lemma_first_nonce_of(start: u64, core: usize, first: Option<u64>)
    requires
        call_ensures(first_nonce_of, (start, core), first),
    ensures
        first is Some <==> start + 10_000 * core <= u64::MAX,
        first matches Some(nonce) ==> nonce == start + 10_000 * core,
{
    lemma_first_nonces_apart(start, 0, core);
}

/// As many cores take part as there are to be threads: those with the lowest numbers. Only the low
/// 32 bits of a number count.
pub proof fn lemma_lowest_cores_take_part(core: usize, threads: u32, r: bool)
    requires
        call_ensures(core_takes_part, (core, threads), r),
    ensures
        core < 0x1_0000_0000 ==> (r <==> core < threads),
        core >= 0x1_0000_0000 ==> (r <==> takes_part(
            (core - 0x1_0000_0000) as usize,
            threads,
        )),
        r == takes_part(core, threads),
{
}

/// The solutions for a range of nonces are those for its two parts, the lower part first.
pub proof fn lemma_candidates_of_parts(challenge: Seq<u8>, first: int, middle: int, last: int)
    requires
        first <= middle + 1,
        middle <= last,
    ensures
        candidates(challenge, first, last) == candidates(challenge, first, middle) + candidates(
            challenge,
            middle + 1,
            last,
        ),
    decreases last - middle,
{
    if middle < last {
        lemma_candidates_of_parts(challenge, first, middle, last - 1);
        assert(candidates(challenge, first, last) =~= candidates(challenge, first, middle)
            + candidates(challenge, middle + 1, last));
    } else {
        assert(candidates(challenge, first, last) =~= candidates(challenge, first, middle)
            + candidates(challenge, middle + 1, last));
    }
}

/// The solutions for one nonce are all that the solver finds for it, in the solver's order.
pub proof fn lemma_candidates_of_nonce(challenge: Seq<u8>, nonce: int)
    ensures
        candidates(challenge, nonce, nonce).len() == drillx_hashes(
            challenge,
            le_bytes(nonce as u64),
        ).len(),
        forall|k: int|
            0 <= k < candidates(challenge, nonce, nonce).len() ==> {
                let c = #[trigger] candidates(challenge, nonce, nonce)[k];
                c.nonce == nonce && c.hash == drillx_hashes(challenge, le_bytes(nonce as u64))[k]
            },
{
    reveal_with_fuel(candidates, 2);
}

/// There are as many candidates as the solver finds solutions for all nonces of the range together.
pub proof fn lemma_candidates_are_counted(challenge: Seq<u8>, first: int, last: int)
    requires
        first <= last + 1,
    ensures
        candidates(challenge, first, last).len() == Seq::new(
            (last - first + 1) as nat,
            |i: int| drillx_hashes(challenge, le_bytes((first + i) as u64)).len() as int,
        ).fold_left(0int, |sum: int, n: int| sum + n),
    decreases last - first + 1,
{
    let count = |i: int| drillx_hashes(challenge, le_bytes((first + i) as u64)).len() as int;
    let plus = |sum: int, n: int| sum + n;
    let counts = Seq::new((last - first + 1) as nat, count);
    if first <= last {
        lemma_candidates_are_counted(challenge, first, last - 1);
        assert(counts.drop_last() =~= Seq::new((last - 1 - first + 1) as nat, count));
        assert(counts.last() == drillx_hashes(challenge, le_bytes(last as u64)).len());
        assert(counts.fold_left(0int, plus) == plus(
            counts.drop_last().fold_left(0int, plus),
            counts.last(),
        ));
    } else {
        assert(counts.fold_left(0int, plus) == 0);
    }
}

/// Each solution that the solver finds for a nonce of the range is a candidate, with that nonce.
pub proof fn lemma_candidates_are_complete(
    challenge: Seq<u8>,
    first: int,
    last: int,
    nonce: int,
    k: int,
) -> (i: int)
    requires
        first <= nonce <= last,
        0 <= k < drillx_hashes(challenge, le_bytes(nonce as u64)).len(),
    ensures
        0 <= i < candidates(challenge, first, last).len(),
        candidates(challenge, first, last)[i].nonce == nonce,
        candidates(challenge, first, last)[i].hash == drillx_hashes(
            challenge,
            le_bytes(nonce as u64),
        )[k],
    decreases last - first + 1,
{
    let earlier = candidates(challenge, first, last - 1);
    if nonce == last {
        earlier.len() + k
    } else {
        let i = lemma_candidates_are_complete(challenge, first, last - 1, nonce, k);
        assert(candidates(challenge, first, last)[i] == earlier[i]);
        i
    }
}

/// Candidates come in the order of their nonces.
pub proof fn lemma_candidates_in_order(challenge: Seq<u8>, first: int, last: int, i: int, j: int)
    requires
        0 <= i <= j < candidates(challenge, first, last).len(),
    ensures
        candidates(challenge, first, last)[i].nonce <= candidates(challenge, first, last)[j].nonce,
    decreases last - first + 1,
{
    let c = candidates(challenge, first, last);
    let earlier = candidates(challenge, first, last - 1);
    if j < earlier.len() {
        lemma_candidates_in_order(challenge, first, last - 1, i, j);
        assert(c[i] == earlier[i] && c[j] == earlier[j]);
    } else {
        lemma_candidates_are_solutions(challenge, first, last, i);
    }
}

/// Where a candidate stands among the solutions for its nonce: those before it come right before.
proof fn lemma_candidate_place(challenge: Seq<u8>, first: int, last: int, i: int) -> (k: int)
    requires
        0 <= i < candidates(challenge, first, last).len(),
    ensures
        ({
            let c = candidates(challenge, first, last);
            let hashes = drillx_hashes(challenge, le_bytes(c[i].nonce as u64));
            &&& 0 <= k < hashes.len()
            &&& k <= i
            &&& hashes[k] == c[i].hash
            &&& forall|j: int| 0 <= j < k ==> (#[trigger] hashes[j]) == c[i - k + j].hash
        }),
    decreases last - first + 1,
{
    let c = candidates(challenge, first, last);
    let earlier = candidates(challenge, first, last - 1);
    if i < earlier.len() {
        assert(c[i] == earlier[i]);
        let k = lemma_candidate_place(challenge, first, last - 1, i);
        assert forall|j: int| 0 <= j < k implies (#[trigger] drillx_hashes(
            challenge,
            le_bytes(c[i].nonce as u64),
        )[j]) == c[i - k + j].hash by {
            assert(c[i - k + j] == earlier[i - k + j]);
        }
        k
    } else {
        i - earlier.len()
    }
}

/// A candidate is a solution of the puzzle for its nonce, which lies in the range.
pub proof fn lemma_candidates_are_solutions(challenge: Seq<u8>, first: int, last: int, i: int)
    requires
        0 <= i < candidates(challenge, first, last).len(),
    ensures
        first <= candidates(challenge, first, last)[i].nonce <= last,
        ({
            let c = candidates(challenge, first, last)[i];
            drillx_hashes(challenge, le_bytes(c.nonce as u64)).contains(c.hash)
        }),
    decreases last - first + 1,
{
    let c = candidates(challenge, first, last);
    let earlier = candidates(challenge, first, last - 1);
    let hashes = drillx_hashes(challenge, le_bytes(last as u64));
    if i < earlier.len() {
        assert(c[i] == earlier[i]);
        lemma_candidates_are_solutions(challenge, first, last - 1, i);
    } else {
        assert(c[i] == tagged(last, hashes)[i - earlier.len()]);
        assert(hashes[i - earlier.len()] == c[i].hash);
    }
}

/// At each multiple of `CLOCK_PERIOD` that a search goes past, the clock shows less than `cutoff`
/// seconds. So with a cutoff of zero it goes past none.
pub proof fn lemma_time_left_to_go_on(
    first: int,
    end: u64,
    cutoff: u64,
    last: int,
    readings: Seq<u64>,
    n: int,
)
    requires
        within(first, end, last),
        timed(first, end, cutoff, last, readings),
        first <= n < last,
        n % CLOCK_PERIOD as int == 0,
    ensures
        clock_stops(first, n) < readings.len(),
        readings[clock_stops(first, n) as int] < cutoff,
        cutoff > 0,
{
    lemma_clock_stops_grow(first, n + 1, last);
    assert(clock_stops(first, n + 1) == clock_stops(first, n) + 1);
    if last < end {
        assert(readings.len() == clock_stops(first, last) + 1);
    }
}

/// There are no fewer multiples before a greater bound.
proof fn lemma_clock_stops_grow(first: int, bound: int, greater: int)
    requires
        bound <= greater,
    ensures
        clock_stops(first, bound) <= clock_stops(first, greater),
    decreases greater - bound,
{
    if bound < greater {
        lemma_clock_stops_grow(first, bound, greater - 1);
    }
}

/// A report names a solution of the puzzle for a nonce that was tried, as difficult as it says.
/// Nothing that the solver finds for any nonce that was tried is more difficult; of what is as
/// difficult, the lowest nonce is named, and what the solver finds first for it. Only where nothing
/// has any difficulty is no solution named. All that the solver finds is counted.
pub proof fn lemma_report_is_solution(
    challenge: Seq<u8>,
    first: int,
    end: u64,
    cutoff: u64,
    last: int,
    report: Report,
)
    requires
        searched(challenge, first, end, cutoff, last, report),
    ensures
        report.difficulty > 0 ==> {
            &&& first <= report.nonce <= last
            &&& report.difficulty == leading_zeros(report.hash@.1)
            &&& drillx_hashes(challenge, le_bytes(report.nonce)).contains(report.hash@)
        },
        forall|i: int|
            0 <= i < candidates(challenge, first, last).len() ==> weight(
                #[trigger] candidates(challenge, first, last)[i],
            ) <= report.difficulty,
        forall|n: int, k: int|
            first <= n <= last && 0 <= k < drillx_hashes(challenge, le_bytes(n as u64)).len() ==> {
                let hash = #[trigger] drillx_hashes(challenge, le_bytes(n as u64))[k];
                &&& leading_zeros(hash.1) <= report.difficulty
                &&& report.difficulty > 0 && leading_zeros(hash.1) == report.difficulty
                    ==> report.nonce <= n
            },
        report.difficulty > 0 ==> exists|k: int|
            {
                &&& 0 <= k < drillx_hashes(challenge, le_bytes(report.nonce)).len()
                &&& #[trigger] drillx_hashes(challenge, le_bytes(report.nonce))[k] == report.hash@
                &&& forall|j: int|
                    0 <= j < k ==> leading_zeros(
                        (#[trigger] drillx_hashes(challenge, le_bytes(report.nonce))[j]).1,
                    ) < report.difficulty
            },
        report.difficulty == 0 ==> {
            &&& report.nonce == first as u64
            &&& forall|i: int| 0 <= i < 16 ==> #[trigger] report.hash.d@[i] == 0
            &&& forall|i: int| 0 <= i < 32 ==> #[trigger] report.hash.h@[i] == 0
        },
        report.hashes == Seq::new(
            (last - first + 1) as nat,
            |i: int| drillx_hashes(challenge, le_bytes((first + i) as u64)).len() as int,
        ).fold_left(0int, |sum: int, n: int| sum + n),
{
    let c = candidates(challenge, first, last);
    lemma_candidates_are_counted(challenge, first, last);
    if report.difficulty > 0 {
        let i = choose|i: int| #[trigger]
            led_by(c, i, report.nonce, report.difficulty, report.hash@);
        lemma_candidates_are_solutions(challenge, first, last, i);
        let k = lemma_candidate_place(challenge, first, last, i);
        let hashes = drillx_hashes(challenge, le_bytes(report.nonce));
        assert(hashes[k] == report.hash@);
        assert forall|j: int| 0 <= j < k implies leading_zeros((#[trigger] hashes[j]).1)
            < report.difficulty by {
            assert(weight(c[i - k + j]) < weight(c[i]));
        }
    } else {
        assert(report.hash@ == zero_hash());
        assert forall|i: int| 0 <= i < 16 implies #[trigger] report.hash.d@[i] == 0 by {
            assert(report.hash@.0[i] == zero_hash().0[i]);
        }
        assert forall|i: int| 0 <= i < 32 implies #[trigger] report.hash.h@[i] == 0 by {
            assert(report.hash@.1[i] == zero_hash().1[i]);
        }
    }
    assert forall|n: int, k: int|
        first <= n <= last && 0 <= k < drillx_hashes(
            challenge,
            le_bytes(n as u64),
        ).len() implies {
        let hash = #[trigger] drillx_hashes(challenge, le_bytes(n as u64))[k];
        &&& leading_zeros(hash.1) <= report.difficulty
        &&& report.difficulty > 0 && leading_zeros(hash.1) == report.difficulty ==> report.nonce
            <= n
    } by {
        let j = lemma_candidates_are_complete(challenge, first, last, n, k);
        assert(weight(c[j]) <= report.difficulty);
        if report.difficulty > 0 && weight(c[j]) == report.difficulty {
            let i = choose|i: int| #[trigger]
                led_by(c, i, report.nonce, report.difficulty, report.hash@);
            assert(i <= j);
            lemma_candidates_in_order(challenge, first, last, i, j);
        }
    }
}

/// Between two bounds, one in fifty nonces is a multiple of fifty.
pub proof fn lemma_clock_stops_are_counted(first: int, bound: int)
    requires
        0 <= first <= bound,
    ensures
        clock_stops(first, bound) == (bound + 49) / 50 - (first + 49) / 50,
    decreases bound - first,
{
    if first < bound {
        lemma_clock_stops_are_counted(first, bound - 1);
    }
}

/// A search tries its first nonce, and all nonces up to the end of the range unless the clock, which
/// is read at every fiftieth nonce, shows that the time is up: it goes on past each reading that
/// shows less than `cutoff` seconds, and ends at the first that does not.
pub proof fn lemma_search_ends_in_time(
    challenge: Seq<u8>,
    first: int,
    end: u64,
    cutoff: u64,
    last: int,
    report: Report,
)
    requires
        0 <= first,
        searched(challenge, first, end, cutoff, last, report),
    ensures
        first <= last,
        last <= end || last == first,
        last < end ==> {
            &&& last % 50 == 0
            &&& report.readings@.len() == (last + 50) / 50 - (first + 49) / 50
            &&& report.readings@.len() > 0
            &&& report.readings@.last() >= cutoff
            &&& forall|i: int|
                0 <= i < report.readings@.len() - 1 ==> #[trigger] report.readings@[i] < cutoff
        },
        last >= end ==> {
            &&& report.readings@.len() == (last + 49) / 50 - (first + 49) / 50
            &&& forall|i: int|
                0 <= i < report.readings@.len() ==> #[trigger] report.readings@[i] < cutoff
        },
{
    if last < end {
        lemma_clock_stops_are_counted(first, last + 1);
    } else {
        lemma_clock_stops_are_counted(first, last);
    }
}

/// What a core reports of a range, from its inputs alone: it has tried the nonces from its own first
/// one on, to some last one; it names a most difficult of all solutions for those, and counts them.
pub proof fn lemma_search_of_a_core(
    challenge: &[u8; 32],
    nonces: &Range<u64>,
    core: usize,
    threads: u32,
    timer: &Instant,
    cutoff: u64,
    report: Option<Report>,
)
    requires
        call_ensures(search, (challenge, nonces, core, threads, timer, cutoff), report),
    ensures
        core < 0x1_0000_0000 && core >= threads ==> report is None,
        nonces.start + 10_000 * core > u64::MAX ==> report is None,
        core < threads && nonces.start + 10_000 * core <= u64::MAX && (nonces.start + 10_000 * core
            <= nonces.end ==> 8 * (nonces.end - (nonces.start + 10_000 * core) + 1) <= u64::MAX)
            ==> report is Some,
        report matches Some(report) ==> exists|last: int|
            #![trigger searched(
                challenge@,
                nonces.start + 10_000 * core,
                nonces.end,
                cutoff,
                last,
                report,
            )]
            {
                let first = nonces.start + 10_000 * core;
                &&& searched(challenge@, first, nonces.end, cutoff, last, report)
                &&& nonces.start <= first <= last
                &&& last <= nonces.end || last == first
                &&& last < nonces.end ==> last % 50 == 0 && report.readings@.len() > 0
                    && report.readings@.last() >= cutoff
                &&& report.difficulty > 0 ==> first <= report.nonce <= last && drillx_hashes(
                    challenge@,
                    le_bytes(report.nonce),
                ).contains(report.hash@) && report.difficulty == leading_zeros(report.hash@.1)
                &&& forall|n: int, k: int|
                    first <= n <= last && 0 <= k < drillx_hashes(
                        challenge@,
                        le_bytes(n as u64),
                    ).len() ==> leading_zeros(
                        (#[trigger] drillx_hashes(challenge@, le_bytes(n as u64))[k]).1,
                    ) <= report.difficulty
                &&& report.hashes == Seq::new(
                    (last - first + 1) as nat,
                    |i: int| drillx_hashes(challenge@, le_bytes((first + i) as u64)).len() as int,
                ).fold_left(0int, |sum: int, n: int| sum + n)
            },
{
    let first = nonces.start + 10_000 * core;
    lemma_first_nonces_apart(nonces.start, 0, core);
    assert(first_nonce(nonces.start, core) == first);
    if let Some(report) = report {
        let last = choose|last: int| #[trigger]
            searched(challenge@, first_nonce(nonces.start, core), nonces.end, cutoff, last, report);
        assert(searched(challenge@, first, nonces.end, cutoff, last, report));
        lemma_report_is_solution(challenge@, first, nonces.end, cutoff, last, report);
        lemma_search_ends_in_time(challenge@, first, nonces.end, cutoff, last, report);
    }
}

/// Two answers to which of some candidates leads are the same answer.
pub proof fn lemma_leader_is_unique(
    c: Seq<Candidate>,
    fallback: u64,
    nonce1: u64,
    difficulty1: u32,
    hash1: (Seq<u8>, Seq<u8>),
    nonce2: u64,
    difficulty2: u32,
    hash2: (Seq<u8>, Seq<u8>),
)
    requires
        leads(c, fallback, nonce1, difficulty1, hash1),
        leads(c, fallback, nonce2, difficulty2, hash2),
    ensures
        nonce1 == nonce2,
        difficulty1 == difficulty2,
        hash1 == hash2,
{
    if exists|i: int| #[trigger] led_by(c, i, nonce1, difficulty1, hash1) {
        let i = choose|i: int| #[trigger] led_by(c, i, nonce1, difficulty1, hash1);
        let j = choose|j: int| #[trigger] led_by(c, j, nonce2, difficulty2, hash2);
        assert(weight(c[i]) > 0);
        assert(led_by(c, j, nonce2, difficulty2, hash2));
        assert(weight(c[i]) <= weight(c[j]) && weight(c[j]) <= weight(c[i]));
        assert(i == j);
    } else if exists|j: int| #[trigger] led_by(c, j, nonce2, difficulty2, hash2) {
        let j = choose|j: int| #[trigger] led_by(c, j, nonce2, difficulty2, hash2);
        assert(weight(c[j]) > 0);
    }
}

/// The count of all hashes is the sum of the counts of the reports.
pub proof fn lemma_total_is_sum(reports: Seq<Option<Report>>)
    ensures
        total_hashes(reports) == reports.map_values(
            |report: Option<Report>|
                match report {
                    Some(report) => report.hashes as int,
                    None => 0,
                },
        ).fold_left(0int, |sum: int, n: int| sum + n),
    decreases reports.len(),
{
    let count = |report: Option<Report>|
        match report {
            Some(report) => report.hashes as int,
            None => 0,
        };
    let plus = |sum: int, n: int| sum + n;
    let counts = reports.map_values(count);
    if reports.len() > 0 {
        lemma_total_is_sum(reports.drop_last());
        assert(counts.drop_last() =~= reports.drop_last().map_values(count));
        assert(counts.fold_left(0int, plus) == plus(
            counts.drop_last().fold_left(0int, plus),
            counts.last(),
        ));
    } else {
        assert(counts.fold_left(0int, plus) == 0);
    }
}

/// The best of some reports is one of them, with its nonce, its difficulty and its hash; none is
/// more difficult, and none before it is as difficult. Only where no report has any difficulty is it
/// none of them. The hashes of all reports are counted.
pub proof fn lemma_best_of_reports(reports: &Vec<Option<Report>>, best: Best)
    requires
        call_ensures(best_of, (reports,), best),
    ensures
        forall|j: int|
            0 <= j < reports@.len() ==> ((#[trigger] reports@[j]) matches Some(report)
                ==> report.difficulty <= best.difficulty),
        best.difficulty > 0 ==> exists|i: int|
            {
                &&& 0 <= i < reports@.len()
                &&& (#[trigger] reports@[i]) matches Some(report) && report.nonce == best.nonce
                    && report.difficulty == best.difficulty && report.hash == best.hash
                &&& forall|j: int|
                    0 <= j < i ==> ((#[trigger] reports@[j]) matches Some(report)
                        ==> report.difficulty < best.difficulty)
            },
        best.difficulty == 0 ==> {
            &&& best.nonce == 0
            &&& forall|i: int| 0 <= i < 16 ==> #[trigger] best.hash.d@[i] == 0
            &&& forall|i: int| 0 <= i < 32 ==> #[trigger] best.hash.h@[i] == 0
        },
        best.hashes == reports@.map_values(
            |report: Option<Report>|
                match report {
                    Some(report) => report.hashes as int,
                    None => 0,
                },
        ).fold_left(0int, |sum: int, n: int| sum + n),
{
    lemma_total_is_sum(reports@);
    lemma_best_is_one_of_the_reports(reports@, best);
}

/// What is the best of some reports, in terms of the reports themselves.
pub proof fn lemma_best_is_one_of_the_reports(reports: Seq<Option<Report>>, best: Best)
    requires
        is_best(reports, best),
    ensures
        forall|j: int|
            0 <= j < reports.len() ==> ((#[trigger] reports[j]) matches Some(report)
                ==> report.difficulty <= best.difficulty),
        best.difficulty > 0 ==> exists|i: int|
            {
                &&& 0 <= i < reports.len()
                &&& (#[trigger] reports[i]) matches Some(report) && report.nonce == best.nonce
                    && report.difficulty == best.difficulty && report.hash == best.hash
                &&& forall|j: int|
                    0 <= j < i ==> ((#[trigger] reports[j]) matches Some(report)
                        ==> report.difficulty < best.difficulty)
            },
        best.difficulty == 0 ==> {
            &&& best.nonce == 0
            &&& forall|i: int| 0 <= i < 16 ==> #[trigger] best.hash.d@[i] == 0
            &&& forall|i: int| 0 <= i < 32 ==> #[trigger] best.hash.h@[i] == 0
        },
{
    if best.difficulty > 0 {
        let i = choose|i: int| #[trigger] is_best_report(reports, i, best);
        assert forall|j: int| 0 <= j < reports.len() implies ((#[trigger] reports[j]) matches Some(
            report,
        ) ==> report.difficulty <= best.difficulty) by {
            assert(reported(reports[j]) <= reported(reports[i]));
        }
        assert(reports[i] is Some);
        assert forall|j: int| 0 <= j < i implies ((#[trigger] reports[j]) matches Some(report)
            ==> report.difficulty < best.difficulty) by {
            assert(reported(reports[j]) < reported(reports[i]));
        }
    } else {
        assert forall|j: int| 0 <= j < reports.len() implies ((#[trigger] reports[j]) matches Some(
            report,
        ) ==> report.difficulty <= best.difficulty) by {
            assert(reported(reports[j]) == 0);
        }
        assert(best.hash@ == zero_hash());
        assert forall|i: int| 0 <= i < 16 implies #[trigger] best.hash.d@[i] == 0 by {
            assert(best.hash@.0[i] == zero_hash().0[i]);
        }
        assert forall|i: int| 0 <= i < 32 implies #[trigger] best.hash.h@[i] == 0 by {
            assert(best.hash@.1[i] == zero_hash().1[i]);
        }
    }
}

/// The hashes of all reports can be counted just if their sum fits in 64 bits.
pub proof fn lemma_total_that_fits(reports: &Vec<Option<Report>>, fits: bool)
    requires
        call_ensures(total_fits, (reports,), fits),
    ensures
        fits <==> reports@.map_values(
            |report: Option<Report>|
                match report {
                    Some(report) => report.hashes as int,
                    None => 0,
                },
        ).fold_left(0int, |sum: int, n: int| sum + n) <= u64::MAX,
{
    lemma_total_is_sum(reports@);
}

/// Taking in the hashes of a nonce keeps the best: what is best afterwards is what was best before,
/// or the first of the most difficult of the hashes where that is more difficult.
pub proof fn lemma_best_is_kept(before: Search, after: Search, hashes: Seq<DrillHash>)
    requires
        after.improves(before, hashes),
    ensures
        before.best_difficulty <= after.best_difficulty,
        forall|j: int|
            0 <= j < hashes.len() ==> leading_zeros((#[trigger] hashes[j]).h@)
                <= after.best_difficulty,
        after.best_difficulty == before.best_difficulty ==> after.best_nonce == before.best_nonce
            && after.best_hash == before.best_hash,
        after.best_difficulty > before.best_difficulty ==> after.best_nonce == before.nonce
            && exists|i: int|
            {
                &&& 0 <= i < hashes.len()
                &&& #[trigger] hashes[i] == after.best_hash
                &&& leading_zeros(hashes[i].h@) == after.best_difficulty
                &&& forall|j: int|
                    0 <= j < i ==> leading_zeros((#[trigger] hashes[j]).h@) < after.best_difficulty
            },
{
    if exists|i: int| #[trigger] after.improved_by(before, hashes, i) {
        let i = choose|i: int| #[trigger] after.improved_by(before, hashes, i);
        assert(hashes[i] == after.best_hash);
    }
}

/// The hashes per second, times the seconds, come as close to the hashes as whole numbers do.
pub proof fn lemma_hash_power(hashes: u64, secs: u64, power: Option<u64>)
    requires
        call_ensures(hash_power, (hashes, secs), power),
    ensures
        power is None <==> secs == 0,
        power matches Some(power) ==> power * secs <= hashes < (power + 1) * secs,
{
    if secs > 0 {
        let power = power->0;
        let rest = hashes as int % secs as int;
        vstd::arithmetic::div_mod::lemma_fundamental_div_mod(hashes as int, secs as int);
        vstd::arithmetic::div_mod::lemma_mod_bound(hashes as int, secs as int);
        assert(power * secs <= hashes < (power + 1) * secs) by (nonlinear_arith)
            requires
                hashes == secs * power + rest,
                0 <= rest < secs,
        ;
    }
}

/// Two answers to which of some reports is the best are the same answer.
pub proof fn lemma_best_is_unique(reports: Seq<Option<Report>>, best1: Best, best2: Best)
    requires
        is_best(reports, best1),
        is_best(reports, best2),
    ensures
        best1.nonce == best2.nonce,
        best1.difficulty == best2.difficulty,
        best1.hash@ == best2.hash@,
{
    if exists|i: int| #[trigger] is_best_report(reports, i, best1) {
        let i = choose|i: int| #[trigger] is_best_report(reports, i, best1);
        assert(reported(reports[i]) > 0);
        let j = choose|j: int| #[trigger] is_best_report(reports, j, best2);
        assert(reported(reports[i]) <= reported(reports[j]));
        assert(reported(reports[j]) <= reported(reports[i]));
        assert(i == j);
    } else if exists|j: int| #[trigger] is_best_report(reports, j, best2) {
        let j = choose|j: int| #[trigger] is_best_report(reports, j, best2);
        assert(reported(reports[j]) > 0);
    }
}

/// What a round reports is a solution of the puzzle for a nonce that some core tried, and nothing
/// that any core tried is more difficult. Each core `k` that reports has searched from its first
/// nonce to `lasts[k]`.
pub proof fn lemma_best_of_round(
    challenge: Seq<u8>,
    nonces: Range<u64>,
    cutoff: u64,
    cores: Seq<usize>,
    lasts: Seq<int>,
    reports: Seq<Option<Report>>,
    best: Best,
)
    requires
        cores.len() == reports.len(),
        lasts.len() == reports.len(),
        forall|k: int|
            0 <= k < reports.len() ==> ((#[trigger] reports[k]) matches Some(report) ==> searched(
                challenge,
                first_nonce(nonces.start, cores[k]),
                nonces.end,
                cutoff,
                lasts[k],
                report,
            )),
        is_best(reports, best),
    ensures
        best.difficulty > 0 ==> {
            &&& best.difficulty == leading_zeros(best.hash@.1)
            &&& drillx_hashes(challenge, le_bytes(best.nonce)).contains(best.hash@)
            &&& exists|k: int|
                0 <= k < reports.len() && (#[trigger] reports[k]) is Some && first_nonce(
                    nonces.start,
                    cores[k],
                ) <= best.nonce <= lasts[k]
        },
        forall|k: int, i: int|
            0 <= k < reports.len() && reports[k] is Some && 0 <= i < candidates(
                challenge,
                first_nonce(nonces.start, cores[k]),
                lasts[k],
            ).len() ==> weight(
                #[trigger] candidates(challenge, first_nonce(nonces.start, cores[k]), lasts[k])[i],
            ) <= best.difficulty,
{
    if best.difficulty > 0 {
        let k = choose|k: int| #[trigger] is_best_report(reports, k, best);
        let report = reports[k]->0;
        lemma_report_is_solution(
            challenge,
            first_nonce(nonces.start, cores[k]),
            nonces.end,
            cutoff,
            lasts[k],
            report,
        );
    }
    assert forall|k: int, i: int|
        0 <= k < reports.len() && reports[k] is Some && 0 <= i < candidates(
            challenge,
            first_nonce(nonces.start, cores[k]),
            lasts[k],
        ).len() implies weight(
        #[trigger] candidates(challenge, first_nonce(nonces.start, cores[k]), lasts[k])[i],
    ) <= best.difficulty by {
        lemma_report_is_solution(
            challenge,
            first_nonce(nonces.start, cores[k]),
            nonces.end,
            cutoff,
            lasts[k],
            reports[k]->0,
        );
        assert(reported(reports[k]) <= best.difficulty);
    }
}

/// The difficulty of a hash is the place of its first one bit, counted from the highest bit of the
/// first byte: all bits before it are zero.
pub proof fn lemma_difficulty_is_first_one_bit(s: Seq<u8>)
    ensures
        leading_zeros(s) <= 8 * s.len(),
        forall|j: int|
            0 <= j < leading_zeros(s) ==> (#[trigger] bit(s, j)) == 0,
        leading_zeros(s) < 8 * s.len() ==> bit(s, leading_zeros(s) as int) == 1,
    decreases s.len(),
{
    if s.len() > 0 {
        let b = s[0];
        lemma_bits_of_byte(b);
        if b == 0 {
            let t = s.drop_first();
            lemma_difficulty_is_first_one_bit(t);
            assert forall|j: int| 0 <= j < leading_zeros(s) implies (#[trigger] bit(s, j)) == 0 by {
                if j < 8 {
                    assert(j / 8 == 0 && j % 8 == j);
                    assert(bit_of_byte(b, j) == 0);
                } else {
                    assert((j - 8) / 8 == j / 8 - 1 && (j - 8) % 8 == j % 8);
                    assert(bit(t, j - 8) == 0);
                }
            }
            let k = leading_zeros(t) as int;
            assert((k + 8) / 8 == k / 8 + 1 && (k + 8) % 8 == k % 8);
        } else {
            let k = leading_zeros(s) as int;
            assert(k < 8 && k / 8 == 0 && k % 8 == k);
            assert forall|j: int| 0 <= j < k implies (#[trigger] bit(s, j)) == 0 by {
                assert(j / 8 == 0 && j % 8 == j);
                assert(bit_of_byte(b, j) == 0);
            }
            assert(bit_of_byte(b, k) == 1);
        }
    }
}

/// Bit `j` of a byte, counted from the highest.
pub open spec fn bit_of_byte(b: u8, j: int) -> u8 {
    (b >> (7 - j) as u8) & 1
}

/// Bit `j` of some bytes, counted from the highest bit of the first.
pub open spec fn bit(s: Seq<u8>, j: int) -> u8 {
    bit_of_byte(s[j / 8], j % 8)
}

/// The bits of a byte up to its first one bit.
proof fn lemma_bits_of_byte(b: u8)
    ensures
        forall|j: int|
            0 <= j < leading_zeros_of_byte(b) ==> (#[trigger] bit_of_byte(b, j)) == 0,
        b != 0 ==> leading_zeros_of_byte(b) < 8 && bit_of_byte(
            b,
            leading_zeros_of_byte(b) as int,
        ) == 1,
        b == 0 ==> leading_zeros_of_byte(b) == 8,
{
    assert((b < 0x80 ==> (b >> 7) & 1 == 0) && (b >= 0x80 ==> (b >> 7) & 1 == 1)) by (bit_vector);
    assert((b < 0x40 ==> (b >> 6) & 1 == 0) && (0x40 <= b < 0x80 ==> (b >> 6) & 1 == 1))
        by (bit_vector);
    assert((b < 0x20 ==> (b >> 5) & 1 == 0) && (0x20 <= b < 0x40 ==> (b >> 5) & 1 == 1))
        by (bit_vector);
    assert((b < 0x10 ==> (b >> 4) & 1 == 0) && (0x10 <= b < 0x20 ==> (b >> 4) & 1 == 1))
        by (bit_vector);
    assert((b < 0x08 ==> (b >> 3) & 1 == 0) && (0x08 <= b < 0x10 ==> (b >> 3) & 1 == 1))
        by (bit_vector);
    assert((b < 0x04 ==> (b >> 2) & 1 == 0) && (0x04 <= b < 0x08 ==> (b >> 2) & 1 == 1))
        by (bit_vector);
    assert((b < 0x02 ==> (b >> 1) & 1 == 0) && (0x02 <= b < 0x04 ==> (b >> 1) & 1 == 1))
        by (bit_vector);
    assert((b < 0x01 ==> (b >> 0) & 1 == 0) && (0x01 <= b < 0x02 ==> (b >> 0) & 1 == 1))
        by (bit_vector);
    assert forall|j: int| 0 <= j < leading_zeros_of_byte(b) implies (#[trigger] bit_of_byte(b, j))
        == 0 by {
        assert(j == 0 || j == 1 || j == 2 || j == 3 || j == 4 || j == 5 || j == 6 || j == 7);
    }
}

} // verus!
