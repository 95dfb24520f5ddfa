//! Moments of the wall clock.

use vstd::prelude::*;

verus! {

/// The number of nanoseconds in a second.
pub const NANOS_PER_SEC: u32 = 1_000_000_000;

/// A moment, by its distance from the Unix epoch.
#[derive(Clone, Copy, Debug)]
pub struct Moment {
    /// Whether the moment lies before the epoch rather than after it.
    pub before_epoch: bool,
    pub secs: u64,
    pub nanos: u32,
}

/// The nanoseconds from the epoch to the moment, negative before the epoch.
impl View for Moment {
    type V = int;

    open spec fn view(&self) -> int {
        let distance = self.secs * 1_000_000_000 + self.nanos;
        if self.before_epoch {
            -distance
        } else {
            distance
        }
    }
}

/// Calls `std::time::SystemTime::now` and turns what it returns into its distance from
/// `std::time::UNIX_EPOCH`, in whichever direction. Nothing is claimed of the moment, which is up
/// to the clock, but that the nanoseconds are those of a part of a second.
#[verifier::external_body]
fn system_time_now() -> (now: Moment)
    ensures
        now.nanos < NANOS_PER_SEC,
{
    match std::time::SystemTime::now().duration_since(std::time::UNIX_EPOCH) {
        Ok(d) => Moment { before_epoch: false, secs: d.as_secs(), nanos: d.subsec_nanos() },
        Err(e) => Moment {
            before_epoch: true,
            secs: e.duration().as_secs(),
            nanos: e.duration().subsec_nanos(),
        },
    }
}

impl Moment {
    /// The present moment.
    pub fn now() -> (now: Moment)
        ensures
            now.nanos < NANOS_PER_SEC,
    {
        system_time_now()
    }

    /// The nanoseconds from the epoch.
    fn nanos_from_epoch(&self) -> (n: i128)
        ensures
            n == self@,
    {
        let distance: i128 = self.secs as i128 * 1_000_000_000 + self.nanos as i128;
        if self.before_epoch {
            -distance
        } else {
            distance
        }
    }

    /// The whole seconds from `earlier` to this moment; none if `earlier` is the later one.
    pub fn secs_since(&self, earlier: &Moment) -> (secs: Option<u128>)
        ensures
            match secs {
                Some(secs) => earlier@ <= self@ && secs == (self@ - earlier@) / 1_000_000_000,
                None => self@ < earlier@,
            },
    {
        let (a, b) = (self.nanos_from_epoch(), earlier.nanos_from_epoch());
        if a < b {
            None
        } else {
            Some((a - b) as u128 / 1_000_000_000)
        }
    }

    /// The whole seconds since the epoch, where they are not negative and fit in 64 bits.
    pub fn epoch_secs(&self) -> (secs: Option<u64>)
        ensures
            match secs {
                Some(secs) => self@ >= 0 && secs == self@ / 1_000_000_000,
                None => self@ < 0 || self@ / 1_000_000_000 > u64::MAX,
            },
    {
        let n = self.nanos_from_epoch();
        if n < 0 {
            return None;
        }
        let secs: u128 = n as u128 / 1_000_000_000;
        if secs <= u64::MAX as u128 {
            Some(secs as u64)
        } else {
            None
        }
    }
}

/// Moments lie as far apart as their seconds and nanoseconds say; one before the epoch is as far from
/// it as the same one after it.
pub proof fn lemma_moments_apart(a: Moment, b: Moment)
    ensures
        a.before_epoch == b.before_epoch && !a.before_epoch ==> a@ - b@ == (a.secs - b.secs)
            * 1_000_000_000 + (a.nanos - b.nanos),
        a.before_epoch != b.before_epoch && a.secs == b.secs && a.nanos == b.nanos ==> a@ == -b@,
        a.secs == 0 && a.nanos == 0 ==> a@ == 0,
{
}

/// The seconds since the epoch are those that a moment after the epoch holds.
pub proof fn lemma_epoch_secs(moment: &Moment, secs: Option<u64>)
    requires
        moment.nanos < 1_000_000_000,
        call_ensures(Moment::epoch_secs, (moment,), secs),
    ensures
        !moment.before_epoch ==> secs == Some(moment.secs),
        moment.before_epoch && (moment.secs > 0 || moment.nanos > 0) ==> secs is None,
{
}

/// The whole seconds between two moments after the epoch: those of the later one less those of the
/// earlier one, and one less where the part of a second has to be borrowed for.
pub proof fn lemma_secs_since(later: &Moment, earlier: &Moment, secs: Option<u128>)
    requires
        !later.before_epoch,
        !earlier.before_epoch,
        later.nanos < 1_000_000_000,
        earlier.nanos < 1_000_000_000,
        call_ensures(Moment::secs_since, (later, earlier), secs),
    ensures
        secs is None <==> later.secs < earlier.secs || later.secs == earlier.secs && later.nanos
            < earlier.nanos,
        secs matches Some(secs) ==> secs == later.secs - earlier.secs - (if later.nanos
            < earlier.nanos {
            1int
        } else {
            0
        }),
{
}

} // verus!
