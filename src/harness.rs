use vstd::prelude::*;
use std::time::Instant;
use crate::stats::{compute_stats, in_unit, stats_of, to_unit, TimingStats};
use crate::stats::{lemma_average_between, lemma_median_between, lemma_stats_in_micros, to_micros};

verus! {

#[verifier::external_type_specification]
#[verifier::external_body]
pub struct ExInstant(Instant);

/// Relies on `Instant::now`: a reading of the monotonic clock.
#[verifier::external_body]
fn clock_now() -> (r: Instant) {
    Instant::now()
}

/// A monotonic clock, read as whole nanoseconds since it was started. It
/// keeps the log of every reading taken through it.
pub struct Clock {
    base: Instant,
    log: Ghost<Seq<u128>>,
}

impl Clock {
    /// Every reading taken so far, oldest first.
    pub closed spec fn readings(&self) -> Seq<u128> {
        self.log@
    }

    /// Starts a clock at the current instant, with no readings yet.
    pub fn start() -> (r: Clock)
        ensures
            r.readings() == Seq::<u128>::empty(),
    {
        Clock { base: clock_now(), log: Ghost(Seq::empty()) }
    }

    /// Relies on `Instant::elapsed`, converted by `Duration::as_nanos`: the
    /// whole nanoseconds since the clock started. The clock is monotonic, so
    /// a reading is never below the one before it.
    #[verifier::external_body]
    pub fn read(&mut self) -> (r: u128)
        ensures
            final(self).readings() == old(self).readings().push(r),
            old(self).readings().len() > 0 ==> old(self).readings().last() <= r,
    {
        self.base.elapsed().as_nanos()
    }
}

/// The time of the trial that two readings enclose, in whole nanoseconds
/// (zero if the second is the earlier).
pub open spec fn span(start: u128, end: u128) -> u128 {
    if start <= end {
        (end - start) as u128
    } else {
        0
    }
}

/// The samples that readings taken in pairs, before and after each trial,
/// give in the reporting unit: one per pair, in the order of the trials.
pub open spec fn samples_of(readings: Seq<u128>, use_nanos: bool) -> Seq<u128> {
    Seq::new(
        readings.len() / 2,
        |i: int| in_unit(span(readings[2 * i], readings[2 * i + 1]), use_nanos),
    )
}

/// Turns clock readings, taken in pairs before and after each trial, into one
/// sample per trial in the reporting unit. A trailing unpaired reading is
/// ignored.
pub fn samples_from_readings(readings: &Vec<u128>, use_nanos: bool) -> (r: Vec<u128>)
    ensures
        r@ == samples_of(readings@, use_nanos),
{
    let n = readings.len() / 2;
    let mut out: Vec<u128> = Vec::new();
    let mut i: usize = 0;
    while i < n
        invariant
            n == readings.len() / 2,
            i <= n,
            out@ == samples_of(readings@, use_nanos).take(i as int),
        decreases n - i,
    {
        let start = readings[2 * i];
        let end = readings[2 * i + 1];
        let nanos = if start <= end {
            end - start
        } else {
            0
        };
        out.push(to_unit(nanos, use_nanos));
        assert(out@ =~= samples_of(readings@, use_nanos).take(i + 1));
        i = i + 1;
    }
    assert(out@ =~= samples_of(readings@, use_nanos));
    out
}

/// The line handler of the reading strategies: each line read is handed here
/// and dropped.
pub fn use_input(_input: String) {
}

/// Runs `f` `repeats` times, reading `clock` just before and just after each
/// run, and returns one sample per run, in the order of the runs, from the
/// readings taken. A run is timed whatever it does: failures must already be
/// absorbed inside `f`.
pub fn collect_samples<F: Fn()>(f: &F, repeats: u32, use_nanos: bool, clock: &mut Clock) -> (r:
    Vec<u128>)
    requires
        f.requires(()),
    ensures
        final(clock).readings().len() == old(clock).readings().len() + 2 * repeats,
        final(clock).readings().take(old(clock).readings().len() as int) == old(clock).readings(),
        r@ == samples_of(final(clock).readings().skip(old(clock).readings().len() as int), use_nanos),
        r@.len() == repeats,
{
    let ghost before = clock.readings();
    let mut readings: Vec<u128> = Vec::new();
    let mut k: u32 = 0;
    while k < repeats
        invariant
            k <= repeats,
            readings@.len() == 2 * k,
            clock.readings() == before + readings@,
            f.requires(()),
        decreases repeats - k,
    {
        let start = clock.read();
        f();
        let end = clock.read();
        readings.push(start);
        readings.push(end);
        k = k + 1;
    }
    assert(clock.readings().take(before.len() as int) =~= before);
    assert(clock.readings().skip(before.len() as int) =~= readings@);
    samples_from_readings(&readings, use_nanos)
}

/// Times `repeats` runs of `f` on `clock` and summarises them: the statistics
/// are those of the samples that the readings taken around the runs give, in
/// the requested unit. With no runs at all every statistic is zero.
pub fn time_func<F: Fn()>(f: &F, repeats: u32, nanos: bool, clock: &mut Clock) -> (r: TimingStats)
    requires
        f.requires(()),
    ensures
        final(clock).readings().len() == old(clock).readings().len() + 2 * repeats,
        final(clock).readings().take(old(clock).readings().len() as int) == old(clock).readings(),
        r == stats_of(samples_of(final(clock).readings().skip(old(clock).readings().len() as int), nanos)),
        r.min <= r.median <= r.max,
        repeats > 0 ==> r.min <= r.average <= r.max,
        repeats == 0 ==> r == (TimingStats { median: 0, average: 0, min: 0, max: 0 }),
{
    let times = collect_samples(f, repeats, nanos, clock);
    proof {
        lemma_median_between(times@);
        if repeats > 0 {
            lemma_average_between(times@);
        }
    }
    compute_stats(times)
}

/// Two runs whose trials took the same durations, one reported in
/// nanoseconds and one in microseconds: the microsecond minimum, median and
/// maximum are the nanosecond ones truncated to whole microseconds, and the
/// averages differ by at most the truncation of each sample and of the
/// division.
pub proof fn lemma_units_agree(nano_readings: Seq<u128>, micro_readings: Seq<u128>)
    requires
        nano_readings.len() / 2 == micro_readings.len() / 2,
        forall|i: int|
            0 <= i < nano_readings.len() / 2 ==> #[trigger] span(
                nano_readings[2 * i],
                nano_readings[2 * i + 1],
            ) == span(micro_readings[2 * i], micro_readings[2 * i + 1]),
    ensures
        ({
            let n = stats_of(samples_of(nano_readings, true));
            let u = stats_of(samples_of(micro_readings, false));
            &&& u.min == n.min / 1000
            &&& u.median == n.median / 1000
            &&& u.max == n.max / 1000
            &&& 1000 * u.average <= n.average
            &&& n.average <= 1000 * u.average + 1998
        }),
{
    let ns = samples_of(nano_readings, true);
    assert(samples_of(micro_readings, false) =~= ns.map_values(to_micros()));
    lemma_stats_in_micros(ns);
}

} // verus!
