//! Channel accessors: pure projections from a decoded entry to an optional
//! value, and the one primitive that turns a whole log into an ordered
//! `(timestamp, value)` series.
use vstd::prelude::*;

use crate::data::{DataEntry, TempEntry, WheelValues, data_time_sorted, temp_time_sorted};

verus! {

/// One point of a channel series.
#[derive(Clone, Copy, PartialEq, Eq, Structural, Debug)]
pub struct Sample {
    pub time: u32,
    pub value: i64,
}

/// A wheel position.
#[derive(Clone, Copy, PartialEq, Eq, Structural, Debug)]
pub enum Wheel {
    Fl,
    Fr,
    Rl,
    Rr,
}

/// A physical channel recorded in telemetry entries.
#[derive(Clone, Copy, PartialEq, Eq, Structural, Debug)]
pub enum DataChannel {
    Power(Wheel),
    Velocity(Wheel),
    TorqueSet(Wheel),
    TorqueReal(Wheel),
}

/// A physical channel recorded in temperature entries.
#[derive(Clone, Copy, PartialEq, Eq, Structural, Debug)]
pub enum TempChannel {
    Temp(Wheel),
    RoomTemp(Wheel),
    HeatsinkTemp(Wheel),
    AmsTempMax,
    WaterTempConverter,
    WaterTempMotor,
}

impl<T> WheelValues<T> {
    /// The value at one wheel position.
    pub open spec fn spec_at(self, w: Wheel) -> T {
        match w {
            Wheel::Fl => self.fl,
            Wheel::Fr => self.fr,
            Wheel::Rl => self.rl,
            Wheel::Rr => self.rr,
        }
    }
}

impl<T: Copy> WheelValues<T> {
    /// The value at one wheel position.
    pub fn at(&self, w: Wheel) -> (r: T)
        ensures
            r == self.spec_at(w),
    {
        match w {
            Wheel::Fl => self.fl,
            Wheel::Fr => self.fr,
            Wheel::Rl => self.rl,
            Wheel::Rr => self.rr,
        }
    }
}

/// What `c` reads off a telemetry entry: the channel's value, or `None` where
/// the session's schema version does not record that channel.
pub open spec fn data_value(e: DataEntry, c: DataChannel) -> Option<i32> {
    match c {
        DataChannel::Power(w) => e.power.spec_at(w),
        DataChannel::Velocity(w) => e.velocity.spec_at(w),
        DataChannel::TorqueSet(w) => e.torque_set.spec_at(w),
        DataChannel::TorqueReal(w) => e.torque_real.spec_at(w),
    }
}

/// What `c` reads off a temperature entry.
pub open spec fn temp_value(e: TempEntry, c: TempChannel) -> Option<i32> {
    match c {
        TempChannel::Temp(w) => e.temp.spec_at(w),
        TempChannel::RoomTemp(w) => e.room_temp.spec_at(w),
        TempChannel::HeatsinkTemp(w) => e.heatsink_temp.spec_at(w),
        TempChannel::AmsTempMax => e.ams_temp_max,
        TempChannel::WaterTempConverter => e.water_temp_converter,
        TempChannel::WaterTempMotor => e.water_temp_motor,
    }
}

/// The accessor for channel `c`, applied to one telemetry entry.
pub fn data_channel_value(e: &DataEntry, c: DataChannel) -> (r: Option<i32>)
    ensures
        r == data_value(*e, c),
{
    match c {
        DataChannel::Power(w) => e.power.at(w),
        DataChannel::Velocity(w) => e.velocity.at(w),
        DataChannel::TorqueSet(w) => e.torque_set.at(w),
        DataChannel::TorqueReal(w) => e.torque_real.at(w),
    }
}

/// The accessor for channel `c`, applied to one temperature entry.
pub fn temp_channel_value(e: &TempEntry, c: TempChannel) -> (r: Option<i32>)
    ensures
        r == temp_value(*e, c),
{
    match c {
        TempChannel::Temp(w) => e.temp.at(w),
        TempChannel::RoomTemp(w) => e.room_temp.at(w),
        TempChannel::HeatsinkTemp(w) => e.heatsink_temp.at(w),
        TempChannel::AmsTempMax => e.ams_temp_max,
        TempChannel::WaterTempConverter => e.water_temp_converter,
        TempChannel::WaterTempMotor => e.water_temp_motor,
    }
}

/// The series channel `c` traces over a telemetry log: one `(timestamp,
/// value)` point per entry on which the accessor yields a value, in log
/// order; entries where the channel is absent contribute nothing.
pub open spec fn projected_data(log: Seq<DataEntry>, c: DataChannel) -> Seq<Sample>
    decreases log.len(),
{
    if log.len() == 0 {
        Seq::empty()
    } else {
        let rest = projected_data(log.drop_last(), c);
        match data_value(log.last(), c) {
            Some(v) => rest.push(Sample { time: log.last().time, value: v as i64 }),
            None => rest,
        }
    }
}

/// The series channel `c` traces over a temperature log.
pub open spec fn projected_temp(log: Seq<TempEntry>, c: TempChannel) -> Seq<Sample>
    decreases log.len(),
{
    if log.len() == 0 {
        Seq::empty()
    } else {
        let rest = projected_temp(log.drop_last(), c);
        match temp_value(log.last(), c) {
            Some(v) => rest.push(Sample { time: log.last().time, value: v as i64 }),
            None => rest,
        }
    }
}

/// Walks the log in order and emits a sample for every entry on which the
/// accessor for `c` yields a value; entries where it is absent are skipped
/// and the relative order of kept samples is preserved.
pub fn project_over_time_data(log: &Vec<DataEntry>, c: DataChannel) -> (r: Vec<Sample>)
    ensures
        r@ == projected_data(log@, c),
{
    let mut r: Vec<Sample> = Vec::new();
    let n = log.len();
    for i in 0..n
        invariant
            n == log@.len(),
            r@ == projected_data(log@.subrange(0, i as int), c),
    {
        proof {
            assert(log@.subrange(0, i + 1).drop_last() =~= log@.subrange(0, i as int));
            assert(log@.subrange(0, i + 1).last() == log@[i as int]);
        }
        match data_channel_value(&log[i], c) {
            Some(v) => r.push(Sample { time: log[i].time, value: v as i64 }),
            None => (),
        }
    }
    proof {
        assert(log@.subrange(0, n as int) =~= log@);
    }
    r
}

/// Walks the temperature log in order, exactly as [`project_over_time_data`].
pub fn project_over_time_temp(log: &Vec<TempEntry>, c: TempChannel) -> (r: Vec<Sample>)
    ensures
        r@ == projected_temp(log@, c),
{
    let mut r: Vec<Sample> = Vec::new();
    let n = log.len();
    for i in 0..n
        invariant
            n == log@.len(),
            r@ == projected_temp(log@.subrange(0, i as int), c),
    {
        proof {
            assert(log@.subrange(0, i + 1).drop_last() =~= log@.subrange(0, i as int));
            assert(log@.subrange(0, i + 1).last() == log@[i as int]);
        }
        match temp_channel_value(&log[i], c) {
            Some(v) => r.push(Sample { time: log[i].time, value: v as i64 }),
            None => (),
        }
    }
    proof {
        assert(log@.subrange(0, n as int) =~= log@);
    }
    r
}

/// Sample timestamps never decrease along the series.
pub open spec fn samples_time_sorted(s: Seq<Sample>) -> bool {
    forall|i: int, j: int| 0 <= i <= j < s.len() ==> s[i].time <= s[j].time
}

/// A projected series is never longer than its source log, and is strictly
/// shorter as soon as the accessor is undefined on at least one entry.
pub proof fn lemma_projected_data_len(log: Seq<DataEntry>, c: DataChannel)
    ensures
        projected_data(log, c).len() <= log.len(),
        (exists|i: int| 0 <= i < log.len() && data_value(log[i], c) is None) ==> projected_data(
            log,
            c,
        ).len() < log.len(),
    decreases log.len(),
{
    if log.len() > 0 {
        lemma_projected_data_len(log.drop_last(), c);
        if exists|i: int| 0 <= i < log.len() && data_value(log[i], c) is None {
            let i = choose|i: int| 0 <= i < log.len() && data_value(log[i], c) is None;
            if i < log.len() - 1 {
                assert(data_value(log.drop_last()[i], c) is None);
            }
        }
    }
}

/// A projected temperature series is never longer than its source log, and is
/// strictly shorter as soon as the accessor is undefined on at least one
/// entry.
pub proof fn lemma_projected_temp_len(log: Seq<TempEntry>, c: TempChannel)
    ensures
        projected_temp(log, c).len() <= log.len(),
        (exists|i: int| 0 <= i < log.len() && temp_value(log[i], c) is None) ==> projected_temp(
            log,
            c,
        ).len() < log.len(),
    decreases log.len(),
{
    if log.len() > 0 {
        lemma_projected_temp_len(log.drop_last(), c);
        if exists|i: int| 0 <= i < log.len() && temp_value(log[i], c) is None {
            let i = choose|i: int| 0 <= i < log.len() && temp_value(log[i], c) is None;
            if i < log.len() - 1 {
                assert(temp_value(log.drop_last()[i], c) is None);
            }
        }
    }
}

/// Every sample of a projection carries the timestamp of some log entry, so a
/// bound on the log's timestamps bounds the series' timestamps.
proof fn lemma_projected_data_time_bound(log: Seq<DataEntry>, c: DataChannel, t: u32)
    requires
        forall|i: int| 0 <= i < log.len() ==> #[trigger] log[i].time <= t,
    ensures
        forall|k: int| 0 <= k < projected_data(log, c).len() ==> #[trigger] projected_data(
            log,
            c,
        )[k].time <= t,
    decreases log.len(),
{
    if log.len() > 0 {
        assert(forall|i: int|
            0 <= i < log.drop_last().len() ==> #[trigger] log.drop_last()[i].time <= t);
        lemma_projected_data_time_bound(log.drop_last(), c, t);
        assert(log.last().time <= t);
        let rest = projected_data(log.drop_last(), c);
        assert forall|k: int| 0 <= k < projected_data(log, c).len() implies #[trigger] projected_data(
            log,
            c,
        )[k].time <= t by {
            if k < rest.len() {
                assert(projected_data(log, c)[k] == rest[k]);
            }
        }
    }
}

/// Same bound for temperature projections.
proof fn lemma_projected_temp_time_bound(log: Seq<TempEntry>, c: TempChannel, t: u32)
    requires
        forall|i: int| 0 <= i < log.len() ==> #[trigger] log[i].time <= t,
    ensures
        forall|k: int| 0 <= k < projected_temp(log, c).len() ==> #[trigger] projected_temp(
            log,
            c,
        )[k].time <= t,
    decreases log.len(),
{
    if log.len() > 0 {
        assert(forall|i: int|
            0 <= i < log.drop_last().len() ==> #[trigger] log.drop_last()[i].time <= t);
        lemma_projected_temp_time_bound(log.drop_last(), c, t);
        assert(log.last().time <= t);
        let rest = projected_temp(log.drop_last(), c);
        assert forall|k: int| 0 <= k < projected_temp(log, c).len() implies #[trigger] projected_temp(
            log,
            c,
        )[k].time <= t by {
            if k < rest.len() {
                assert(projected_temp(log, c)[k] == rest[k]);
            }
        }
    }
}

/// Over a log where the channel is present on every entry, the projection
/// keeps every entry: one sample per entry, at the entry's timestamp.
pub proof fn lemma_projected_all_present(log: Seq<DataEntry>, c: DataChannel)
    requires
        forall|i: int| 0 <= i < log.len() ==> (#[trigger] data_value(log[i], c)) is Some,
    ensures
        projected_data(log, c).len() == log.len(),
        forall|k: int|
            0 <= k < log.len() ==> #[trigger] projected_data(log, c)[k] == (Sample {
                time: log[k].time,
                value: data_value(log[k], c)->0 as i64,
            }),
    decreases log.len(),
{
    if log.len() > 0 {
        assert(forall|i: int|
            0 <= i < log.drop_last().len() ==> (#[trigger] data_value(log.drop_last()[i], c))
                is Some);
        lemma_projected_all_present(log.drop_last(), c);
        let rest = projected_data(log.drop_last(), c);
        assert forall|k: int| 0 <= k < log.len() implies #[trigger] projected_data(log, c)[k]
            == (Sample { time: log[k].time, value: data_value(log[k], c)->0 as i64 }) by {
            if k < log.len() - 1 {
                assert(projected_data(log, c)[k] == rest[k]);
                assert(log.drop_last()[k] == log[k]);
            }
        }
    }
}

/// Projection preserves chronological order: over a time-ordered log the kept
/// samples come out time-ordered as well.
pub proof fn lemma_projected_data_sorted(log: Seq<DataEntry>, c: DataChannel)
    requires
        data_time_sorted(log),
    ensures
        samples_time_sorted(projected_data(log, c)),
    decreases log.len(),
{
    if log.len() > 0 {
        lemma_projected_data_sorted(log.drop_last(), c);
        lemma_projected_data_time_bound(log.drop_last(), c, log.last().time);
    }
}

/// Projection preserves chronological order over temperature logs.
pub proof fn lemma_projected_temp_sorted(log: Seq<TempEntry>, c: TempChannel)
    requires
        temp_time_sorted(log),
    ensures
        samples_time_sorted(projected_temp(log, c)),
    decreases log.len(),
{
    if log.len() > 0 {
        lemma_projected_temp_sorted(log.drop_last(), c);
        lemma_projected_temp_time_bound(log.drop_last(), c, log.last().time);
    }
}

} // verus!
