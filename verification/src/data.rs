//! Versioned binary decoding of recorded log segments.
//!
//! A segment is a byte stream of fixed-size records. The active [`Version`]
//! selects the record layout: which channel fields a record carries, at which
//! byte offsets, and the affine raw-to-engineering-unit conversion
//! (`value = raw * scale + offset`) of each field. Decoding appends to an
//! existing log, so several segment files can be merged into one growing,
//! time-ordered entry collection.
use vstd::prelude::*;

verus! {

/// Schema revision selecting the binary record layout for a whole session.
#[derive(Clone, Copy, PartialEq, Eq, Structural, Debug)]
pub enum Version {
    /// First layout: telemetry records carry no realized-torque fields and
    /// temperature records carry no per-wheel room-temperature fields.
    V1,
    /// Second layout: every channel field is present.
    V2,
}

/// One value per wheel position (front-left, front-right, rear-left,
/// rear-right).
#[derive(Clone, Copy, PartialEq, Eq, Structural, Debug)]
pub struct WheelValues<T> {
    pub fl: T,
    pub fr: T,
    pub rl: T,
    pub rr: T,
}

/// One decoded telemetry record. Timestamps are milliseconds since the start
/// of the recording; channel values are in fixed-point engineering units. A
/// field is `None` when the active schema version does not record it.
#[derive(Clone, Copy, PartialEq, Eq, Structural, Debug)]
pub struct DataEntry {
    pub time: u32,
    pub power: WheelValues<Option<i32>>,
    pub velocity: WheelValues<Option<i32>>,
    pub torque_set: WheelValues<Option<i32>>,
    pub torque_real: WheelValues<Option<i32>>,
}

/// One decoded temperature record, in the same conventions as [`DataEntry`].
#[derive(Clone, Copy, PartialEq, Eq, Structural, Debug)]
pub struct TempEntry {
    pub time: u32,
    pub temp: WheelValues<Option<i32>>,
    pub room_temp: WheelValues<Option<i32>>,
    pub heatsink_temp: WheelValues<Option<i32>>,
    pub ams_temp_max: Option<i32>,
    pub water_temp_converter: Option<i32>,
    pub water_temp_motor: Option<i32>,
}

/// Why a segment failed to decode.
#[derive(Clone, Copy, PartialEq, Eq, Structural, Debug)]
pub enum DecodeFault {
    /// The stream ended in the middle of a record.
    Truncated,
    /// A record's timestamp went backwards relative to its predecessor (or to
    /// the log the segment is appended to), so the segment cannot be part of
    /// a chronologically contiguous recording.
    OutOfOrder,
}

/// Result of decoding one byte stream: either every decoded record in stream
/// order, or the fault that stopped the decode.
pub enum Decoded<E> {
    Entries(Seq<E>),
    Fail(DecodeFault),
}

/// The little-endian unsigned 32-bit quantity held by four bytes.
pub open spec fn le_u32(b0: u8, b1: u8, b2: u8, b3: u8) -> u32 {
    (b0 as int + b1 as int * 0x100 + b2 as int * 0x1_0000 + b3 as int * 0x100_0000) as u32
}

/// The little-endian signed 16-bit quantity held by two bytes.
pub open spec fn le_i16(b0: u8, b1: u8) -> i16 {
    (b0 as u16 + b1 as u16 * 0x100) as i16
}

/// The engineering-unit value of one record field: the raw little-endian
/// 16-bit reading passed through the field's affine conversion.
pub open spec fn field_val(b0: u8, b1: u8, scale: i32, offset: i32) -> i32 {
    (le_i16(b0, b1) * scale + offset) as i32
}

/// Scale of the per-wheel power fields: one raw count is ten engineering
/// units.
pub const POWER_SCALE: i32 = 10;

/// Scale shared by every temperature field: one raw count is five
/// centidegrees.
pub const TEMP_SCALE: i32 = 5;

/// Offset shared by every temperature field: the sensors report with a fixed
/// bias of 400 centidegrees.
pub const TEMP_OFFSET: i32 = -400;

/// Size in bytes of one telemetry record under `v`.
pub open spec fn data_record_len(v: Version) -> int {
    match v {
        Version::V1 => 28,
        Version::V2 => 36,
    }
}

/// Size in bytes of one temperature record under `v`.
pub open spec fn temp_record_len(v: Version) -> int {
    match v {
        Version::V1 => 26,
        Version::V2 => 34,
    }
}

/// Four consecutive per-wheel fields starting at `off`, all with the same
/// conversion.
pub open spec fn wheel_fields(rec: Seq<u8>, off: int, scale: i32, offset: i32) -> WheelValues<
    Option<i32>,
> {
    WheelValues {
        fl: Some(field_val(rec[off], rec[off + 1], scale, offset)),
        fr: Some(field_val(rec[off + 2], rec[off + 3], scale, offset)),
        rl: Some(field_val(rec[off + 4], rec[off + 5], scale, offset)),
        rr: Some(field_val(rec[off + 6], rec[off + 7], scale, offset)),
    }
}

/// The telemetry entry encoded by the first `data_record_len(v)` bytes of
/// `rec`: a millisecond timestamp, then per-wheel power (scale 10), velocity,
/// and commanded torque; version two appends per-wheel realized torque.
pub open spec fn data_record(v: Version, rec: Seq<u8>) -> DataEntry {
    DataEntry {
        time: le_u32(rec[0], rec[1], rec[2], rec[3]),
        power: wheel_fields(rec, 4, POWER_SCALE, 0),
        velocity: wheel_fields(rec, 12, 1, 0),
        torque_set: wheel_fields(rec, 20, 1, 0),
        torque_real: match v {
            Version::V1 => WheelValues { fl: None, fr: None, rl: None, rr: None },
            Version::V2 => wheel_fields(rec, 28, 1, 0),
        },
    }
}

/// The temperature entry encoded by the first `temp_record_len(v)` bytes of
/// `rec`: a millisecond timestamp, then per-wheel motor temperature, per-wheel
/// room temperature (version two only), per-wheel heatsink temperature, the
/// maximum battery-management temperature, and the converter and motor
/// coolant temperatures; every temperature field shares one conversion.
pub open spec fn temp_record(v: Version, rec: Seq<u8>) -> TempEntry {
    let tail = match v {
        Version::V1 => 12int,
        Version::V2 => 20int,
    };
    TempEntry {
        time: le_u32(rec[0], rec[1], rec[2], rec[3]),
        temp: wheel_fields(rec, 4, TEMP_SCALE, TEMP_OFFSET),
        room_temp: match v {
            Version::V1 => WheelValues { fl: None, fr: None, rl: None, rr: None },
            Version::V2 => wheel_fields(rec, 12, TEMP_SCALE, TEMP_OFFSET),
        },
        heatsink_temp: wheel_fields(rec, tail, TEMP_SCALE, TEMP_OFFSET),
        ams_temp_max: Some(field_val(rec[tail + 8], rec[tail + 9], TEMP_SCALE, TEMP_OFFSET)),
        water_temp_converter: Some(
            field_val(rec[tail + 10], rec[tail + 11], TEMP_SCALE, TEMP_OFFSET),
        ),
        water_temp_motor: Some(field_val(rec[tail + 12], rec[tail + 13], TEMP_SCALE, TEMP_OFFSET)),
    }
}

/// Decoding a telemetry byte stream under `v`, where `last` is the timestamp
/// the next record must not precede: records are taken from the front one at
/// a time until the stream is exhausted; a leftover shorter than one record
/// is a truncation fault and a backwards timestamp an ordering fault.
pub open spec fn decode_data(v: Version, bytes: Seq<u8>, last: u32) -> Decoded<DataEntry>
    decreases bytes.len(),
{
    if bytes.len() == 0 {
        Decoded::Entries(Seq::empty())
    } else if bytes.len() < data_record_len(v) {
        Decoded::Fail(DecodeFault::Truncated)
    } else {
        let e = data_record(v, bytes);
        if e.time < last {
            Decoded::Fail(DecodeFault::OutOfOrder)
        } else {
            match decode_data(v, bytes.skip(data_record_len(v)), e.time) {
                Decoded::Entries(rest) => Decoded::Entries(seq![e] + rest),
                Decoded::Fail(f) => Decoded::Fail(f),
            }
        }
    }
}

/// Decoding a temperature byte stream, exactly as [`decode_data`] but over
/// temperature records.
pub open spec fn decode_temp(v: Version, bytes: Seq<u8>, last: u32) -> Decoded<TempEntry>
    decreases bytes.len(),
{
    if bytes.len() == 0 {
        Decoded::Entries(Seq::empty())
    } else if bytes.len() < temp_record_len(v) {
        Decoded::Fail(DecodeFault::Truncated)
    } else {
        let e = temp_record(v, bytes);
        if e.time < last {
            Decoded::Fail(DecodeFault::OutOfOrder)
        } else {
            match decode_temp(v, bytes.skip(temp_record_len(v)), e.time) {
                Decoded::Entries(rest) => Decoded::Entries(seq![e] + rest),
                Decoded::Fail(f) => Decoded::Fail(f),
            }
        }
    }
}

/// Timestamps never decrease along the sequence.
pub open spec fn data_time_sorted(s: Seq<DataEntry>) -> bool {
    forall|i: int, j: int| 0 <= i <= j < s.len() ==> s[i].time <= s[j].time
}

/// Timestamps never decrease along the sequence.
pub open spec fn temp_time_sorted(s: Seq<TempEntry>) -> bool {
    forall|i: int, j: int| 0 <= i <= j < s.len() ==> s[i].time <= s[j].time
}

/// Whatever a telemetry stream decodes to is time-ordered and starts no
/// earlier than `last`: a successfully decoded segment can always be appended
/// to a log it chronologically follows.
pub proof fn lemma_decode_data_sorted(v: Version, bytes: Seq<u8>, last: u32)
    ensures
        decode_data(v, bytes, last) matches Decoded::Entries(es) ==> data_time_sorted(es) && (
        forall|i: int| 0 <= i < es.len() ==> #[trigger] es[i].time >= last),
    decreases bytes.len(),
{
    if bytes.len() != 0 && bytes.len() >= data_record_len(v) {
        let e = data_record(v, bytes);
        if e.time >= last {
            lemma_decode_data_sorted(v, bytes.skip(data_record_len(v)), e.time);
        }
    }
}

/// Whatever a temperature stream decodes to is time-ordered and starts no
/// earlier than `last`.
pub proof fn lemma_decode_temp_sorted(v: Version, bytes: Seq<u8>, last: u32)
    ensures
        decode_temp(v, bytes, last) matches Decoded::Entries(es) ==> temp_time_sorted(es) && (
        forall|i: int| 0 <= i < es.len() ==> #[trigger] es[i].time >= last),
    decreases bytes.len(),
{
    if bytes.len() != 0 && bytes.len() >= temp_record_len(v) {
        let e = temp_record(v, bytes);
        if e.time >= last {
            lemma_decode_temp_sorted(v, bytes.skip(temp_record_len(v)), e.time);
        }
    }
}

/// The timestamp that follows a decoded run: where the next record must not
/// go back behind.
pub open spec fn data_cont_time(es: Seq<DataEntry>, last: u32) -> u32 {
    if es.len() == 0 {
        last
    } else {
        es.last().time
    }
}

/// The timestamp that follows a decoded run of temperature entries.
pub open spec fn temp_cont_time(es: Seq<TempEntry>, last: u32) -> u32 {
    if es.len() == 0 {
        last
    } else {
        es.last().time
    }
}

/// Decoding two telemetry segments one after the other is indistinguishable
/// from decoding their concatenation: when the first decodes cleanly, the
/// concatenation yields the first segment's entries followed by whatever the
/// second decodes to — the same entries in the same order, or the same fault.
pub proof fn lemma_decode_data_concat(v: Version, a: Seq<u8>, b: Seq<u8>, last: u32)
    requires
        decode_data(v, a, last) matches Decoded::Entries(_),
    ensures
        ({
            let es1 = decode_data(v, a, last)->Entries_0;
            decode_data(v, a + b, last) == (match decode_data(v, b, data_cont_time(es1, last)) {
                Decoded::Entries(es2) => Decoded::Entries(es1 + es2),
                Decoded::Fail(f) => Decoded::Fail::<DataEntry>(f),
            })
        }),
    decreases a.len(),
{
    let rec = data_record_len(v);
    let es1 = decode_data(v, a, last)->Entries_0;
    let mid = data_cont_time(es1, last);
    if a.len() == 0 {
        assert(a + b =~= b);
        match decode_data(v, b, mid) {
            Decoded::Entries(es2) => {
                assert(es1 + es2 =~= es2);
            },
            Decoded::Fail(_) => {},
        }
    } else {
        let e = data_record(v, a);
        assert(data_record(v, a + b) == e);
        assert((a + b).skip(rec) =~= a.skip(rec) + b);
        lemma_decode_data_concat(v, a.skip(rec), b, e.time);
        let rest = decode_data(v, a.skip(rec), e.time)->Entries_0;
        assert(es1 == seq![e] + rest);
        assert(data_cont_time(rest, e.time) == mid);
        match decode_data(v, b, mid) {
            Decoded::Entries(es2) => {
                assert(seq![e] + (rest + es2) =~= es1 + es2);
            },
            Decoded::Fail(_) => {},
        }
    }
}

/// Decoding two temperature segments one after the other is indistinguishable
/// from decoding their concatenation, exactly as [`lemma_decode_data_concat`].
pub proof fn lemma_decode_temp_concat(v: Version, a: Seq<u8>, b: Seq<u8>, last: u32)
    requires
        decode_temp(v, a, last) matches Decoded::Entries(_),
    ensures
        ({
            let es1 = decode_temp(v, a, last)->Entries_0;
            decode_temp(v, a + b, last) == (match decode_temp(v, b, temp_cont_time(es1, last)) {
                Decoded::Entries(es2) => Decoded::Entries(es1 + es2),
                Decoded::Fail(f) => Decoded::Fail::<TempEntry>(f),
            })
        }),
    decreases a.len(),
{
    let rec = temp_record_len(v);
    let es1 = decode_temp(v, a, last)->Entries_0;
    let mid = temp_cont_time(es1, last);
    if a.len() == 0 {
        assert(a + b =~= b);
        match decode_temp(v, b, mid) {
            Decoded::Entries(es2) => {
                assert(es1 + es2 =~= es2);
            },
            Decoded::Fail(_) => {},
        }
    } else {
        let e = temp_record(v, a);
        assert(temp_record(v, a + b) == e);
        assert((a + b).skip(rec) =~= a.skip(rec) + b);
        lemma_decode_temp_concat(v, a.skip(rec), b, e.time);
        let rest = decode_temp(v, a.skip(rec), e.time)->Entries_0;
        assert(es1 == seq![e] + rest);
        assert(temp_cont_time(rest, e.time) == mid);
        match decode_temp(v, b, mid) {
            Decoded::Entries(es2) => {
                assert(seq![e] + (rest + es2) =~= es1 + es2);
            },
            Decoded::Fail(_) => {},
        }
    }
}

/// Reads the little-endian `u32` at `off`.
fn read_le_u32(bytes: &[u8], off: usize) -> (r: u32)
    requires
        off + 4 <= bytes@.len(),
    ensures
        r == le_u32(bytes@[off as int], bytes@[off + 1], bytes@[off + 2], bytes@[off + 3]),
{
    let _n = bytes.len();
    bytes[off] as u32 + bytes[off + 1] as u32 * 0x100 + bytes[off + 2] as u32 * 0x1_0000
        + bytes[off + 3] as u32 * 0x100_0000
}

/// Reads the record field at `off` and applies its affine conversion.
fn read_field(bytes: &[u8], off: usize, scale: i32, offset: i32) -> (r: i32)
    requires
        off + 2 <= bytes@.len(),
        1 <= scale <= 16,
        -1000 <= offset <= 1000,
    ensures
        r == field_val(bytes@[off as int], bytes@[off + 1], scale, offset),
{
    let _n = bytes.len();
    let raw = #[verifier::truncate] ((bytes[off] as u16 + bytes[off + 1] as u16 * 0x100) as i16);
    let wide: i32 = raw as i32;
    proof {
        assert(-32768 * 16 <= wide * scale && wide * scale <= 32767 * 16) by (nonlinear_arith)
            requires
                -32768 <= wide <= 32767,
                1 <= scale <= 16,
        ;
    }
    wide * scale + offset
}

/// Reads the four per-wheel fields starting at `off`.
fn read_wheel_fields(bytes: &[u8], off: usize, scale: i32, offset: i32) -> (r: WheelValues<
    Option<i32>,
>)
    requires
        off + 8 <= bytes@.len(),
        1 <= scale <= 16,
        -1000 <= offset <= 1000,
    ensures
        r == wheel_fields(bytes@, off as int, scale, offset),
{
    let _n = bytes.len();
    WheelValues {
        fl: Some(read_field(bytes, off, scale, offset)),
        fr: Some(read_field(bytes, off + 2, scale, offset)),
        rl: Some(read_field(bytes, off + 4, scale, offset)),
        rr: Some(read_field(bytes, off + 6, scale, offset)),
    }
}

/// Reads the telemetry record starting at `off`.
fn read_data_record(bytes: &[u8], off: usize, v: Version) -> (r: DataEntry)
    requires
        off + data_record_len(v) <= bytes@.len(),
    ensures
        r == data_record(v, bytes@.skip(off as int)),
{
    let _n = bytes.len();
    let r = DataEntry {
        time: read_le_u32(bytes, off),
        power: read_wheel_fields(bytes, off + 4, POWER_SCALE, 0),
        velocity: read_wheel_fields(bytes, off + 12, 1, 0),
        torque_set: read_wheel_fields(bytes, off + 20, 1, 0),
        torque_real: match v {
            Version::V1 => WheelValues { fl: None, fr: None, rl: None, rr: None },
            Version::V2 => read_wheel_fields(bytes, off + 28, 1, 0),
        },
    };
    proof {
        let rec = bytes@.skip(off as int);
        assert forall|k: int| 0 <= k < data_record_len(v) implies rec[k] == bytes@[off + k] by {}
        assert(r == data_record(v, rec));
    }
    r
}

/// Reads the temperature record starting at `off`.
fn read_temp_record(bytes: &[u8], off: usize, v: Version) -> (r: TempEntry)
    requires
        off + temp_record_len(v) <= bytes@.len(),
    ensures
        r == temp_record(v, bytes@.skip(off as int)),
{
    let _n = bytes.len();
    let tail: usize = match v {
        Version::V1 => 12,
        Version::V2 => 20,
    };
    let r = TempEntry {
        time: read_le_u32(bytes, off),
        temp: read_wheel_fields(bytes, off + 4, TEMP_SCALE, TEMP_OFFSET),
        room_temp: match v {
            Version::V1 => WheelValues { fl: None, fr: None, rl: None, rr: None },
            Version::V2 => read_wheel_fields(bytes, off + 12, TEMP_SCALE, TEMP_OFFSET),
        },
        heatsink_temp: read_wheel_fields(bytes, off + tail, TEMP_SCALE, TEMP_OFFSET),
        ams_temp_max: Some(read_field(bytes, off + tail + 8, TEMP_SCALE, TEMP_OFFSET)),
        water_temp_converter: Some(read_field(bytes, off + tail + 10, TEMP_SCALE, TEMP_OFFSET)),
        water_temp_motor: Some(read_field(bytes, off + tail + 12, TEMP_SCALE, TEMP_OFFSET)),
    };
    proof {
        let rec = bytes@.skip(off as int);
        assert forall|k: int| 0 <= k < temp_record_len(v) implies rec[k] == bytes@[off + k] by {}
        assert(r == temp_record(v, rec));
    }
    r
}

/// Decodes one whole telemetry segment, where `last` is the timestamp of the
/// entry the segment will follow.
#[verifier::rlimit(50)]
fn decode_data_segment(bytes: &[u8], v: Version, last: u32) -> (r: Result<
    Vec<DataEntry>,
    DecodeFault,
>)
    ensures
        match decode_data(v, bytes@, last) {
            Decoded::Entries(es) => r matches Ok(out) && out@ == es,
            Decoded::Fail(f) => r matches Err(g) && g == f,
        },
{
    let rec_len: usize = match v {
        Version::V1 => 28,
        Version::V2 => 36,
    };
    let mut out: Vec<DataEntry> = Vec::new();
    let mut off: usize = 0;
    let mut prev: u32 = last;
    proof {
        assert(bytes@.skip(0) =~= bytes@);
        match decode_data(v, bytes@, last) {
            Decoded::Entries(es) => {
                assert(Seq::<DataEntry>::empty() + es =~= es);
            },
            Decoded::Fail(_) => {},
        }
    }
    while rec_len <= bytes.len() - off
        invariant
            rec_len == data_record_len(v),
            off <= bytes@.len(),
            prev == if out@.len() == 0 {
                last
            } else {
                out@.last().time
            },
            decode_data(v, bytes@, last) == (match decode_data(v, bytes@.skip(off as int), prev) {
                Decoded::Entries(es) => Decoded::Entries(out@ + es),
                Decoded::Fail(f) => Decoded::Fail::<DataEntry>(f),
            }),
        decreases bytes@.len() - off,
    {
        let e = read_data_record(bytes, off, v);
        proof {
            assert(bytes@.skip(off as int).skip(rec_len as int) =~= bytes@.skip(
                off as int + rec_len,
            ));
        }
        if e.time < prev {
            return Err(DecodeFault::OutOfOrder);
        }
        let ghost old_out = out@;
        out.push(e);
        proof {
            match decode_data(v, bytes@.skip(off as int + rec_len), e.time) {
                Decoded::Entries(rest) => {
                    assert(old_out + (seq![e] + rest) =~= out@ + rest);
                },
                Decoded::Fail(_) => {},
            }
        }
        prev = e.time;
        off = off + rec_len;
    }
    if off == bytes.len() {
        proof {
            assert(bytes@.skip(off as int) =~= Seq::<u8>::empty());
            assert(out@ + Seq::<DataEntry>::empty() =~= out@);
        }
        Ok(out)
    } else {
        Err(DecodeFault::Truncated)
    }
}

/// The primary telemetry log: decoded entries of every data segment opened so
/// far, merged in segment order.
pub struct Data {
    pub entries: Vec<DataEntry>,
}

/// The temperature log, the same shape as [`Data`] over temperature entries.
pub struct Temp {
    pub entries: Vec<TempEntry>,
}

impl Data {
    /// The timestamp the next decoded record must not precede: that of the
    /// last entry, or zero for an empty log.
    pub open spec fn last_time(self) -> u32 {
        if self.entries@.len() == 0 {
            0u32
        } else {
            self.entries@.last().time
        }
    }

    /// An empty log.
    pub fn new() -> (d: Data)
        ensures
            d.entries@ == Seq::<DataEntry>::empty(),
    {
        Data { entries: Vec::new() }
    }

    /// Decodes one segment and appends its entries to this log. On any fault
    /// the log is left exactly as it was: no partial segment is ever kept.
    /// A log that was time-ordered stays time-ordered.
    pub fn read_extend(&mut self, bytes: &[u8], version: Version) -> (r: Result<(), DecodeFault>)
        ensures
            match decode_data(version, bytes@, old(self).last_time()) {
                Decoded::Entries(es) => r matches Ok(u) && final(self).entries@ == old(
                    self,
                ).entries@ + es,
                Decoded::Fail(f) => r matches Err(g) && g == f && *final(self) == *old(self),
            },
            data_time_sorted(old(self).entries@) ==> data_time_sorted(final(self).entries@),
    {
        let last: u32 = if self.entries.len() == 0 {
            0
        } else {
            self.entries[self.entries.len() - 1].time
        };
        proof {
            lemma_decode_data_sorted(version, bytes@, last);
        }
        match decode_data_segment(bytes, version, last) {
            Ok(mut es) => {
                let ghost olds = self.entries@;
                let ghost news = es@;
                self.entries.append(&mut es);
                proof {
                    if data_time_sorted(olds) {
                        assert forall|i: int, j: int|
                            0 <= i <= j < self.entries@.len() implies self.entries@[i].time
                            <= self.entries@[j].time by {
                            if i >= olds.len() {
                                assert(news[i - olds.len()].time <= news[j - olds.len()].time);
                            } else if j >= olds.len() {
                                assert(news[j - olds.len()].time >= last);
                                if olds.len() > 0 {
                                    assert(olds[i].time <= olds[olds.len() - 1].time);
                                }
                            }
                        }
                    }
                }
                Ok(())
            },
            Err(f) => Err(f),
        }
    }
}

impl Temp {
    /// The timestamp the next decoded record must not precede: that of the
    /// last entry, or zero for an empty log.
    pub open spec fn last_time(self) -> u32 {
        if self.entries@.len() == 0 {
            0u32
        } else {
            self.entries@.last().time
        }
    }

    /// An empty log.
    pub fn new() -> (t: Temp)
        ensures
            t.entries@ == Seq::<TempEntry>::empty(),
    {
        Temp { entries: Vec::new() }
    }

    /// Decodes one segment and appends its entries to this log. On any fault
    /// the log is left exactly as it was: no partial segment is ever kept.
    /// A log that was time-ordered stays time-ordered.
    pub fn read_extend(&mut self, bytes: &[u8], version: Version) -> (r: Result<(), DecodeFault>)
        ensures
            match decode_temp(version, bytes@, old(self).last_time()) {
                Decoded::Entries(es) => r matches Ok(u) && final(self).entries@ == old(
                    self,
                ).entries@ + es,
                Decoded::Fail(f) => r matches Err(g) && g == f && *final(self) == *old(self),
            },
            temp_time_sorted(old(self).entries@) ==> temp_time_sorted(final(self).entries@),
    {
        let last: u32 = if self.entries.len() == 0 {
            0
        } else {
            self.entries[self.entries.len() - 1].time
        };
        proof {
            lemma_decode_temp_sorted(version, bytes@, last);
        }
        match decode_temp_segment(bytes, version, last) {
            Ok(mut es) => {
                let ghost olds = self.entries@;
                let ghost news = es@;
                self.entries.append(&mut es);
                proof {
                    if temp_time_sorted(olds) {
                        assert forall|i: int, j: int|
                            0 <= i <= j < self.entries@.len() implies self.entries@[i].time
                            <= self.entries@[j].time by {
                            if i >= olds.len() {
                                assert(news[i - olds.len()].time <= news[j - olds.len()].time);
                            } else if j >= olds.len() {
                                assert(news[j - olds.len()].time >= last);
                                if olds.len() > 0 {
                                    assert(olds[i].time <= olds[olds.len() - 1].time);
                                }
                            }
                        }
                    }
                }
                Ok(())
            },
            Err(f) => Err(f),
        }
    }
}

/// Decodes one whole temperature segment, where `last` is the timestamp of
/// the entry the segment will follow.
#[verifier::rlimit(50)]
fn decode_temp_segment(bytes: &[u8], v: Version, last: u32) -> (r: Result<
    Vec<TempEntry>,
    DecodeFault,
>)
    ensures
        match decode_temp(v, bytes@, last) {
            Decoded::Entries(es) => r matches Ok(out) && out@ == es,
            Decoded::Fail(f) => r matches Err(g) && g == f,
        },
{
    let rec_len: usize = match v {
        Version::V1 => 26,
        Version::V2 => 34,
    };
    let mut out: Vec<TempEntry> = Vec::new();
    let mut off: usize = 0;
    let mut prev: u32 = last;
    proof {
        assert(bytes@.skip(0) =~= bytes@);
        match decode_temp(v, bytes@, last) {
            Decoded::Entries(es) => {
                assert(Seq::<TempEntry>::empty() + es =~= es);
            },
            Decoded::Fail(_) => {},
        }
    }
    while rec_len <= bytes.len() - off
        invariant
            rec_len == temp_record_len(v),
            off <= bytes@.len(),
            prev == if out@.len() == 0 {
                last
            } else {
                out@.last().time
            },
            decode_temp(v, bytes@, last) == (match decode_temp(v, bytes@.skip(off as int), prev) {
                Decoded::Entries(es) => Decoded::Entries(out@ + es),
                Decoded::Fail(f) => Decoded::Fail::<TempEntry>(f),
            }),
        decreases bytes@.len() - off,
    {
        let e = read_temp_record(bytes, off, v);
        proof {
            assert(bytes@.skip(off as int).skip(rec_len as int) =~= bytes@.skip(
                off as int + rec_len,
            ));
        }
        if e.time < prev {
            return Err(DecodeFault::OutOfOrder);
        }
        let ghost old_out = out@;
        out.push(e);
        proof {
            match decode_temp(v, bytes@.skip(off as int + rec_len), e.time) {
                Decoded::Entries(rest) => {
                    assert(old_out + (seq![e] + rest) =~= out@ + rest);
                },
                Decoded::Fail(_) => {},
            }
        }
        prev = e.time;
        off = off + rec_len;
    }
    if off == bytes.len() {
        proof {
            assert(bytes@.skip(off as int) =~= Seq::<u8>::empty());
            assert(out@ + Seq::<TempEntry>::empty() =~= out@);
        }
        Ok(out)
    } else {
        Err(DecodeFault::Truncated)
    }
}

} // verus!
