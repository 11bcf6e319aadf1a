//! Session assembly: resolving a directory listing into an ordered file set,
//! driving the decoder across every segment, deriving every built-in and
//! custom channel series, and packaging the result into one immutable
//! snapshot.
use vstd::prelude::*;

use crate::channel::{
    DataChannel, Sample, TempChannel, Wheel, project_over_time_data, project_over_time_temp,
    projected_data, projected_temp,
};
use crate::data::{
    Data, DataEntry, DecodeFault, Decoded, Temp, TempEntry, Version, WheelValues,
    data_time_sorted, decode_data, decode_temp, temp_time_sorted,
};
use crate::eval::{
    CustomPlot, CustomValues, custom_ok, digit_char, digits_val, eval, is_digit_char,
    lemma_digits_val_monotone, lemma_digits_val_nonneg, spec_eval,
};

verus! {

/// A resolved file set: the data-segment names in ascending segment order,
/// and the temperature segment's name if the directory has one.
pub struct Files {
    pub data: Vec<String>,
    pub temp: Option<String>,
}

impl Default for Files {
    /// An empty file set.
    fn default() -> (files: Files)
        ensures
            files.data@.len() == 0,
            files.temp is None,
    {
        Files { data: Vec::new(), temp: None }
    }
}

/// Whether a file name marks the temperature segment.
pub open spec fn is_temp_name(name: Seq<char>) -> bool {
    name == "temperature.bin"@
}

/// The segment index a data-segment name carries: names of the shape
/// `<digits>.bin` whose number fits an unsigned 64-bit index; anything else
/// is not a data segment.
pub open spec fn data_seg_index(name: Seq<char>) -> Option<int> {
    let stem = name.len() - 4;
    if name.len() >= 5 && name.subrange(stem, name.len() as int) == ".bin"@ && (forall|k: int|
        0 <= k < stem ==> is_digit_char(#[trigger] name[k])) && digits_val(name, 0, stem)
        <= u64::MAX {
        Some(digits_val(name, 0, stem))
    } else {
        None
    }
}

/// The temperature name a directory listing resolves to: the last one, where
/// duplicates exist (a simplification of an unspecified case, not a
/// guarantee).
pub open spec fn spec_temp_choice(names: Seq<Seq<char>>) -> Option<Seq<char>>
    decreases names.len(),
{
    if names.len() == 0 {
        None
    } else if is_temp_name(names.last()) {
        Some(names.last())
    } else {
        spec_temp_choice(names.drop_last())
    }
}

/// Inserts one keyed name into a key-sorted run, after every entry whose key
/// does not exceed it, so equal indices keep their encounter order.
pub open spec fn insert_seg(s: Seq<(int, Seq<char>)>, k: int, nm: Seq<char>) -> Seq<
    (int, Seq<char>),
>
    decreases s.len(),
{
    if s.len() > 0 && s[0].0 <= k {
        seq![s[0]] + insert_seg(s.skip(1), k, nm)
    } else {
        seq![(k, nm)] + s
    }
}

/// The keyed data segments of a directory listing, in ascending index order:
/// every data-segment name, inserted one by one in encounter order.
pub open spec fn collect_segs(names: Seq<Seq<char>>) -> Seq<(int, Seq<char>)>
    decreases names.len(),
{
    if names.len() == 0 {
        Seq::empty()
    } else {
        let rest = collect_segs(names.drop_last());
        match data_seg_index(names.last()) {
            Some(k) => insert_seg(rest, k, names.last()),
            None => rest,
        }
    }
}

/// The names of a keyed segment run, keys dropped.
pub open spec fn seg_names(s: Seq<(int, Seq<char>)>) -> Seq<Seq<char>> {
    s.map_values(|p: (int, Seq<char>)| p.1)
}

/// The view of the working vector that holds keyed names while sorting.
pub open spec fn keyed_view(v: Seq<(u64, String)>) -> Seq<(int, Seq<char>)> {
    v.map_values(|p: (u64, String)| (p.0 as int, p.1@))
}

/// Keys never decrease along an inserted run.
pub open spec fn seg_sorted(s: Seq<(int, Seq<char>)>) -> bool {
    forall|i: int, j: int| 0 <= i <= j < s.len() ==> s[i].0 <= s[j].0
}

/// Insertion keeps a keyed run sorted.
proof fn lemma_insert_seg_sorted(s: Seq<(int, Seq<char>)>, k: int, nm: Seq<char>)
    requires
        seg_sorted(s),
    ensures
        seg_sorted(insert_seg(s, k, nm)),
        insert_seg(s, k, nm).len() == s.len() + 1,
    decreases s.len(),
{
    let out = insert_seg(s, k, nm);
    if s.len() > 0 && s[0].0 <= k {
        assert(seg_sorted(s.skip(1)));
        lemma_insert_seg_sorted(s.skip(1), k, nm);
        let rest = insert_seg(s.skip(1), k, nm);
        assert forall|i: int, j: int| 0 <= i <= j < out.len() implies out[i].0 <= out[j].0 by {
            if i > 0 {
                assert(out[i] == rest[i - 1] && out[j] == rest[j - 1]);
            } else if j > 0 {
                assert(out[j] == rest[j - 1]);
                lemma_insert_seg_members(s.skip(1), k, nm, j - 1);
            }
        }
    }
}

/// Every member of an inserted run is the new element or an original one.
proof fn lemma_insert_seg_members(s: Seq<(int, Seq<char>)>, k: int, nm: Seq<char>, j: int)
    requires
        0 <= j < insert_seg(s, k, nm).len(),
    ensures
        insert_seg(s, k, nm)[j] == (k, nm) || (exists|x: int|
            0 <= x < s.len() && s[x] == insert_seg(s, k, nm)[j]),
    decreases s.len(),
{
    let out = insert_seg(s, k, nm);
    if s.len() > 0 && s[0].0 <= k {
        if j > 0 {
            lemma_insert_seg_members(s.skip(1), k, nm, j - 1);
            let rest = insert_seg(s.skip(1), k, nm);
            if rest[j - 1] != (k, nm) {
                let x = choose|x: int| 0 <= x < s.skip(1).len() && s.skip(1)[x] == rest[j - 1];
                assert(s[x + 1] == out[j]);
            }
        } else {
            assert(s[0] == out[0]);
        }
    }
}

/// A collected segment run is sorted by segment index.
pub proof fn lemma_collect_segs_sorted(names: Seq<Seq<char>>)
    ensures
        seg_sorted(collect_segs(names)),
    decreases names.len(),
{
    if names.len() > 0 {
        lemma_collect_segs_sorted(names.drop_last());
        match data_seg_index(names.last()) {
            Some(k) => {
                lemma_insert_seg_sorted(collect_segs(names.drop_last()), k, names.last());
            },
            None => {},
        }
    }
}

/// Insertion loses nothing: the new element and every original one stand
/// somewhere in the result.
proof fn lemma_insert_seg_covers(s: Seq<(int, Seq<char>)>, k: int, nm: Seq<char>)
    ensures
        exists|j: int|
            0 <= j < insert_seg(s, k, nm).len() && #[trigger] insert_seg(s, k, nm)[j] == (k, nm),
        forall|x: int| #![trigger s[x]]
            0 <= x < s.len() ==> exists|j: int|
                0 <= j < insert_seg(s, k, nm).len() && #[trigger] insert_seg(s, k, nm)[j] == s[x],
    decreases s.len(),
{
    let out = insert_seg(s, k, nm);
    if s.len() > 0 && s[0].0 <= k {
        lemma_insert_seg_covers(s.skip(1), k, nm);
        let rest = insert_seg(s.skip(1), k, nm);
        let jn = choose|j: int| 0 <= j < rest.len() && rest[j] == (k, nm);
        assert(out[jn + 1] == (k, nm));
        assert forall|x: int| #![trigger s[x]] 0 <= x < s.len() implies exists|j: int|
            0 <= j < out.len() && #[trigger] out[j] == s[x] by {
            if x == 0 {
                assert(out[0] == s[0]);
            } else {
                assert(s.skip(1)[x - 1] == s[x]);
                let j = choose|j: int| 0 <= j < rest.len() && rest[j] == s.skip(1)[x - 1];
                assert(out[j + 1] == s[x]);
            }
        }
    } else {
        assert(out[0] == (k, nm));
        assert forall|x: int| #![trigger s[x]] 0 <= x < s.len() implies exists|j: int|
            0 <= j < out.len() && #[trigger] out[j] == s[x] by {
            assert(out[x + 1] == s[x]);
        }
    }
}

/// The resolved data set holds exactly the listing's data-segment names:
/// every resolved pair comes from a listed name carrying that index, and
/// every listed data-segment name stands somewhere in the resolved set.
pub proof fn lemma_collect_segs_complete(names: Seq<Seq<char>>)
    ensures
        forall|j: int| #![trigger collect_segs(names)[j]]
            0 <= j < collect_segs(names).len() ==> exists|i: int|
                0 <= i < names.len() && collect_segs(names)[j] == (
                    data_seg_index(#[trigger] names[i])->0,
                    names[i],
                ),
        forall|i: int| #![trigger data_seg_index(names[i])]
            0 <= i < names.len() && data_seg_index(names[i]) is Some ==> exists|j: int|
                0 <= j < collect_segs(names).len() && #[trigger] collect_segs(names)[j] == (
                    data_seg_index(names[i])->0,
                    names[i],
                ),
    decreases names.len(),
{
    if names.len() > 0 {
        lemma_collect_segs_complete(names.drop_last());
        let rest = collect_segs(names.drop_last());
        let out = collect_segs(names);
        match data_seg_index(names.last()) {
            Some(k) => {
                lemma_insert_seg_covers(rest, k, names.last());
                assert forall|j: int| #![trigger out[j]] 0 <= j < out.len() implies exists|i: int|
                    0 <= i < names.len() && out[j] == (
                        data_seg_index(#[trigger] names[i])->0,
                        names[i],
                    ) by {
                    lemma_insert_seg_members(rest, k, names.last(), j);
                    if out[j] == (k, names.last()) {
                        assert(out[j] == (
                            data_seg_index(names[names.len() - 1])->0,
                            names[names.len() - 1],
                        ));
                    } else {
                        let x = choose|x: int| 0 <= x < rest.len() && rest[x] == out[j];
                        let i = choose|i: int|
                            0 <= i < names.drop_last().len() && rest[x] == (
                                data_seg_index(names.drop_last()[i])->0,
                                names.drop_last()[i],
                            );
                        assert(names.drop_last()[i] == names[i]);
                        assert(out[j] == (data_seg_index(names[i])->0, names[i]));
                    }
                }
                assert forall|i: int| #![trigger data_seg_index(names[i])]
                    0 <= i < names.len() && data_seg_index(names[i]) is Some implies exists|j: int|
                    0 <= j < out.len() && #[trigger] out[j] == (
                        data_seg_index(names[i])->0,
                        names[i],
                    ) by {
                    if i == names.len() - 1 {
                        let j = choose|j: int|
                            0 <= j < out.len() && out[j] == (k, names.last());
                        assert(out[j] == (data_seg_index(names[i])->0, names[i]));
                    } else {
                        assert(names.drop_last()[i] == names[i]);
                        let x = choose|x: int|
                            0 <= x < rest.len() && rest[x] == (
                                data_seg_index(names.drop_last()[i])->0,
                                names.drop_last()[i],
                            );
                        let j = choose|j: int| 0 <= j < out.len() && out[j] == rest[x];
                        assert(out[j] == (data_seg_index(names[i])->0, names[i]));
                    }
                }
            },
            None => {
                assert forall|j: int| #![trigger out[j]] 0 <= j < out.len() implies exists|i: int|
                    0 <= i < names.len() && out[j] == (
                        data_seg_index(#[trigger] names[i])->0,
                        names[i],
                    ) by {
                    let i = choose|i: int|
                        0 <= i < names.drop_last().len() && out[j] == (
                            data_seg_index(names.drop_last()[i])->0,
                            names.drop_last()[i],
                        );
                    assert(names.drop_last()[i] == names[i]);
                }
                assert forall|i: int| #![trigger data_seg_index(names[i])]
                    0 <= i < names.len() && data_seg_index(names[i]) is Some implies exists|j: int|
                    0 <= j < out.len() && #[trigger] out[j] == (
                        data_seg_index(names[i])->0,
                        names[i],
                    ) by {
                    assert(i < names.len() - 1);
                    assert(names.drop_last()[i] == names[i]);
                }
            },
        }
    }
}

/// Insertion at the first position whose key exceeds the new one, written as
/// the sorted run split there.
proof fn lemma_insert_seg_at(s: Seq<(int, Seq<char>)>, k: int, nm: Seq<char>, pos: int)
    requires
        0 <= pos <= s.len(),
        forall|x: int| 0 <= x < pos ==> s[x].0 <= k,
        pos == s.len() || s[pos].0 > k,
    ensures
        insert_seg(s, k, nm) == s.subrange(0, pos) + seq![(k, nm)] + s.subrange(
            pos,
            s.len() as int,
        ),
    decreases s.len(),
{
    if pos == 0 {
        assert(insert_seg(s, k, nm) =~= s.subrange(0, 0) + seq![(k, nm)] + s.subrange(
            0,
            s.len() as int,
        ));
    } else {
        assert(forall|x: int| 0 <= x < pos - 1 ==> s.skip(1)[x].0 <= k);
        lemma_insert_seg_at(s.skip(1), k, nm, pos - 1);
        assert(insert_seg(s, k, nm) =~= s.subrange(0, pos) + seq![(k, nm)] + s.subrange(
            pos,
            s.len() as int,
        ));
    }
}

/// Whether two strings hold the same characters.
fn str_eq(a: &str, b: &str) -> (r: bool)
    ensures
        r == (a@ == b@),
{
    let na = a.unicode_len();
    let nb = b.unicode_len();
    if na != nb {
        return false;
    }
    let mut i: usize = 0;
    while i < na
        invariant
            na == a@.len(),
            na == b@.len(),
            i <= na,
            forall|x: int| 0 <= x < i ==> a@[x] == b@[x],
        decreases na - i,
    {
        if a.get_char(i) != b.get_char(i) {
            return false;
        }
        i = i + 1;
    }
    proof {
        assert(a@ =~= b@);
    }
    true
}

/// The segment index a file name carries, by the rule of [`data_seg_index`].
fn parse_seg_index(name: &str) -> (r: Option<u64>)
    ensures
        match data_seg_index(name@) {
            Some(k) => r matches Some(v) && v as int == k,
            None => r is None,
        },
{
    proof {
        reveal_strlit(".bin");
    }
    let n = name.unicode_len();
    if n < 5 {
        return None;
    }
    let stem = n - 4;
    if !(name.get_char(stem) == '.' && name.get_char(stem + 1) == 'b' && name.get_char(stem + 2)
        == 'i' && name.get_char(stem + 3) == 'n') {
        proof {
            let suf = name@.subrange(stem as int, n as int);
            assert(forall|x: int| 0 <= x < 4 ==> suf[x] == name@[stem + x]);
            assert(".bin"@.len() == 4 && ".bin"@[0] == '.' && ".bin"@[1] == 'b' && ".bin"@[2]
                == 'i' && ".bin"@[3] == 'n');
            assert(suf != ".bin"@);
        }
        return None;
    }
    proof {
        assert(name@.subrange(stem as int, n as int) =~= ".bin"@);
    }
    let mut k: usize = 0;
    while k < stem
        invariant
            n == name@.len(),
            stem == n - 4,
            k <= stem,
            forall|x: int| 0 <= x < k ==> is_digit_char(#[trigger] name@[x]),
        decreases stem - k,
    {
        if !digit_char(name.get_char(k)) {
            return None;
        }
        k = k + 1;
    }
    let mut acc: u64 = 0;
    let mut i: usize = 0;
    while i < stem
        invariant
            n == name@.len(),
            stem == n - 4,
            i <= stem,
            forall|x: int| 0 <= x < stem ==> is_digit_char(#[trigger] name@[x]),
            acc == digits_val(name@, 0, i as int),
        decreases stem - i,
    {
        let c = name.get_char(i);
        let d = c as u32 - '0' as u32;
        proof {
            lemma_digits_val_nonneg(name@, 0, i as int);
        }
        let step = match acc.checked_mul(10) {
            Some(m) => m.checked_add(d as u64),
            None => None,
        };
        match step {
            Some(v) => {
                acc = v;
            },
            None => {
                proof {
                    lemma_digits_val_monotone(name@, 0, i + 1, stem as int);
                }
                return None;
            },
        }
        i = i + 1;
    }
    Some(acc)
}

/// Resolves a directory listing (file names in encounter order) into the file
/// set a session is opened from: data segments ordered by ascending segment
/// index — numerically, never textually — and the temperature segment, if
/// any. Nothing is decoded here, and no name is ever rejected: names that are
/// neither segment kind are simply not part of the set.
#[verifier::rlimit(50)]
pub fn find_files(names: &Vec<String>) -> (files: Files)
    ensures
        match spec_temp_choice(names.deep_view()) {
            Some(nm) => files.temp matches Some(t) && t@ == nm,
            None => files.temp is None,
        },
        files.data.deep_view() == seg_names(collect_segs(names.deep_view())),
{
    let mut temp: Option<String> = None;
    let mut keyed: Vec<(u64, String)> = Vec::new();
    let n = names.len();
    proof {
        assert(names.deep_view().take(0) =~= Seq::<Seq<char>>::empty());
    }
    for idx in 0..n
        invariant
            n == names@.len(),
            names.deep_view().len() == n,
            match spec_temp_choice(names.deep_view().take(idx as int)) {
                Some(nm) => temp matches Some(t) && t@ == nm,
                None => temp is None,
            },
            keyed_view(keyed@) == collect_segs(names.deep_view().take(idx as int)),
    {
        proof {
            assert(names.deep_view().take(idx + 1).drop_last() =~= names.deep_view().take(
                idx as int,
            ));
            assert(names.deep_view().take(idx + 1).last() == names@[idx as int]@);
        }
        let name = &names[idx];
        if str_eq(name.as_str(), "temperature.bin") {
            proof {
                reveal_strlit("temperature.bin");
                assert(!is_digit_char(name@[0]));
                assert(data_seg_index(name@) is None);
            }
            temp = Some(name.clone());
        } else {
            match parse_seg_index(name.as_str()) {
                Some(k) => {
                    let mut pos: usize = 0;
                    while pos < keyed.len() && keyed[pos].0 <= k
                        invariant
                            pos <= keyed@.len(),
                            forall|x: int| 0 <= x < pos ==> keyed_view(keyed@)[x].0 <= k,
                        decreases keyed@.len() - pos,
                    {
                        pos = pos + 1;
                    }
                    let ghost old_kv = keyed_view(keyed@);
                    proof {
                        lemma_insert_seg_at(old_kv, k as int, names@[idx as int]@, pos as int);
                    }
                    keyed.insert(pos, (k, name.clone()));
                    proof {
                        assert(keyed_view(keyed@) =~= old_kv.subrange(0, pos as int) + seq![
                            (k as int, names@[idx as int]@),
                        ] + old_kv.subrange(pos as int, old_kv.len() as int));
                    }
                },
                None => {},
            }
        }
    }
    proof {
        assert(names.deep_view().take(n as int) =~= names.deep_view());
    }
    let mut data: Vec<String> = Vec::new();
    let m = keyed.len();
    for i in 0..m
        invariant
            m == keyed@.len(),
            keyed_view(keyed@) == collect_segs(names.deep_view()),
            data@.len() == i,
            forall|x: int| 0 <= x < i ==> #[trigger] data@[x]@ == seg_names(keyed_view(keyed@))[x],
    {
        data.push(keyed[i].1.clone());
    }
    proof {
        assert(data.deep_view() =~= seg_names(keyed_view(keyed@)));
    }
    Files { data, temp }
}

/// A session-fatal failure: the file that could not be decoded, and why. One
/// such failure aborts the whole build and no partial log is ever exposed.
#[derive(Debug)]
pub struct Error {
    pub file: String,
    pub fault: DecodeFault,
}

impl Error {
    /// A human-readable reason for the failure.
    pub fn msg(&self) -> (r: String)
        ensures
            match self.fault {
                DecodeFault::Truncated => r@ == "truncated record"@,
                DecodeFault::OutOfOrder => r@ == "record timestamps go backwards"@,
            },
    {
        match self.fault {
            DecodeFault::Truncated => "truncated record".to_owned(),
            DecodeFault::OutOfOrder => "record timestamps go backwards".to_owned(),
        }
    }
}

/// One assembled session snapshot: the two raw logs, every built-in channel
/// series, and the outcome of every custom formula. Immutable once built; a
/// later open replaces it wholesale.
pub struct PlotData {
    pub raw_data: Data,
    pub raw_temp: Temp,
    pub power: WheelValues<Vec<Sample>>,
    pub velocity: WheelValues<Vec<Sample>>,
    pub torque_set: WheelValues<Vec<Sample>>,
    pub torque_real: WheelValues<Vec<Sample>>,
    pub temp: WheelValues<Vec<Sample>>,
    pub room_temp: WheelValues<Vec<Sample>>,
    pub heatsink_temp: WheelValues<Vec<Sample>>,
    pub ams_temp_max: Vec<Sample>,
    pub water_temp_converter: Vec<Sample>,
    pub water_temp_motor: Vec<Sample>,
    pub custom: Vec<CustomValues>,
}

/// What a well-built snapshot holds, given the decoded logs and the custom
/// formulas: the raw logs themselves, every built-in channel projected over
/// its log, and one evaluation outcome per formula, each formula judged
/// independently of the others.
pub open spec fn plot_data_ok(
    pd: PlotData,
    des: Seq<DataEntry>,
    tes: Seq<TempEntry>,
    plots: Seq<CustomPlot>,
) -> bool {
    &&& pd.raw_data.entries@ == des
    &&& pd.raw_temp.entries@ == tes
    &&& pd.power.fl@ == projected_data(des, DataChannel::Power(Wheel::Fl))
    &&& pd.power.fr@ == projected_data(des, DataChannel::Power(Wheel::Fr))
    &&& pd.power.rl@ == projected_data(des, DataChannel::Power(Wheel::Rl))
    &&& pd.power.rr@ == projected_data(des, DataChannel::Power(Wheel::Rr))
    &&& pd.velocity.fl@ == projected_data(des, DataChannel::Velocity(Wheel::Fl))
    &&& pd.velocity.fr@ == projected_data(des, DataChannel::Velocity(Wheel::Fr))
    &&& pd.velocity.rl@ == projected_data(des, DataChannel::Velocity(Wheel::Rl))
    &&& pd.velocity.rr@ == projected_data(des, DataChannel::Velocity(Wheel::Rr))
    &&& pd.torque_set.fl@ == projected_data(des, DataChannel::TorqueSet(Wheel::Fl))
    &&& pd.torque_set.fr@ == projected_data(des, DataChannel::TorqueSet(Wheel::Fr))
    &&& pd.torque_set.rl@ == projected_data(des, DataChannel::TorqueSet(Wheel::Rl))
    &&& pd.torque_set.rr@ == projected_data(des, DataChannel::TorqueSet(Wheel::Rr))
    &&& pd.torque_real.fl@ == projected_data(des, DataChannel::TorqueReal(Wheel::Fl))
    &&& pd.torque_real.fr@ == projected_data(des, DataChannel::TorqueReal(Wheel::Fr))
    &&& pd.torque_real.rl@ == projected_data(des, DataChannel::TorqueReal(Wheel::Rl))
    &&& pd.torque_real.rr@ == projected_data(des, DataChannel::TorqueReal(Wheel::Rr))
    &&& pd.temp.fl@ == projected_temp(tes, TempChannel::Temp(Wheel::Fl))
    &&& pd.temp.fr@ == projected_temp(tes, TempChannel::Temp(Wheel::Fr))
    &&& pd.temp.rl@ == projected_temp(tes, TempChannel::Temp(Wheel::Rl))
    &&& pd.temp.rr@ == projected_temp(tes, TempChannel::Temp(Wheel::Rr))
    &&& pd.room_temp.fl@ == projected_temp(tes, TempChannel::RoomTemp(Wheel::Fl))
    &&& pd.room_temp.fr@ == projected_temp(tes, TempChannel::RoomTemp(Wheel::Fr))
    &&& pd.room_temp.rl@ == projected_temp(tes, TempChannel::RoomTemp(Wheel::Rl))
    &&& pd.room_temp.rr@ == projected_temp(tes, TempChannel::RoomTemp(Wheel::Rr))
    &&& pd.heatsink_temp.fl@ == projected_temp(tes, TempChannel::HeatsinkTemp(Wheel::Fl))
    &&& pd.heatsink_temp.fr@ == projected_temp(tes, TempChannel::HeatsinkTemp(Wheel::Fr))
    &&& pd.heatsink_temp.rl@ == projected_temp(tes, TempChannel::HeatsinkTemp(Wheel::Rl))
    &&& pd.heatsink_temp.rr@ == projected_temp(tes, TempChannel::HeatsinkTemp(Wheel::Rr))
    &&& pd.ams_temp_max@ == projected_temp(tes, TempChannel::AmsTempMax)
    &&& pd.water_temp_converter@ == projected_temp(tes, TempChannel::WaterTempConverter)
    &&& pd.water_temp_motor@ == projected_temp(tes, TempChannel::WaterTempMotor)
    &&& pd.custom@.len() == plots.len()
    &&& forall|i: int|
        0 <= i < plots.len() ==> custom_ok(
            #[trigger] pd.custom@[i],
            spec_eval(plots[i].expr@, des, tes),
        )
}

/// Decoding the data segments from index `k` on, appended onto the entries
/// decoded so far: the merged log, or the index of the first segment that
/// fails and its fault — later segments are never looked at.
pub open spec fn assemble_data_from(
    version: Version,
    segs: Seq<Seq<u8>>,
    k: int,
    acc: Seq<DataEntry>,
) -> Result<Seq<DataEntry>, (int, DecodeFault)>
    decreases segs.len() - k,
{
    if !(0 <= k < segs.len()) {
        Ok(acc)
    } else {
        match decode_data(version, segs[k], crate::data::data_cont_time(acc, 0)) {
            Decoded::Entries(es) => assemble_data_from(version, segs, k + 1, acc + es),
            Decoded::Fail(f) => Err((k, f)),
        }
    }
}

/// The byte streams of an optional temperature segment.
pub open spec fn opt_bytes_view(o: Option<Vec<u8>>) -> Option<Seq<u8>> {
    match o {
        Some(b) => Some(b@),
        None => None,
    }
}

/// How one whole open resolves, before any series is derived.
pub enum OpenSpec {
    /// Both logs decoded cleanly.
    Logs(Seq<DataEntry>, Seq<TempEntry>),
    /// The named file failed to decode; the session build aborts.
    Failed(Seq<char>, DecodeFault),
}

/// What opening a file set yields: the data segments merged in order into one
/// log — aborting on the first faulting segment, whose name the failure
/// carries — then the temperature segment, if any, decoded into the other log
/// under the same policy; an absent temperature file yields an empty log.
pub open spec fn open_outcome(
    files: Files,
    dv: Seq<Seq<u8>>,
    tv: Option<Seq<u8>>,
    version: Version,
) -> OpenSpec {
    match assemble_data_from(version, dv, 0, Seq::empty()) {
        Err((i, f)) => OpenSpec::Failed(files.data@[i]@, f),
        Ok(des) => match tv {
            None => OpenSpec::Logs(des, Seq::empty()),
            Some(tb) => match decode_temp(version, tb, 0) {
                Decoded::Fail(f) => OpenSpec::Failed(files.temp->0@, f),
                Decoded::Entries(tes) => OpenSpec::Logs(des, tes),
            },
        },
    }
}

/// Derives every built-in and custom channel series from the two decoded
/// logs and packages the snapshot.
pub fn derive_plot_data(d: Data, t: Temp, custom_plots: &Vec<CustomPlot>) -> (pd: PlotData)
    ensures
        plot_data_ok(pd, d.entries@, t.entries@, custom_plots@),
{
    let power = WheelValues {
        fl: project_over_time_data(&d.entries, DataChannel::Power(Wheel::Fl)),
        fr: project_over_time_data(&d.entries, DataChannel::Power(Wheel::Fr)),
        rl: project_over_time_data(&d.entries, DataChannel::Power(Wheel::Rl)),
        rr: project_over_time_data(&d.entries, DataChannel::Power(Wheel::Rr)),
    };
    let velocity = WheelValues {
        fl: project_over_time_data(&d.entries, DataChannel::Velocity(Wheel::Fl)),
        fr: project_over_time_data(&d.entries, DataChannel::Velocity(Wheel::Fr)),
        rl: project_over_time_data(&d.entries, DataChannel::Velocity(Wheel::Rl)),
        rr: project_over_time_data(&d.entries, DataChannel::Velocity(Wheel::Rr)),
    };
    let torque_set = WheelValues {
        fl: project_over_time_data(&d.entries, DataChannel::TorqueSet(Wheel::Fl)),
        fr: project_over_time_data(&d.entries, DataChannel::TorqueSet(Wheel::Fr)),
        rl: project_over_time_data(&d.entries, DataChannel::TorqueSet(Wheel::Rl)),
        rr: project_over_time_data(&d.entries, DataChannel::TorqueSet(Wheel::Rr)),
    };
    let torque_real = WheelValues {
        fl: project_over_time_data(&d.entries, DataChannel::TorqueReal(Wheel::Fl)),
        fr: project_over_time_data(&d.entries, DataChannel::TorqueReal(Wheel::Fr)),
        rl: project_over_time_data(&d.entries, DataChannel::TorqueReal(Wheel::Rl)),
        rr: project_over_time_data(&d.entries, DataChannel::TorqueReal(Wheel::Rr)),
    };
    let temp = WheelValues {
        fl: project_over_time_temp(&t.entries, TempChannel::Temp(Wheel::Fl)),
        fr: project_over_time_temp(&t.entries, TempChannel::Temp(Wheel::Fr)),
        rl: project_over_time_temp(&t.entries, TempChannel::Temp(Wheel::Rl)),
        rr: project_over_time_temp(&t.entries, TempChannel::Temp(Wheel::Rr)),
    };
    let room_temp = WheelValues {
        fl: project_over_time_temp(&t.entries, TempChannel::RoomTemp(Wheel::Fl)),
        fr: project_over_time_temp(&t.entries, TempChannel::RoomTemp(Wheel::Fr)),
        rl: project_over_time_temp(&t.entries, TempChannel::RoomTemp(Wheel::Rl)),
        rr: project_over_time_temp(&t.entries, TempChannel::RoomTemp(Wheel::Rr)),
    };
    let heatsink_temp = WheelValues {
        fl: project_over_time_temp(&t.entries, TempChannel::HeatsinkTemp(Wheel::Fl)),
        fr: project_over_time_temp(&t.entries, TempChannel::HeatsinkTemp(Wheel::Fr)),
        rl: project_over_time_temp(&t.entries, TempChannel::HeatsinkTemp(Wheel::Rl)),
        rr: project_over_time_temp(&t.entries, TempChannel::HeatsinkTemp(Wheel::Rr)),
    };
    let ams_temp_max = project_over_time_temp(&t.entries, TempChannel::AmsTempMax);
    let water_temp_converter = project_over_time_temp(&t.entries, TempChannel::WaterTempConverter);
    let water_temp_motor = project_over_time_temp(&t.entries, TempChannel::WaterTempMotor);
    let mut custom: Vec<CustomValues> = Vec::new();
    let m = custom_plots.len();
    for i in 0..m
        invariant
            m == custom_plots@.len(),
            custom@.len() == i,
            forall|x: int|
                0 <= x < i ==> custom_ok(
                    #[trigger] custom@[x],
                    spec_eval(custom_plots@[x].expr@, d.entries@, t.entries@),
                ),
    {
        let r = eval(custom_plots[i].expr.as_str(), &d, &t);
        custom.push(CustomValues::from_result(r));
    }
    PlotData {
        raw_data: d,
        raw_temp: t,
        power,
        velocity,
        torque_set,
        torque_real,
        temp,
        room_temp,
        heatsink_temp,
        ams_temp_max,
        water_temp_converter,
        water_temp_motor,
        custom,
    }
}

/// Builds one session snapshot from a resolved file set whose segment
/// contents the caller has read: every data segment is decoded in order into
/// one log, then the temperature segment if present; the first fault aborts
/// the build, naming the failing file, and later segments are never decoded.
/// On success every built-in series and every custom formula outcome is
/// derived. Custom formulas never fail the session.
pub fn open_files(
    files: &Files,
    data_bytes: &Vec<Vec<u8>>,
    temp_bytes: &Option<Vec<u8>>,
    version: Version,
    custom_plots: &Vec<CustomPlot>,
) -> (r: Result<PlotData, Error>)
    requires
        data_bytes@.len() == files.data@.len(),
        temp_bytes is Some <==> files.temp is Some,
    ensures
        match open_outcome(*files, data_bytes.deep_view(), opt_bytes_view(*temp_bytes), version) {
            OpenSpec::Failed(nm, f) => r matches Err(e) && e.file@ == nm && e.fault == f,
            OpenSpec::Logs(des, tes) => r matches Ok(pd) && plot_data_ok(
                pd,
                des,
                tes,
                custom_plots@,
            ) && data_time_sorted(des) && temp_time_sorted(tes),
        },
{
    let ghost dv = data_bytes.deep_view();
    let mut d = Data::new();
    let n = data_bytes.len();
    let mut i: usize = 0;
    while i < n
        invariant
            n == dv.len(),
            dv == data_bytes.deep_view(),
            data_bytes@.len() == files.data@.len(),
            i <= n,
            assemble_data_from(version, dv, 0, Seq::empty()) == assemble_data_from(
                version,
                dv,
                i as int,
                d.entries@,
            ),
            data_time_sorted(d.entries@),
        decreases n - i,
    {
        proof {
            assert(data_bytes@[i as int]@ == dv[i as int]);
        }
        match d.read_extend(data_bytes[i].as_slice(), version) {
            Ok(_) => {},
            Err(f) => {
                return Err(Error { file: files.data[i].clone(), fault: f });
            },
        }
        i = i + 1;
    }
    let mut t = Temp::new();
    match (temp_bytes, &files.temp) {
        (Some(tb), Some(_nm)) => {
            match t.read_extend(tb.as_slice(), version) {
                Ok(_) => {},
                Err(f) => {
                    let nm = match &files.temp {
                        Some(nm) => nm.clone(),
                        None => String::new(),
                    };
                    return Err(Error { file: nm, fault: f });
                },
            }
        },
        _ => {},
    }
    Ok(derive_plot_data(d, t, custom_plots))
}

/// The application state the core maintains: the active schema version, the
/// custom-channel definitions, and the outcome of the last open.
pub struct PlotApp {
    pub version: Version,
    pub custom_plots: Vec<CustomPlot>,
    pub files: Option<Files>,
    pub data: Option<PlotData>,
    pub error: Option<Error>,
}

impl PlotApp {
    /// Opens a resolved file set whose contents the caller has read: on
    /// success the new snapshot replaces the old one wholesale and any old
    /// error is cleared; on failure no data is kept and the failure is
    /// recorded. Either way the file set is remembered.
    pub fn try_open(&mut self, files: Files, data_bytes: &Vec<Vec<u8>>, temp_bytes: &Option<
        Vec<u8>,
    >)
        requires
            data_bytes@.len() == files.data@.len(),
            temp_bytes is Some <==> files.temp is Some,
        ensures
            final(self).version == old(self).version,
            final(self).custom_plots == old(self).custom_plots,
            final(self).files == Some(files),
            match open_outcome(
                files,
                data_bytes.deep_view(),
                opt_bytes_view(*temp_bytes),
                old(self).version,
            ) {
                OpenSpec::Failed(nm, f) => {
                    &&& final(self).data is None
                    &&& final(self).error matches Some(e) && e.file@ == nm && e.fault == f
                },
                OpenSpec::Logs(des, tes) => {
                    &&& final(self).error is None
                    &&& final(self).data matches Some(pd) && plot_data_ok(
                        pd,
                        des,
                        tes,
                        old(self).custom_plots@,
                    )
                    &&& data_time_sorted(des) && temp_time_sorted(tes)
                },
            },
    {
        match open_files(&files, data_bytes, temp_bytes, self.version, &self.custom_plots) {
            Ok(pd) => {
                self.data = Some(pd);
                self.error = None;
            },
            Err(e) => {
                self.data = None;
                self.error = Some(e);
            },
        }
        self.files = Some(files);
    }
}

} // verus!
