use telemetry::channel::{project_over_time_data, DataChannel, Sample, Wheel};
use telemetry::data::{Data, DecodeFault, Temp, Version};
use telemetry::eval::{eval, CustomPlot, CustomValues, EvalError};
use telemetry::session::{find_files, open_files, Files, PlotApp};

fn le16(v: i16) -> [u8; 2] {
    let u = v as u16;
    [(u & 0xff) as u8, (u >> 8) as u8]
}

fn le32(v: u32) -> [u8; 4] {
    [
        (v & 0xff) as u8,
        ((v >> 8) & 0xff) as u8,
        ((v >> 16) & 0xff) as u8,
        ((v >> 24) & 0xff) as u8,
    ]
}

fn data_rec_v1(time: u32, raw: [i16; 12]) -> Vec<u8> {
    let mut b = Vec::new();
    b.extend_from_slice(&le32(time));
    for r in raw.iter() {
        b.extend_from_slice(&le16(*r));
    }
    b
}

fn temp_rec_v1(time: u32, raw: [i16; 11]) -> Vec<u8> {
    let mut b = Vec::new();
    b.extend_from_slice(&le32(time));
    for r in raw.iter() {
        b.extend_from_slice(&le16(*r));
    }
    b
}

fn data_log_v1(recs: &[(u32, [i16; 12])]) -> Data {
    let mut d = Data::new();
    for (t, raw) in recs.iter() {
        d.read_extend(&data_rec_v1(*t, *raw), Version::V1).unwrap();
    }
    d
}

fn names(list: &[&str]) -> Vec<String> {
    list.iter().map(|s| s.to_string()).collect()
}

#[test]
fn find_files_orders_segments_numerically() {
    let fs = find_files(&names(&["2.bin", "10.bin", "1.bin", "temperature.bin"]));
    assert_eq!(fs.data, vec!["1.bin".to_string(), "2.bin".to_string(), "10.bin".to_string()]);
    assert_eq!(fs.temp, Some("temperature.bin".to_string()));
}

#[test]
fn find_files_skips_foreign_names() {
    let fs = find_files(&names(&[
        "notes.txt",
        "x.bin",
        "3.bin",
        "04.bin",
        ".bin",
        "5",
        "99999999999999999999999.bin",
    ]));
    assert_eq!(fs.data, vec!["3.bin".to_string(), "04.bin".to_string()]);
    assert_eq!(fs.temp, None);
}

#[test]
fn find_files_last_temperature_wins() {
    let fs = find_files(&names(&["temperature.bin", "1.bin", "temperature.bin"]));
    assert_eq!(fs.temp, Some("temperature.bin".to_string()));
    assert_eq!(fs.data, vec!["1.bin".to_string()]);
}

#[test]
fn find_files_keeps_equal_indices_in_encounter_order() {
    let fs = find_files(&names(&["07.bin", "7.bin", "6.bin"]));
    assert_eq!(
        fs.data,
        vec!["6.bin".to_string(), "07.bin".to_string(), "7.bin".to_string()]
    );
}

#[test]
fn projection_keeps_order_and_skips_absent_channels() {
    let d = data_log_v1(&[(1, [5; 12]), (2, [6; 12]), (2, [7; 12])]);
    let power = project_over_time_data(&d.entries, DataChannel::Power(Wheel::Fl));
    assert_eq!(
        power,
        vec![
            Sample { time: 1, value: 50 },
            Sample { time: 2, value: 60 },
            Sample { time: 2, value: 70 },
        ]
    );
    // Realized torque does not exist under the first schema version, so its
    // series is strictly shorter than the log: here, empty.
    let torque_real = project_over_time_data(&d.entries, DataChannel::TorqueReal(Wheel::Fl));
    assert_eq!(torque_real, Vec::<Sample>::new());
}

#[test]
fn eval_sums_two_channels_elementwise() {
    let d = data_log_v1(&[(1, [3; 12]), (2, [4; 12]), (5, [5; 12])]);
    let t = Temp::new();
    let r = eval("power_fl + power_fr", &d, &t).unwrap();
    assert_eq!(
        r,
        vec![
            Sample { time: 1, value: 60 },
            Sample { time: 2, value: 80 },
            Sample { time: 5, value: 100 },
        ]
    );
}

#[test]
fn eval_respects_precedence_and_parentheses() {
    let d = data_log_v1(&[(1, [0; 12])]);
    let t = Temp::new();
    assert_eq!(eval("2 + 3 * 4", &d, &t).unwrap()[0].value, 14);
    assert_eq!(eval("(2 + 3) * 4", &d, &t).unwrap()[0].value, 20);
    assert_eq!(eval("2 - 3 - 4", &d, &t).unwrap()[0].value, -5);
    assert_eq!(eval("-2 + 5", &d, &t).unwrap()[0].value, 3);
    assert_eq!(eval("(0 - 7) / 2", &d, &t).unwrap()[0].value, -3);
    assert_eq!(eval("7 / 2", &d, &t).unwrap()[0].value, 3);
}

#[test]
fn eval_reads_temperature_channels() {
    let d = Data::new();
    let mut t = Temp::new();
    t.read_extend(&temp_rec_v1(4, [100, 0, 0, 0, 0, 0, 0, 0, 0, 0, 0]), Version::V1)
        .unwrap();
    let r = eval("temp_fl * 2", &d, &t).unwrap();
    assert_eq!(r, vec![Sample { time: 4, value: 200 }]);
}

#[test]
fn eval_division_by_zero_is_its_own_error() {
    let d = data_log_v1(&[(1, [0; 12])]);
    let t = Temp::new();
    assert_eq!(eval("1 / 0", &d, &t), Err(EvalError::DivisionByZero));
}

#[test]
fn eval_unknown_identifier_is_named() {
    let d = data_log_v1(&[(1, [0; 12])]);
    let t = Temp::new();
    assert_eq!(
        eval("power_fl + bogus", &d, &t),
        Err(EvalError::UnknownChannel("bogus".to_string()))
    );
}

#[test]
fn eval_rejects_mixed_sources() {
    let d = data_log_v1(&[(1, [0; 12])]);
    let t = Temp::new();
    assert_eq!(eval("power_fl + temp_fl", &d, &t), Err(EvalError::MixedSources));
}

#[test]
fn eval_overflow_and_oversized_literal() {
    let d = data_log_v1(&[(1, [0; 12])]);
    let t = Temp::new();
    assert_eq!(
        eval("9223372036854775807 + 1", &d, &t),
        Err(EvalError::Overflow)
    );
    assert_eq!(eval("9223372036854775808", &d, &t), Err(EvalError::Parse));
}

#[test]
fn eval_negation_edge_cases() {
    let d = data_log_v1(&[(1, [0; 12])]);
    let t = Temp::new();
    assert_eq!(eval("--2", &d, &t).unwrap()[0].value, 2);
    // Negating the smallest 64-bit value does not fit.
    assert_eq!(
        eval("-(0 - 9223372036854775807 - 1)", &d, &t),
        Err(EvalError::Overflow)
    );
    // Neither does dividing it by minus one.
    assert_eq!(
        eval("(0 - 9223372036854775807 - 1) / (0 - 1)", &d, &t),
        Err(EvalError::Overflow)
    );
    assert_eq!(eval(" \t 1 \t + 2 ", &d, &t).unwrap()[0].value, 3);
}

#[test]
fn eval_parse_errors() {
    let d = data_log_v1(&[(1, [0; 12])]);
    let t = Temp::new();
    assert_eq!(eval("", &d, &t), Err(EvalError::Parse));
    assert_eq!(eval("2 +", &d, &t), Err(EvalError::Parse));
    assert_eq!(eval("(2", &d, &t), Err(EvalError::Parse));
    assert_eq!(eval("2 3", &d, &t), Err(EvalError::Parse));
    assert_eq!(eval("power_fl ?", &d, &t), Err(EvalError::Parse));
}

#[test]
fn eval_skips_entries_missing_a_channel() {
    // Realized torque is absent under the first schema version, so the
    // formula has no entry to draw on.
    let d = data_log_v1(&[(1, [2; 12]), (2, [3; 12])]);
    let t = Temp::new();
    assert_eq!(eval("torque_real_fl + 1", &d, &t).unwrap(), Vec::<Sample>::new());
}

fn plot(name: &str, expr: &str) -> CustomPlot {
    CustomPlot {
        name: name.to_string(),
        expr: expr.to_string(),
    }
}

#[test]
fn open_files_builds_full_session() {
    let files = Files {
        data: vec!["0.bin".to_string(), "1.bin".to_string()],
        temp: Some("temperature.bin".to_string()),
    };
    let data_bytes = vec![data_rec_v1(1, [2; 12]), data_rec_v1(3, [4; 12])];
    let temp_bytes = Some(temp_rec_v1(2, [80; 11]));
    let plots = vec![plot("sum", "power_fl + power_fr")];
    let pd = open_files(&files, &data_bytes, &temp_bytes, Version::V1, &plots).unwrap();
    assert_eq!(pd.raw_data.entries.len(), 2);
    assert_eq!(pd.raw_temp.entries.len(), 1);
    assert_eq!(pd.power.fl.len(), 2);
    assert_eq!(pd.power.fl[1], Sample { time: 3, value: 40 });
    assert_eq!(pd.velocity.rr.len(), 2);
    // Channels the version does not record stay empty.
    assert_eq!(pd.torque_real.fl.len(), 0);
    assert_eq!(pd.room_temp.fl.len(), 0);
    assert_eq!(pd.temp.fl, vec![Sample { time: 2, value: 0 }]);
    assert_eq!(pd.ams_temp_max.len(), 1);
    assert_eq!(pd.custom.len(), 1);
    match &pd.custom[0] {
        CustomValues::Values(v) => assert_eq!(v.len(), 2),
        CustomValues::Error(_) => panic!("custom formula should evaluate"),
    }
}

#[test]
fn open_files_missing_temperature_gives_empty_log() {
    let files = Files {
        data: vec!["0.bin".to_string()],
        temp: None,
    };
    let data_bytes = vec![data_rec_v1(1, [2; 12])];
    let pd = open_files(&files, &data_bytes, &None, Version::V1, &Vec::new()).unwrap();
    assert_eq!(pd.raw_temp.entries.len(), 0);
    assert_eq!(pd.temp.fl.len(), 0);
    assert_eq!(pd.water_temp_motor.len(), 0);
}

#[test]
fn open_files_reports_first_failing_segment() {
    let files = Files {
        data: vec!["0.bin".to_string(), "1.bin".to_string()],
        temp: None,
    };
    let mut truncated = data_rec_v1(1, [0; 12]);
    truncated.pop();
    // The second segment is perfectly valid; the build never reaches it.
    let data_bytes = vec![truncated, data_rec_v1(2, [0; 12])];
    match open_files(&files, &data_bytes, &None, Version::V1, &Vec::new()) {
        Ok(_) => panic!("assembly should abort on the truncated segment"),
        Err(err) => {
            assert_eq!(err.file, "0.bin".to_string());
            assert_eq!(err.fault, DecodeFault::Truncated);
            assert_eq!(err.msg(), "truncated record".to_string());
        }
    }
}

#[test]
fn custom_formula_failure_never_fails_the_session() {
    let files = Files {
        data: vec!["0.bin".to_string()],
        temp: None,
    };
    let data_bytes = vec![data_rec_v1(1, [2; 12])];
    let plots = vec![plot("bad", "power_fl + unknown_chan"), plot("good", "power_fl")];
    let pd = open_files(&files, &data_bytes, &None, Version::V1, &plots).unwrap();
    assert_eq!(pd.custom.len(), 2);
    match &pd.custom[0] {
        CustomValues::Error(EvalError::UnknownChannel(n)) => {
            assert_eq!(n, &"unknown_chan".to_string())
        }
        _ => panic!("first formula should fail on its unknown channel"),
    }
    match &pd.custom[1] {
        CustomValues::Values(v) => assert_eq!(v, &vec![Sample { time: 1, value: 20 }]),
        CustomValues::Error(_) => panic!("second formula should evaluate"),
    }
}

#[test]
fn try_open_replaces_state_wholesale() {
    let mut app = PlotApp {
        version: Version::V1,
        custom_plots: Vec::new(),
        files: None,
        data: None,
        error: None,
    };
    let files = Files {
        data: vec!["0.bin".to_string()],
        temp: None,
    };
    app.try_open(files, &vec![data_rec_v1(1, [1; 12])], &None);
    assert!(app.data.is_some());
    assert!(app.error.is_none());
    assert!(app.files.is_some());

    // A failing open discards the previous snapshot and records the error.
    let files = Files {
        data: vec!["9.bin".to_string()],
        temp: None,
    };
    app.try_open(files, &vec![vec![1, 2, 3]], &None);
    assert!(app.data.is_none());
    let err = app.error.as_ref().unwrap();
    assert_eq!(err.file, "9.bin".to_string());
    assert_eq!(err.fault, DecodeFault::Truncated);
}
