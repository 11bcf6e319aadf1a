use telemetry::data::{Data, DecodeFault, Temp, Version};

fn le16(v: i16) -> [u8; 2] {
    let u = v as u16;
    [(u & 0xff) as u8, (u >> 8) as u8]
}

fn le32(v: u32) -> [u8; 4] {
    [
        (v & 0xff) as u8,
        ((v >> 8) & 0xff) as u8,
        ((v >> 16) & 0xff) as u8,
        ((v >> 24) & 0xff) as u8,
    ]
}

/// One version-one telemetry record: timestamp, then per-wheel power,
/// velocity and commanded torque raw readings.
fn data_rec_v1(time: u32, raw: [i16; 12]) -> Vec<u8> {
    let mut b = Vec::new();
    b.extend_from_slice(&le32(time));
    for r in raw.iter() {
        b.extend_from_slice(&le16(*r));
    }
    b
}

/// One version-two telemetry record: version one plus per-wheel realized
/// torque.
fn data_rec_v2(time: u32, raw: [i16; 16]) -> Vec<u8> {
    let mut b = Vec::new();
    b.extend_from_slice(&le32(time));
    for r in raw.iter() {
        b.extend_from_slice(&le16(*r));
    }
    b
}

/// One version-one temperature record: timestamp, per-wheel temperature,
/// per-wheel heatsink temperature, battery-management maximum, converter and
/// motor coolant.
fn temp_rec_v1(time: u32, raw: [i16; 11]) -> Vec<u8> {
    let mut b = Vec::new();
    b.extend_from_slice(&le32(time));
    for r in raw.iter() {
        b.extend_from_slice(&le16(*r));
    }
    b
}

/// One version-two temperature record: the per-wheel room temperatures come
/// between the wheel and heatsink groups.
fn temp_rec_v2(time: u32, raw: [i16; 15]) -> Vec<u8> {
    let mut b = Vec::new();
    b.extend_from_slice(&le32(time));
    for r in raw.iter() {
        b.extend_from_slice(&le16(*r));
    }
    b
}

#[test]
fn decode_v1_record_scales_fields() {
    let mut d = Data::new();
    let bytes = data_rec_v1(1000, [7, -7, 30000, -30000, 1, 2, 3, 4, 5, 6, 7, 8]);
    d.read_extend(&bytes, Version::V1).unwrap();
    assert_eq!(d.entries.len(), 1);
    let e = &d.entries[0];
    assert_eq!(e.time, 1000);
    assert_eq!(e.power.fl, Some(70));
    assert_eq!(e.power.fr, Some(-70));
    assert_eq!(e.power.rl, Some(300000));
    assert_eq!(e.power.rr, Some(-300000));
    assert_eq!(e.velocity.fl, Some(1));
    assert_eq!(e.velocity.rr, Some(4));
    assert_eq!(e.torque_set.fl, Some(5));
    assert_eq!(e.torque_set.rr, Some(8));
    assert_eq!(e.torque_real.fl, None);
    assert_eq!(e.torque_real.rr, None);
}

#[test]
fn decode_v2_record_has_realized_torque() {
    let mut d = Data::new();
    let bytes = data_rec_v2(5, [0, 0, 0, 0, 0, 0, 0, 0, 0, 0, 0, 0, 11, 12, 13, 14]);
    d.read_extend(&bytes, Version::V2).unwrap();
    assert_eq!(d.entries.len(), 1);
    let e = &d.entries[0];
    assert_eq!(e.torque_real.fl, Some(11));
    assert_eq!(e.torque_real.fr, Some(12));
    assert_eq!(e.torque_real.rl, Some(13));
    assert_eq!(e.torque_real.rr, Some(14));
}

#[test]
fn decode_truncated_record_fails_and_keeps_log_unchanged() {
    let mut d = Data::new();
    let full = data_rec_v1(1, [0; 12]);
    d.read_extend(&full, Version::V1).unwrap();
    assert_eq!(d.entries.len(), 1);

    let mut two = data_rec_v1(2, [0; 12]);
    two.extend_from_slice(&data_rec_v1(3, [0; 12])[..27]);
    let r = d.read_extend(&two, Version::V1);
    assert_eq!(r, Err(DecodeFault::Truncated));
    // Nothing of the faulting segment is kept, not even its complete records.
    assert_eq!(d.entries.len(), 1);
    assert_eq!(d.entries[0].time, 1);
}

#[test]
fn decode_out_of_order_timestamp_fails() {
    let mut d = Data::new();
    let mut bytes = data_rec_v1(50, [0; 12]);
    bytes.extend_from_slice(&data_rec_v1(49, [0; 12]));
    let r = d.read_extend(&bytes, Version::V1);
    assert_eq!(r, Err(DecodeFault::OutOfOrder));
    assert_eq!(d.entries.len(), 0);
}

#[test]
fn decode_across_segment_boundary_checks_order() {
    let mut d = Data::new();
    d.read_extend(&data_rec_v1(100, [0; 12]), Version::V1).unwrap();
    // The next segment must not go back behind the log's last entry.
    let r = d.read_extend(&data_rec_v1(99, [0; 12]), Version::V1);
    assert_eq!(r, Err(DecodeFault::OutOfOrder));
    assert_eq!(d.entries.len(), 1);
}

#[test]
fn sequential_segments_equal_concatenated_segment() {
    let seg0: Vec<u8> = [data_rec_v1(1, [1; 12]), data_rec_v1(2, [2; 12])].concat();
    let seg1: Vec<u8> = [data_rec_v1(2, [3; 12]), data_rec_v1(7, [4; 12])].concat();

    let mut sequential = Data::new();
    sequential.read_extend(&seg0, Version::V1).unwrap();
    sequential.read_extend(&seg1, Version::V1).unwrap();

    let concatenated_bytes: Vec<u8> = [seg0, seg1].concat();
    let mut concatenated = Data::new();
    concatenated.read_extend(&concatenated_bytes, Version::V1).unwrap();

    assert_eq!(sequential.entries.len(), 4);
    assert_eq!(sequential.entries, concatenated.entries);
}

#[test]
fn decode_empty_segment_is_no_entries() {
    let mut d = Data::new();
    d.read_extend(&[], Version::V1).unwrap();
    assert_eq!(d.entries.len(), 0);
}

#[test]
fn temp_v1_record_applies_conversion() {
    let mut t = Temp::new();
    let bytes = temp_rec_v1(9, [100, 0, 0, 0, 1, 1, 1, 1, 200, 90, 80]);
    t.read_extend(&bytes, Version::V1).unwrap();
    assert_eq!(t.entries.len(), 1);
    let e = &t.entries[0];
    assert_eq!(e.time, 9);
    // Every temperature field reads raw * 5 - 400.
    assert_eq!(e.temp.fl, Some(100));
    assert_eq!(e.temp.fr, Some(-400));
    assert_eq!(e.heatsink_temp.fl, Some(-395));
    assert_eq!(e.ams_temp_max, Some(600));
    assert_eq!(e.water_temp_converter, Some(50));
    assert_eq!(e.water_temp_motor, Some(0));
    assert_eq!(e.room_temp.fl, None);
}

#[test]
fn temp_v2_record_has_room_temperatures() {
    let mut t = Temp::new();
    let bytes = temp_rec_v2(9, [0, 0, 0, 0, 81, 82, 83, 84, 0, 0, 0, 0, 0, 0, 0]);
    t.read_extend(&bytes, Version::V2).unwrap();
    let e = &t.entries[0];
    assert_eq!(e.room_temp.fl, Some(81 * 5 - 400));
    assert_eq!(e.room_temp.rr, Some(84 * 5 - 400));
}

#[test]
fn temp_truncated_record_fails() {
    let mut t = Temp::new();
    let bytes = temp_rec_v1(9, [0; 11]);
    let r = t.read_extend(&bytes[..25], Version::V1);
    assert_eq!(r, Err(DecodeFault::Truncated));
    assert_eq!(t.entries.len(), 0);
}
