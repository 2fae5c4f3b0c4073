use hdd::attr::{parse_smart_values, Raw};
use hdd::drivedb::{match_entry, DeviceId, Rpm};
use hdd::parser::parse_database;

fn block() -> Vec<u8> {
    vec![0u8; 512]
}

fn put_row(block: &mut Vec<u8>, row: usize, bytes: [u8; 12]) {
    let off = 2 + row * 12;
    block[off..off + 12].copy_from_slice(&bytes);
}

fn matched(db_text: &[u8], rpm: Rpm) -> hdd::drivedb::Match {
    let db = parse_database(db_text).unwrap();
    match_entry(
        &DeviceId { model: b"FOO-1".to_vec(), firmware: b"1.0".to_vec(), rpm },
        &db,
        vec![],
    )
}

#[test]
fn flag_word_bits_zero_and_one() {
    let mut data = block();
    put_row(&mut data, 0, [1, 0x03, 0x00, 90, 80, 0, 0, 0, 0, 0, 0, 0]);
    let recs = parse_smart_values(&data, &block(), &None);
    assert_eq!(recs.len(), 1);
    let r = &recs[0];
    assert!(r.pre_fail);
    assert!(r.online);
    assert!(!r.performance);
    assert!(!r.error_rate);
    assert!(!r.event_count);
    assert!(!r.self_preserving);
    assert_eq!(r.flags, 0x0000);
}

#[test]
fn residual_flags_keep_upper_bits() {
    let mut data = block();
    put_row(&mut data, 0, [1, 0x41, 0x80, 90, 80, 0, 0, 0, 0, 0, 0, 0]);
    let recs = parse_smart_values(&data, &block(), &None);
    let r = &recs[0];
    assert!(r.pre_fail);
    assert!(!r.online);
    assert_eq!(r.flags, 0x8040);
}

#[test]
fn id_zero_rows_are_skipped_in_both_tables() {
    let mut data = block();
    put_row(&mut data, 0, [7, 0x02, 0x00, 90, 80, 0, 0, 0, 0, 0, 0, 0]);
    put_row(&mut data, 1, [0, 0x03, 0x00, 1, 1, 1, 1, 1, 1, 1, 1, 1]);
    put_row(&mut data, 2, [9, 0x02, 0x00, 70, 60, 1, 0, 0, 0, 0, 0, 0]);
    let mut thresh = block();
    put_row(&mut thresh, 0, [0, 99, 0, 0, 0, 0, 0, 0, 0, 0, 0, 0]);
    put_row(&mut thresh, 1, [9, 42, 0, 0, 0, 0, 0, 0, 0, 0, 0, 0]);
    let recs = parse_smart_values(&data, &thresh, &None);
    assert_eq!(recs.len(), 2);
    assert_eq!(recs[0].id, 7);
    assert_eq!(recs[1].id, 9);
    // the id-0 threshold row contributes nothing; the id-9 row does
    assert_eq!(recs[0].thresh, None);
    assert_eq!(recs[1].thresh, Some(42));
}

#[test]
fn end_to_end_single_row_decode() {
    let mut data = block();
    put_row(&mut data, 0, [5, 0x33, 0x00, 100, 100, 0, 0, 0, 0, 0, 0, 0]);
    let recs = parse_smart_values(&data, &block(), &None);
    assert_eq!(recs.len(), 1);
    let r = &recs[0];
    assert_eq!(r.id, 5);
    assert!(r.pre_fail);
    assert!(r.online);
    // bit 2 of 0x0033 is clear, so the performance flag stays off
    assert!(!r.performance);
    assert!(!r.error_rate);
    assert!(r.event_count);
    assert!(r.self_preserving);
    assert_eq!(r.value, Some(100));
    assert_eq!(r.worst, Some(100));
    assert_eq!(r.thresh, None);
    assert_eq!(r.raw, Raw::Counter { value: 0, spill: 0 });
}

#[test]
fn generic_rendering_splits_counter_and_spill() {
    let mut data = block();
    put_row(&mut data, 0, [4, 0x02, 0x00, 90, 80, 0x01, 0x02, 0, 0, 0x05, 0x06, 0]);
    let recs = parse_smart_values(&data, &block(), &None);
    assert_eq!(recs[0].raw, Raw::Counter { value: 0x0000_0201, spill: 0x0605 });
}

#[test]
fn descriptor_drives_raw_rendering_and_name() {
    let mut data = block();
    put_row(&mut data, 0, [194, 0x02, 0x00, 60, 40, 30, 0, 20, 0, 40, 0, 0]);
    let m = matched(
        b"{ \"\", \"\", \"\", \"\", \"\", \"194,tempminmax,Temperature_Celsius\" }",
        Rpm::Rotating(7200),
    );
    let recs = parse_smart_values(&data, &block(), &Some(m));
    let r = &recs[0];
    assert_eq!(r.name, Some(b"Temperature_Celsius".to_vec()));
    assert_eq!(r.raw, Raw::TempMinMax { cur: 30, min: 20, max: 40 });
    assert_eq!(r.value, Some(60));
    assert_eq!(r.worst, Some(40));
}

#[test]
fn folded_bytes_extend_payload_and_suppress_value_worst() {
    let mut data = block();
    put_row(&mut data, 0, [240, 0x02, 0x00, 0x01, 0x02, 0, 0, 0, 0, 0, 0, 0]);
    let m = matched(b"{ \"\", \"\", \"\", \"\", \"\", \"240,raw64,Head_Hours\" }", Rpm::Unknown);
    let recs = parse_smart_values(&data, &block(), &Some(m));
    let r = &recs[0];
    assert_eq!(r.value, None);
    assert_eq!(r.worst, None);
    // payload is the six raw bytes, then worst, then value, little-endian
    let expected = (0x02u64 << 48) | (0x01u64 << 56);
    assert_eq!(r.raw, Raw::Values(vec![expected]));
}

#[test]
fn multi_part_format_splits_payload() {
    let mut data = block();
    put_row(&mut data, 0, [9, 0x02, 0x00, 90, 80, 0x10, 0x00, 0x01, 0x00, 0x00, 0x00, 0]);
    let m = matched(
        b"{ \"\", \"\", \"\", \"\", \"\", \"9,raw16+raw32,Head_Flying_Hours\" }",
        Rpm::Unknown,
    );
    let recs = parse_smart_values(&data, &block(), &Some(m));
    assert_eq!(recs[0].raw, Raw::Values(vec![0x0010, 0x0001]));
}

#[test]
fn duration_and_hex_formats() {
    let mut data = block();
    put_row(&mut data, 0, [9, 0x02, 0x00, 90, 80, 0x3c, 0, 0, 0, 0, 0, 0]);
    put_row(&mut data, 1, [230, 0x02, 0x00, 90, 80, 0xff, 0, 0, 0, 0, 0, 0]);
    let m = matched(
        b"{ \"\", \"\", \"\", \"\", \"\", \"9,sec2hour; 230,hex48\" }",
        Rpm::Unknown,
    );
    let recs = parse_smart_values(&data, &block(), &Some(m));
    assert_eq!(recs[0].raw, Raw::Seconds(60));
    assert_eq!(recs[1].raw, Raw::Hex(255));
}

#[test]
fn thirty_rows_limit_and_order() {
    let mut data = block();
    for row in 0..30 {
        put_row(&mut data, row, [(row + 1) as u8, 0, 0, 0, 0, 0, 0, 0, 0, 0, 0, 0]);
    }
    let recs = parse_smart_values(&data, &block(), &None);
    assert_eq!(recs.len(), 30);
    for (k, r) in recs.iter().enumerate() {
        assert_eq!(r.id as usize, k + 1);
    }
}
