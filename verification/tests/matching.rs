use hdd::drivedb::{match_entry, DeviceId, Rpm};
use hdd::parser::parse_database;
use hdd::vendor_attribute::parse;

fn dev(model: &[u8], firmware: &[u8], rpm: Rpm) -> DeviceId {
    DeviceId { model: model.to_vec(), firmware: firmware.to_vec(), rpm }
}

#[test]
fn default_entry_alone_still_supplies_presets() {
    let db = parse_database(
        b"{ \"\", \"\", \"\", \"\", \"\", \"9,raw48,Default_Nine; 5,raw48,Default_Five\" }",
    )
    .unwrap();
    let m = match_entry(&dev(b"ANYTHING", b"1.0", Rpm::Rotating(7200)), &db, vec![]);
    assert_eq!(m.family, None);
    assert_eq!(m.warning, None);
    assert_eq!(m.presets.len(), 2);
    assert_eq!(m.render_attribute(9).unwrap().name, Some(b"Default_Nine".to_vec()));
    assert_eq!(m.render_attribute(5).unwrap().name, Some(b"Default_Five".to_vec()));
}

#[test]
fn first_matching_entry_wins() {
    let db = parse_database(
        b"{ \"\", \"\", \"\", \"\", \"\", \"\" },
          { \"FOO-.*\", \"\", \"\", \"First\", \"\", \"\" },
          { \"FOO-1\", \"\", \"\", \"Second\", \"\", \"\" }",
    )
    .unwrap();
    let m = match_entry(&dev(b"FOO-1", b"", Rpm::Unknown), &db, vec![]);
    assert_eq!(m.family, Some(b"First".to_vec()));
}

#[test]
fn usb_marked_entries_are_never_matched() {
    let db = parse_database(
        b"{ \"\", \"\", \"\", \"\", \"\", \"\" },
          { \"USB:X\", \"\", \"\", \"Bridge\", \"\", \"\" },
          { \"USB.*\", \"\", \"\", \"Plain\", \"\", \"\" }",
    )
    .unwrap();
    let m = match_entry(&dev(b"USB:X", b"", Rpm::Unknown), &db, vec![]);
    assert_eq!(m.family, Some(b"Plain".to_vec()));
}

#[test]
fn firmware_pattern_must_match_when_present() {
    let db = parse_database(
        b"{ \"\", \"\", \"\", \"\", \"\", \"\" },
          { \"FOO-1\", \"\", \"2\\\\.0\", \"Patched\", \"\", \"\" },
          { \"FOO-1\", \"\", \"\", \"Any firmware\", \"\", \"\" }",
    )
    .unwrap();
    let m1 = match_entry(&dev(b"FOO-1", b"2.0", Rpm::Unknown), &db, vec![]);
    assert_eq!(m1.family, Some(b"Patched".to_vec()));
    let m2 = match_entry(&dev(b"FOO-1", b"1.0", Rpm::Unknown), &db, vec![]);
    assert_eq!(m2.family, Some(b"Any firmware".to_vec()));
}

#[test]
fn patterns_are_anchored() {
    let db = parse_database(
        b"{ \"\", \"\", \"\", \"\", \"\", \"\" },
          { \"FOO\", \"\", \"\", \"Exact\", \"\", \"\" }",
    )
    .unwrap();
    let m = match_entry(&dev(b"FOO-1", b"", Rpm::Unknown), &db, vec![]);
    assert_eq!(m.family, None);
}

#[test]
fn no_match_is_not_an_error() {
    let db = parse_database(
        b"{ \"\", \"\", \"\", \"\", \"\", \"9,raw48,Nine\" },
          { \"BAR\", \"\", \"\", \"Bar\", \"\", \"\" }",
    )
    .unwrap();
    let m = match_entry(&dev(b"QUX", b"", Rpm::Unknown), &db, vec![]);
    assert_eq!(m.family, None);
    assert_eq!(m.warning, None);
    assert_eq!(m.render_attribute(9).unwrap().name, Some(b"Nine".to_vec()));
}

#[test]
fn empty_warning_is_normalized_to_absent() {
    let db = parse_database(
        b"{ \"\", \"\", \"\", \"\", \"\", \"\" },
          { \"FOO-1\", \"\", \"\", \"Foo\", \"\", \"\" }",
    )
    .unwrap();
    let m = match_entry(&dev(b"FOO-1", b"", Rpm::Unknown), &db, vec![]);
    assert_eq!(m.family, Some(b"Foo".to_vec()));
    assert_eq!(m.warning, None);
}

#[test]
fn matched_entry_overrides_default_and_extras_override_both() {
    let db = parse_database(
        b"{ \"\", \"\", \"\", \"\", \"\", \"9,raw48,Default_Nine; 5,raw48,Default_Five; 3,raw48,Default_Three\" },
          { \"FOO-1\", \"\", \"\", \"Foo\", \"\", \"5,min2hour,Entry_Five; 3,raw48,Entry_Three\" }",
    )
    .unwrap();
    let extra = vec![parse(b"3,sec2hour,Extra_Three").unwrap()];
    let m = match_entry(&dev(b"FOO-1", b"1.0", Rpm::Rotating(5400)), &db, extra);
    assert_eq!(m.render_attribute(9).unwrap().name, Some(b"Default_Nine".to_vec()));
    assert_eq!(m.render_attribute(5).unwrap().name, Some(b"Entry_Five".to_vec()));
    assert_eq!(m.render_attribute(3).unwrap().name, Some(b"Extra_Three".to_vec()));
}

#[test]
fn drive_type_filter_follows_rotation() {
    let db = parse_database(
        b"{ \"\", \"\", \"\", \"\", \"\", \"10,raw48,HddOnly,HDD; 11,raw48,SsdOnly,SSD; 12,raw48,Any\" }",
    )
    .unwrap();
    let hdd_match = match_entry(&dev(b"X", b"", Rpm::Rotating(7200)), &db, vec![]);
    assert!(hdd_match.render_attribute(10).is_some());
    assert!(hdd_match.render_attribute(11).is_none());
    assert!(hdd_match.render_attribute(12).is_some());

    let ssd_match = match_entry(&dev(b"X", b"", Rpm::NonRotating), &db, vec![]);
    assert!(ssd_match.render_attribute(10).is_none());
    assert!(ssd_match.render_attribute(11).is_some());
    assert!(ssd_match.render_attribute(12).is_some());

    let unknown_match = match_entry(&dev(b"X", b"", Rpm::Unknown), &db, vec![]);
    assert!(unknown_match.render_attribute(10).is_none());
    assert!(unknown_match.render_attribute(11).is_none());
    assert!(unknown_match.render_attribute(12).is_some());
}

#[test]
fn round_trip_two_entry_database() {
    let db = parse_database(
        b"{ \"\", \"\", \"\", \"\", \"\", \"9,raw48,Default_Nine; 5,raw48,Default_Five\" },
          { \"FOO-1\", \"\", \"\", \"Foo family\", \"apply firmware patch\", \"5,min2hour,Entry_Five; 7,raw8,Entry_Seven\" }",
    )
    .unwrap();
    let m = match_entry(&dev(b"FOO-1", b"1.0", Rpm::Rotating(7200)), &db, vec![]);
    assert_eq!(m.family, Some(b"Foo family".to_vec()));
    assert_eq!(m.warning, Some(b"apply firmware patch".to_vec()));
    assert_eq!(m.presets.len(), 3);
    assert_eq!(m.render_attribute(9).unwrap().name, Some(b"Default_Nine".to_vec()));
    assert_eq!(m.render_attribute(5).unwrap().name, Some(b"Entry_Five".to_vec()));
    assert_eq!(m.render_attribute(7).unwrap().name, Some(b"Entry_Seven".to_vec()));
}

#[test]
fn invalid_pattern_is_skipped_not_fatal() {
    let db = parse_database(
        b"{ \"\", \"\", \"\", \"\", \"\", \"\" },
          { \"FOO-1(\", \"\", \"\", \"Broken\", \"\", \"\" },
          { \"FOO-1.\", \"\", \"\", \"Working\", \"\", \"\" }",
    )
    .unwrap();
    let m = match_entry(&dev(b"FOO-1(", b"", Rpm::Unknown), &db, vec![]);
    assert_eq!(m.family, Some(b"Working".to_vec()));
}
