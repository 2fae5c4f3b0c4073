use hdd::vendor_attribute::{parse, merge, render, Attribute, FormatCode, Type};
use hdd::presets::{parse_blob, merge_presets};
use hdd::Error;

#[test]
fn parses_id_format_name() {
    let a = parse(b"9,min2hour,Power_On_Minutes").unwrap();
    assert_eq!(a.id, 9);
    assert_eq!(a.format, vec![FormatCode::Min2Hour]);
    assert_eq!(a.name, Some(b"Power_On_Minutes".to_vec()));
    assert_eq!(a.byte_order, Vec::<u8>::new());
    assert_eq!(a.drivetype, None);
}

#[test]
fn parses_bare_id_and_format() {
    let a = parse(b"194,tempminmax").unwrap();
    assert_eq!(a.id, 194);
    assert_eq!(a.format, vec![FormatCode::TempMinMax]);
    assert_eq!(a.name, None);
}

#[test]
fn parses_drive_type_tag() {
    let a = parse(b"9,raw48,Spin_Up_Time,HDD").unwrap();
    assert_eq!(a.drivetype, Some(Type::HDD));
    let b = parse(b"233,raw48,Media_Wearout,SSD").unwrap();
    assert_eq!(b.drivetype, Some(Type::SSD));
    assert!(parse(b"9,raw48,Name,NVME").is_err());
}

#[test]
fn parses_multi_part_format() {
    let a = parse(b"9,raw16+raw32,Head_Flying_Hours").unwrap();
    assert_eq!(a.format, vec![FormatCode::Raw16, FormatCode::Raw32]);
}

#[test]
fn parses_byte_order_tags() {
    let a = parse(b"230,raw48:vw").unwrap();
    assert_eq!(a.byte_order, b"vw".to_vec());
    let b = parse(b"240,raw64").unwrap();
    assert_eq!(b.byte_order, b"vw".to_vec());
    assert!(parse(b"240,raw64:v").is_err());
}

#[test]
fn whitespace_around_fields_is_trimmed() {
    let a = parse(b" 12 , raw48 , Some_Name ").unwrap();
    assert_eq!(a.id, 12);
    assert_eq!(a.format, vec![FormatCode::Raw48]);
    assert_eq!(a.name, Some(b"Some_Name".to_vec()));
}

#[test]
fn rejects_bad_ids() {
    assert_eq!(parse(b"0,raw48").unwrap_err(), Error::Descriptor);
    assert_eq!(parse(b"256,raw48").unwrap_err(), Error::Descriptor);
    assert_eq!(parse(b"1x,raw48").unwrap_err(), Error::Descriptor);
    assert_eq!(parse(b",raw48").unwrap_err(), Error::Descriptor);
}

#[test]
fn rejects_bad_formats() {
    assert_eq!(parse(b"9").unwrap_err(), Error::Descriptor);
    assert_eq!(parse(b"9,raw96").unwrap_err(), Error::Descriptor);
    assert_eq!(parse(b"9,raw48+raw48").unwrap_err(), Error::Descriptor);
    assert_eq!(parse(b"9,raw16+tempminmax").unwrap_err(), Error::Descriptor);
    assert_eq!(parse(b"9,raw48,Name,HDD,extra").unwrap_err(), Error::Descriptor);
}

#[test]
fn blob_parsing_skips_malformed_expressions() {
    let attrs = parse_blob(b"9,min2hour,Power_On_Minutes; totally bogus; 194,tempminmax");
    assert_eq!(attrs.len(), 2);
    assert_eq!(attrs[0].id, 9);
    assert_eq!(attrs[1].id, 194);
}

#[test]
fn blob_parsing_of_empty_blob_is_empty() {
    assert_eq!(parse_blob(b"").len(), 0);
    assert_eq!(parse_blob(b" ; ; ").len(), 0);
}

#[test]
fn merge_later_list_overrides_by_id() {
    let base = vec![
        parse(b"9,raw48,Old_Nine").unwrap(),
        parse(b"4,raw48,Four").unwrap(),
    ];
    let over = vec![parse(b"9,min2hour,New_Nine").unwrap()];
    let merged = merge(vec![base, over]);
    assert_eq!(merged.len(), 2);
    let nine = render(&merged, 9).unwrap();
    assert_eq!(nine.name, Some(b"New_Nine".to_vec()));
    assert_eq!(nine.format, vec![FormatCode::Min2Hour]);
    let four = render(&merged, 4).unwrap();
    assert_eq!(four.name, Some(b"Four".to_vec()));
    assert!(render(&merged, 5).is_none());
}

#[test]
fn merge_presets_drive_wins_over_default() {
    let default: Option<Vec<Attribute>> = Some(vec![
        parse(b"9,raw48,Default_Nine").unwrap(),
        parse(b"4,raw48,Default_Four").unwrap(),
    ]);
    let drive: Option<Vec<Attribute>> = Some(vec![parse(b"9,sec2hour,Drive_Nine").unwrap()]);
    let merged = merge_presets(&default, &drive);
    assert_eq!(merged.len(), 2);
    assert_eq!(render(&merged, 9).unwrap().name, Some(b"Drive_Nine".to_vec()));
    assert_eq!(render(&merged, 4).unwrap().name, Some(b"Default_Four".to_vec()));
}

#[test]
fn merge_presets_with_absent_sides() {
    let some: Option<Vec<Attribute>> = Some(vec![parse(b"7,raw48,Seven").unwrap()]);
    let merged = merge_presets(&None, &some);
    assert_eq!(merged.len(), 1);
    assert_eq!(render(&merged, 7).unwrap().name, Some(b"Seven".to_vec()));
    let merged2 = merge_presets(&None, &None);
    assert_eq!(merged2.len(), 0);
}
