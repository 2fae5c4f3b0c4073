use hdd::parser::parse_database;
use hdd::Error;

fn names(db: &[hdd::parser::Entry]) -> Vec<Vec<u8>> {
    db.iter().map(|e| e.family.clone()).collect()
}

const SIMPLE: &[u8] = b"
// a comment line
{ \"MODEL-A\", \"\", \"\", \"Family A\", \"\", \"9,raw48\" },
{ \"MODEL-B\", \"\", \"FW.*\", \"Family B\", \"watch out\", \"\" }
";

#[test]
fn parses_two_records() {
    let db = parse_database(SIMPLE).unwrap();
    assert_eq!(db.len(), 2);
    assert_eq!(db[0].model, b"MODEL-A".to_vec());
    assert_eq!(db[0].family, b"Family A".to_vec());
    assert_eq!(db[0].presets, b"9,raw48".to_vec());
    assert_eq!(db[1].firmware, b"FW.*".to_vec());
    assert_eq!(db[1].warning, b"watch out".to_vec());
}

#[test]
fn parsing_is_idempotent() {
    let first = parse_database(SIMPLE).unwrap();
    let second = parse_database(SIMPLE).unwrap();
    assert_eq!(first.len(), second.len());
    for (a, b) in first.iter().zip(second.iter()) {
        assert_eq!(a.model, b.model);
        assert_eq!(a.firmware, b.firmware);
        assert_eq!(a.family, b.family);
        assert_eq!(a.warning, b.warning);
        assert_eq!(a.presets, b.presets);
    }
}

#[test]
fn adjacent_literals_concatenate() {
    let db = parse_database(b"{ \"MO\" \"DEL\", \"\", \"\", \"fam\" // comment between fragments\n \"ily\", \"\", \"\" }").unwrap();
    assert_eq!(db[0].model, b"MODEL".to_vec());
    assert_eq!(db[0].family, b"family".to_vec());
}

#[test]
fn escapes_are_decoded() {
    let db = parse_database(b"{ \"a\\\\b\\\"c\", \"\", \"\", \"x\\ny\", \"\", \"\" }").unwrap();
    assert_eq!(db[0].model, b"a\\b\"c".to_vec());
    assert_eq!(db[0].family, b"x\ny".to_vec());
}

#[test]
fn trailing_comma_is_tolerated() {
    let db = parse_database(b"{ \"M\", \"\", \"\", \"\", \"\", \"p\", }, ").unwrap();
    assert_eq!(db.len(), 1);
    assert_eq!(db[0].presets, b"p".to_vec());
}

#[test]
fn unterminated_literal_fails_whole_parse() {
    let r = parse_database(b"{ \"M\", \"\", \"\", \"\", \"\", \"p }");
    assert_eq!(r.unwrap_err(), Error::Parse);
}

#[test]
fn missing_field_fails_whole_parse() {
    let r = parse_database(b"{ \"M\", \"\", \"\", \"\", \"\" }");
    assert_eq!(r.unwrap_err(), Error::Parse);
}

#[test]
fn garbage_after_records_fails_whole_parse() {
    let r = parse_database(b"{ \"M\", \"\", \"\", \"\", \"\", \"\" } junk");
    assert_eq!(r.unwrap_err(), Error::Parse);
}

#[test]
fn empty_database_is_rejected() {
    assert_eq!(parse_database(b"").unwrap_err(), Error::NoEntries);
    assert_eq!(parse_database(b"  // only a comment\n").unwrap_err(), Error::NoEntries);
}

#[test]
fn comments_and_blank_lines_are_ignored() {
    let db = parse_database(b"\n\n// heading\n{ \"A\", \"\", \"\", \"one\", \"\", \"\" }\n\n// middle\n\n{ \"B\", \"\", \"\", \"two\", \"\", \"\" }\n// trailing\n").unwrap();
    assert_eq!(names(&db), vec![b"one".to_vec(), b"two".to_vec()]);
}

#[test]
fn bool_to_sup_renders_support_flags() {
    assert_eq!(hdd::bool_to_sup(true), "supported");
    assert_eq!(hdd::bool_to_sup(false), "not supported");
}

#[test]
fn ata_codes_are_fixed() {
    assert_eq!(hdd::ata::Command::Identify.code(), 0xec);
    assert_eq!(hdd::ata::Command::SMART.code(), 0xb0);
    assert_eq!(hdd::ata::SMARTFeature::ReadValues.code(), 0xd0);
    assert_eq!(hdd::ata::SMARTFeature::ReadThresholds.code(), 0xd1);
    assert_eq!(hdd::ata::SMARTFeature::ReturnStatus.code(), 0xda);
}
