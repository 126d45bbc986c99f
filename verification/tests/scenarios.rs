use ris::field::Field;
use ris::reference::Reference;
use ris::Error;
use ris::RisParser;

fn lookup<'a>(record: &'a [(String, String)], tag: &str) -> Option<&'a str> {
    record.iter().find(|p| p.0 == tag).map(|p| p.1.as_str())
}

#[test]
fn test_three_records_in_order() {
    let input = b"TY  - JOUR\nID  - 1\nER  - \nTY  - BOOK\nID  - 2\nER  - \nTY  - CHAP\nID  - 3\nER  - \n";
    let parser = RisParser::default();
    let records = parser.parse(input).unwrap();
    assert_eq!(records.len(), 3);
    assert_eq!(lookup(&records[0], "TY  - "), Some("JOUR"));
    assert_eq!(lookup(&records[0], "ID  - "), Some("1"));
    assert_eq!(lookup(&records[1], "TY  - "), Some("BOOK"));
    assert_eq!(lookup(&records[1], "ID  - "), Some("2"));
    assert_eq!(lookup(&records[2], "TY  - "), Some("CHAP"));
    assert_eq!(lookup(&records[2], "ID  - "), Some("3"));
}

#[test]
fn test_scalar_tag_twice_keeps_second() {
    let input = b"TY  - JOUR\nA1  - first author\nA1  - second author\nER  - ";
    let parser = RisParser::default();
    let records = parser.parse(input).unwrap();
    assert_eq!(records.len(), 1);
    assert_eq!(lookup(&records[0], "A1  - "), Some("second author"));
}

#[test]
fn test_three_line_content_round_trips() {
    let input = b"TY  - JOUR\nN2  - first line,  \n        then second line and at the end \n        the last line\nVL  - 27\nER  - ";
    let parser = RisParser::default();
    let records = parser.parse(input).unwrap();
    assert_eq!(records.len(), 1);
    assert_eq!(
        lookup(&records[0], "N2  - "),
        Some("first line,  \n        then second line and at the end \n        the last line")
    );
    assert_eq!(lookup(&records[0], "VL  - "), Some("27"));
}

#[test]
fn test_bom_parse_equal() {
    let with_bom = "\u{feff}TY  - JOUR\nID  - 12345\nER  - ".as_bytes();
    let without_bom = "TY  - JOUR\nID  - 12345\nER  - ".as_bytes();
    let parser = RisParser::default();
    assert_eq!(parser.parse(with_bom).unwrap(), parser.parse(without_bom).unwrap());
}

#[test]
fn test_unterminated_record() {
    let input = b"TY  - JOUR\nA1  - author";
    let parser = RisParser::default();
    assert_eq!(parser.parse(input), Err(Error::EOF));
}

#[test]
fn test_unknown_tag_line_joins_previous_field() {
    let input = b"TY  - JOUR\nZZ  - mystery\nER  - ";
    let parser = RisParser::default();
    let records = parser.parse(input).unwrap();
    assert_eq!(records.len(), 1);
    assert_eq!(lookup(&records[0], "TY  - "), Some("JOUR\nZZ  - mystery"));
    assert_eq!(lookup(&records[0], "ZZ  - "), None);
}

#[test]
fn test_empty_field_content() {
    let input = b"TY  - \nER  - ";
    let parser = RisParser::default();
    let records = parser.parse(input).unwrap();
    assert_eq!(records.len(), 1);
    assert_eq!(lookup(&records[0], "TY  - "), Some(""));
}

#[test]
fn test_junk_between_records() {
    let input = b"1.\nTY  - JOUR\nER  - \n\n\n2.\nTY  - BOOK\nER  - \ntrailing junk";
    let parser = RisParser::default();
    let records = parser.parse(input).unwrap();
    assert_eq!(records.len(), 2);
    assert_eq!(lookup(&records[0], "TY  - "), Some("JOUR"));
    assert_eq!(lookup(&records[1], "TY  - "), Some("BOOK"));
}

#[test]
fn test_invalid_utf8_content() {
    let input = b"TY  - JOUR\nA1  - \xff\xfe\nER  - ";
    let parser = RisParser::default();
    assert!(matches!(parser.parse(input), Err(Error::ParserError(_))));
}

#[test]
fn test_double_byte_content_decoded() {
    let input = "TY  - \u{c2}\u{a9}\nER  - ".as_bytes();
    let parser = RisParser::default();
    let records = parser.parse(input).unwrap();
    assert_eq!(records.len(), 1);
    assert_eq!(lookup(&records[0], "TY  - "), Some("\u{c2}\u{a9}"));
}

#[test]
fn test_empty_input() {
    let parser = RisParser::default();
    assert_eq!(parser.parse(b"").unwrap().len(), 0);
    assert_eq!(parser.parse(b"no records here\n").unwrap().len(), 0);
}

#[test]
fn test_field_and_reference_views() {
    let field = Field::new("AU  - ".to_string(), "Hamming,Richard W.".to_string());
    assert_eq!(field.tag(), "AU  - ");
    assert_eq!(field.content(), "Hamming,Richard W.");
    let reference = Reference::new("JOUR".to_string(), vec![field.clone()]);
    assert_eq!(reference.ref_type(), "JOUR");
    assert_eq!(reference.fields().len(), 1);
    assert_eq!(reference.fields()[0], field);
}
