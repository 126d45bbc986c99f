use ris::RisParser;

fn lookup<'a>(record: &'a [(String, String)], tag: &str) -> Option<&'a str> {
    record.iter().find(|p| p.0 == tag).map(|p| p.1.as_str())
}

#[test]
fn parser_test_parse_reference() {
    let parser = RisParser {
        start_tag: b"TY  - ".to_vec(),
        end_tag: b"ER  - ".to_vec(),
        allowed_tags: vec![
            b"AA  - ".to_vec(),
            b"AB  - ".to_vec(),
            b"TY  - ".to_vec(),
            b"ER  - ".to_vec(),
        ],
    };

    let input = b"TY  - ref_type\nAA  - val1\nAB  - val2\nER  - ";
    let record = parser.parse_reference(input).unwrap();
    assert_eq!(record.len(), 3);
    assert_eq!(lookup(&record, "TY  - "), Some("ref_type"));
    assert_eq!(lookup(&record, "AA  - "), Some("val1"));
    assert_eq!(lookup(&record, "AB  - "), Some("val2"));
}

#[test]
fn test_eof() {
    let parser = RisParser::default();
    let input = b"TY  - JOUR\nA1  - author\nER  - ";
    assert!(parser.parse(input).is_ok());

    let input = b"TY  - JOUR\nA1  - author\nER  - \n";
    assert!(parser.parse(input).is_ok());

    let input = b"TY  - JOUR\nA1  - author\nER  - \nfoo\nbar   ";
    assert!(parser.parse(input).is_ok());
}

#[test]
fn parser_test_multiple_references() {
    let ref_string = "1.\nTY  - JOUR\nID  - 12345\nT1  - Title of reference\nA1  - Marx, Karl\nA1  - Lindgren, Astrid\nA2  - Glattauer, Daniel\nY1  - 2014//\nN2  - BACKGROUND: Lorem ipsum dolor sit amet, consectetuer adipiscing elit. Aenean commodo ligula eget dolor. Aenean massa. Cum sociis natoque penatibus et magnis dis parturient montes, nascetur ridiculus mus.  RESULTS: Donec quam felis, ultricies nec, pellentesque eu, pretium quis, sem. Nulla consequat massa quis enim. CONCLUSIONS: Donec pede justo, fringilla vel, aliquet nec, vulputate eget, arcu. In enim justo, rhoncus ut, imperdiet a, venenatis vitae, justo. Nullam dictum felis eu pede mollis pretium.\nKW  - Pippi\nKW  - Nordwind\nKW  - Piraten\nJF  - Lorem\nJA  - lorem\nVL  - 9\nIS  - 3\nSP  - e0815\nCY  - United States\nPB  - Fun Factory\nSN  - 1932-6208\nM1  - 1008150341\nL2  - http://example.com\nUR  - http://example_url.com\nER  - \n\n2.\nTY  - JOUR\nID  - 12345\nT1  - The title of the reference\nA1  - Marxus, Karlus\nA1  - Lindgren, Astrid\nA2  - Glattauer, Daniel\nY1  - 2006//\nN2  - BACKGROUND: Lorem dammed ipsum dolor sit amet, consectetuer adipiscing elit. Aenean commodo ligula eget dolor. Aenean massa. Cum sociis natoque penatibus et magnis dis parturient montes, nascetur ridiculus mus.  RESULTS: Donec quam felis, ultricies nec, pellentesque eu, pretium quis, sem. Nulla consequat massa quis enim. CONCLUSIONS: Donec pede justo, fringilla vel, aliquet nec, vulputate eget, arcu. In enim justo, rhoncus ut, imperdiet a, venenatis vitae, justo. Nullam dictum felis eu pede mollis pretium.\nKW  - Pippi Langstrumpf\nKW  - Nordwind\nKW  - Piraten\nJF  - Lorem\nJA  - lorem\nVL  - 6\nIS  - 3\nSP  - e0815341\nCY  - Germany\nPB  - Dark Factory\nSN  - 1732-4208\nM1  - 1228150341\nL2  - http://example2.com\nUR  - http://example_url.com\nER  - \n";
    let parser = RisParser::default();

    let references = parser.parse(ref_string.as_bytes()).unwrap();
    assert_eq!(references.len(), 2);
    assert_eq!(lookup(&references[0], "T1  - "), Some("Title of reference"));
    assert_eq!(lookup(&references[0], "SP  - "), Some("e0815"));
    assert_eq!(lookup(&references[1], "CY  - "), Some("Germany"));
    assert_eq!(lookup(&references[1], "M1  - "), Some("1228150341"));
}
