use ris::ref_iter::TakeTagResult;
use ris::Error;
use ris::ReferenceIterator;

#[test]
fn ref_iter_test_take_line() {
    let mut ref_iter = ReferenceIterator::default("a\nbcd\negfh".as_bytes());
    assert_eq!(ref_iter.take_line(), Some(1));
    assert_eq!(ref_iter.take_line(), Some(5));
    assert_eq!(ref_iter.take_line(), None);
    assert_eq!(ref_iter.take_line(), None);
}

#[test]
fn ref_iter_test_take_tag() {
    let mut ref_iter = ReferenceIterator::default("foobar\nbarbar\nfo\nbar\n".as_bytes());
    assert_eq!(ref_iter.take_tag("foo".as_bytes()), TakeTagResult::Present(0));
    assert_eq!(ref_iter.cursor, 3);
    assert_eq!(ref_iter.text[3], b'b');
    ref_iter.take_line();
    assert_eq!(ref_iter.take_tag("foo".as_bytes()), TakeTagResult::NotPresent);
    assert_eq!(ref_iter.cursor, 8);
    assert_eq!(ref_iter.text[8], b'a');
    ref_iter.take_line();
    assert_eq!(ref_iter.take_tag("foo".as_bytes()), TakeTagResult::NewLine);
    assert_eq!(ref_iter.cursor, 17);
    assert_eq!(ref_iter.text[17], b'b');
    ref_iter.take_line();
    assert_eq!(ref_iter.take_tag("foo".as_bytes()), TakeTagResult::EOF);
}

#[test]
fn ref_iter_test_next() {
    let ref_string = "1.\nTY  - JOUR\nID  - 12345\nA2  - Glattauer, Daniel\nUR  - http://example_url.com\nER  - \n\n2.\nTY  - JOUR\nID  - 12345\nT1  - The title of the reference\nCY  - Germany\nL2  - http://example2.com\nUR  - http://example_url.com\nER  - \n";
    let mut ref_iter = ReferenceIterator::default(ref_string.as_bytes());
    assert_eq!(
        ref_iter.next(),
        Some(Ok(
            "TY  - JOUR\nID  - 12345\nA2  - Glattauer, Daniel\nUR  - http://example_url.com\nER  - "
                .as_bytes()
                .to_vec()
        ))
    );

    assert_eq!(
        ref_iter.next(),
        Some(Ok(
            "TY  - JOUR\nID  - 12345\nT1  - The title of the reference\nCY  - Germany\nL2  - http://example2.com\nUR  - http://example_url.com\nER  - "
                .as_bytes()
                .to_vec()
        ))
    );

    assert_eq!(ref_iter.next(), None);
    assert_eq!(ref_iter.next(), None);
}

#[test]
fn test_after_end_tag() {
    let ref_string = "1.\nTY  - JOUR\nID  - 12345\nA2  - Glattauer, Daniel\nUR  - http://example_url.com\nER  - \nfoobar\n";
    let mut ref_iter = ReferenceIterator::default(ref_string.as_bytes());
    assert_eq!(
        ref_iter.next(),
        Some(Ok(
            "TY  - JOUR\nID  - 12345\nA2  - Glattauer, Daniel\nUR  - http://example_url.com\nER  - "
                .as_bytes()
                .to_vec()
        ))
    );
    assert_eq!(ref_iter.next(), None);
    assert_eq!(ref_iter.next(), None);
}

#[test]
fn test_before_start_tag() {
    let ref_string = "\n\n\nTY  - JOUR\nID  - 12345\nA2  - Glattauer, Daniel\nUR  - http://example_url.com\nER  - \nfoobar\n";
    let mut ref_iter = ReferenceIterator::default(ref_string.as_bytes());
    assert_eq!(
        ref_iter.next(),
        Some(Ok(
            "TY  - JOUR\nID  - 12345\nA2  - Glattauer, Daniel\nUR  - http://example_url.com\nER  - "
                .as_bytes()
                .to_vec()
        ))
    );
    assert_eq!(ref_iter.next(), None);
    assert_eq!(ref_iter.next(), None);
}

#[test]
fn test_double_byte_char() {
    let ref_string = "\nTY  - \u{c2}\u{a9}\nER  - \n\nTY  - JOUR\nER  - \n";
    let mut ref_iter = ReferenceIterator::default(ref_string.as_bytes());
    let first_ref = ref_iter.next().unwrap().unwrap();
    assert_eq!(first_ref.iter().next(), Some(&b'T'));
    let second_ref = ref_iter.next().unwrap().unwrap();
    assert_eq!(second_ref.iter().next(), Some(&b'T'));
    assert!(ref_iter.next().is_none());
}

#[test]
fn test_bom() {
    let ref_string = "\u{feff}TY  - \nER  - ".as_bytes();
    let mut ref_iter = ReferenceIterator::default(ref_string);
    assert_eq!(ref_iter.next(), Some(Ok(ref_string[3..].to_vec())));
    assert!(ref_iter.next().is_none());
}

#[test]
fn test_empty_ref() {
    let ref_string = b"TY  - \nER  - ";
    let mut ref_iter = ReferenceIterator::default(ref_string);
    assert_eq!(ref_iter.next(), Some(Ok(ref_string.to_vec())));
    assert!(ref_iter.next().is_none());
}

#[test]
fn test_unterminated_split_is_eof() {
    let mut ref_iter = ReferenceIterator::default(b"junk\nTY  - JOUR\nA1  - author");
    assert_eq!(ref_iter.next(), Some(Err(Error::EOF)));
    assert!(ref_iter.next().is_none());
}

#[test]
fn test_custom_tags_split() {
    let mut ref_iter = ReferenceIterator::new(b"STA", b"END", b"xx\nSTA 1\nEND 2\nrest\n");
    assert_eq!(ref_iter.next(), Some(Ok(b"STA 1\nEND 2".to_vec())));
    assert!(ref_iter.next().is_none());
}
