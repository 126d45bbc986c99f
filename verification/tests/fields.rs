use ris::content_iter::ContentIterator;
use ris::content_iter::TakeTagResult;

#[test]
fn content_iter_test_take_line() {
    let allowed_tags: Vec<Vec<u8>> = Vec::new();
    let mut content_iter = ContentIterator::new(&allowed_tags, 6, b"foo\n\nbar");
    assert!(content_iter.take_line().is_some());
    assert_eq!(content_iter.cursor, 4);
    assert!(content_iter.take_line().is_some());
    assert_eq!(content_iter.cursor, 5);
    assert!(content_iter.take_line().is_none());
    assert!(content_iter.take_line().is_none());
}

#[test]
fn content_iter_test_take_tag() {
    let allowed_tags = vec![b"TY  - ".to_vec()];
    assert_eq!(
        ContentIterator::new(&allowed_tags, 6, b"TY  - foo bar").take_tag(),
        TakeTagResult::Present(b"TY  - ".to_vec())
    );
    assert_eq!(
        ContentIterator::new(&allowed_tags, 6, b"QQ  - foo bar").take_tag(),
        TakeTagResult::NotPresent
    );
    assert_eq!(
        ContentIterator::new(&allowed_tags, 6, b"TY").take_tag(),
        TakeTagResult::EOF
    );
}

#[test]
fn content_iter_test_next() {
    let ref_bytes =
        b"TY  - JOUR\nID  - 12345\nA2  - Glattauer, Daniel\nUR  - http://example_url.com\nER  - ";
    let allowed_tags = vec![
        b"TY  - ".to_vec(),
        b"A2  - ".to_vec(),
        b"ID  - ".to_vec(),
        b"UR  - ".to_vec(),
        b"ER  - ".to_vec(),
    ];
    let mut content_iter = ContentIterator::new(&allowed_tags, 6, ref_bytes);
    assert_eq!(
        content_iter.next(),
        Some(Ok((b"TY  - ".to_vec(), b"JOUR".to_vec())))
    );
    assert_eq!(
        content_iter.next(),
        Some(Ok((b"ID  - ".to_vec(), b"12345".to_vec())))
    );
    assert_eq!(
        content_iter.next(),
        Some(Ok((b"A2  - ".to_vec(), b"Glattauer, Daniel".to_vec())))
    );
    assert_eq!(
        content_iter.next(),
        Some(Ok((b"UR  - ".to_vec(), b"http://example_url.com".to_vec())))
    );
    assert_eq!(
        content_iter.next(),
        Some(Ok((b"ER  - ".to_vec(), b"".to_vec())))
    );
    assert_eq!(content_iter.next(), None);
}

#[test]
fn content_iter_multiline_content() {
    let ref_bytes = b"TY  - JOUR\nN2  - first line\n  second line\n  last line\nER  - ";
    let allowed_tags = vec![b"TY  - ".to_vec(), b"N2  - ".to_vec(), b"ER  - ".to_vec()];
    let mut content_iter = ContentIterator::new(&allowed_tags, 6, ref_bytes);
    assert_eq!(
        content_iter.next(),
        Some(Ok((b"TY  - ".to_vec(), b"JOUR".to_vec())))
    );
    assert_eq!(
        content_iter.next(),
        Some(Ok((
            b"N2  - ".to_vec(),
            b"first line\n  second line\n  last line".to_vec()
        )))
    );
    assert_eq!(
        content_iter.next(),
        Some(Ok((b"ER  - ".to_vec(), b"".to_vec())))
    );
    assert_eq!(content_iter.next(), None);
}

#[test]
fn content_iter_bad_line() {
    let ref_bytes = b"ZZ  - what\nER  - ";
    let allowed_tags = vec![b"TY  - ".to_vec(), b"ER  - ".to_vec()];
    let mut content_iter = ContentIterator::new(&allowed_tags, 6, ref_bytes);
    assert!(matches!(content_iter.next(), Some(Err(_))));
}
