use ris::hashmap_handler::HashMapHandler;
use ris::list_handler::ListHandler;
use ris::list_handler::ListOrItem;
use ris::Error;

fn lookup<'a>(
    fields: &'a [(String, ListOrItem<String>)],
    tag: &str,
) -> Option<&'a ListOrItem<String>> {
    fields.iter().find(|p| p.0 == tag).map(|p| &p.1)
}

#[test]
fn test_list_handler() {
    let allowed_tags = vec![
        b"FOO".to_vec(),
        b"BAR".to_vec(),
        b"STA".to_vec(),
        b"END".to_vec(),
    ];
    let base_handler = HashMapHandler::new(b"STA", b"END", &allowed_tags);
    let list_tags = vec![b"FOO".to_vec()];
    let mut handler = ListHandler::new(base_handler, &list_tags);

    handler.handle(b"STA", b"0").unwrap();
    handler.handle(b"FOO", b"1").unwrap();
    handler.handle(b"BAR", b"2").unwrap();
    handler.handle(b"FOO", b"3").unwrap();
    handler.handle(b"BAR", b"4").unwrap();
    handler.handle(b"END", b"This is ignored").unwrap();

    let fields = handler.finish();
    assert_eq!(fields.len(), 3);
    assert_eq!(
        lookup(&fields, "STA"),
        Some(&ListOrItem::Item("0".to_string()))
    );
    assert_eq!(
        lookup(&fields, "FOO"),
        Some(&ListOrItem::List(vec!["1".to_string(), "3".to_string()]))
    );
    assert_eq!(
        lookup(&fields, "BAR"),
        Some(&ListOrItem::Item("4".to_string()))
    );
}

#[test]
fn test_handler_wrong_width_tag() {
    let allowed_tags = vec![b"STA".to_vec(), b"END".to_vec()];
    let mut handler = HashMapHandler::new(b"STA", b"END", &allowed_tags);
    assert!(matches!(
        handler.handle(b"TOOLONG", b"x"),
        Err(Error::UnknownTag(_))
    ));
}

#[test]
fn test_handler_unknown_tag() {
    let allowed_tags = vec![b"STA".to_vec(), b"END".to_vec()];
    let mut handler = HashMapHandler::new(b"STA", b"END", &allowed_tags);
    assert!(matches!(
        handler.handle(b"ZZZ", b"x"),
        Err(Error::UnknownTag(_))
    ));
}

#[test]
fn test_handler_invalid_utf8_content() {
    let allowed_tags = vec![b"STA".to_vec(), b"END".to_vec()];
    let mut handler = HashMapHandler::new(b"STA", b"END", &allowed_tags);
    assert!(matches!(
        handler.handle(b"STA", b"\xff\xfe"),
        Err(Error::ParserError(_))
    ));
}

#[test]
fn test_handler_end_tag_discarded() {
    let allowed_tags = vec![b"STA".to_vec(), b"END".to_vec()];
    let mut handler = HashMapHandler::new(b"STA", b"END", &allowed_tags);
    handler.handle(b"STA", b"first").unwrap();
    handler.handle(b"END", b"dropped").unwrap();
    let fields = handler.finish();
    assert_eq!(fields.len(), 1);
    assert_eq!(fields[0].0, "STA");
    assert_eq!(fields[0].1, "first");
}

#[test]
fn test_handler_last_write_wins() {
    let allowed_tags = vec![b"STA".to_vec(), b"AAA".to_vec(), b"END".to_vec()];
    let mut handler = HashMapHandler::new(b"STA", b"END", &allowed_tags);
    handler.handle(b"AAA", b"first").unwrap();
    handler.handle(b"AAA", b"second").unwrap();
    let fields = handler.finish();
    assert_eq!(fields.len(), 1);
    assert_eq!(fields[0].0, "AAA");
    assert_eq!(fields[0].1, "second");
}
