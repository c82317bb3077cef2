use pandoc_norg_converter::meta::{consume_any, parse_object_inner, MetaValue};

fn s(t: &str) -> String {
    t.to_string()
}

fn ms(t: &str) -> MetaValue {
    MetaValue::MetaString(t.to_string())
}

#[test]
fn basic() {
    let input = r#"
            title: Look spaces
            description: This should always work
            author: brain
        "#;

    let (meta, _) = parse_object_inner(input);

    let expected = vec![
        (s("title"), ms("Look spaces")),
        (s("description"), ms("This should always work")),
        (s("author"), ms("brain")),
    ];

    assert_eq!(meta, expected);
}

#[test]
fn array() {
    let input = r#"
            authors: [
                Not whitespace dependent
                Take that yaml
            ]
        "#;

    let (meta, _) = parse_object_inner(input);

    let expected = vec![
        (
            s("authors"),
            MetaValue::MetaList(vec![ms("Not whitespace dependent"), ms("Take that yaml")]),
        ),
    ];

    assert_eq!(meta, expected);
}

#[test]
fn object() {
    let input = r#"
            data: {
                first: 1
                second: 2
            }
        "#;

    let (meta, _) = parse_object_inner(input);

    let expected = vec![
        (
            s("data"),
            MetaValue::MetaMap(vec![(s("first"), ms("1")), (s("second"), ms("2"))]),
        ),
    ];

    assert_eq!(meta, expected);
}

#[test]
fn object_array() {
    let input = r#"
            data: {
                first: [
                    ab
                    ba
                ]
                second: 2
            }
        "#;

    let (meta, _) = parse_object_inner(input);

    let expected = vec![
        (
            s("data"),
            MetaValue::MetaMap(vec![
                (
                    s("first"),
                    MetaValue::MetaList(vec![ms("ab"), ms("ba")]),
                ),
                (s("second"), ms("2")),
            ]),
        ),
    ];

    assert_eq!(meta, expected);
}

#[test]
fn nested_object() {
    let input = r#"
            data: {
                first: [
                    {
                        nested: array
                    }
                    ba
                ]
                second: {
                    nested: 1
                    more: { nested: 2 }
                }
            }
        "#;

    let (meta, _) = parse_object_inner(input);

    let expected = vec![
        (
            s("data"),
            MetaValue::MetaMap(vec![
                (
                    s("first"),
                    MetaValue::MetaList(vec![
                        MetaValue::MetaMap(vec![(s("nested"), ms("array"))]),
                        ms("ba"),
                    ]),
                ),
                (
                    s("second"),
                    MetaValue::MetaMap(vec![
                        (s("nested"), ms("1")),
                        (s("more"), MetaValue::MetaMap(vec![(s("nested"), ms("2"))])),
                    ]),
                ),
            ]),
        ),
    ];

    assert_eq!(meta, expected);
}

#[test]
fn duplicate_key_last_write_wins() {
    let input = "title: first\ntitle: second";
    let (meta, _) = parse_object_inner(input);
    assert_eq!(meta, vec![(s("title"), ms("second"))]);
}

#[test]
fn missing_colon_is_recovered() {
    // Without the colon, the value is read from where the colon should have
    // stood: the next bare string. Nothing fails.
    let input = "title\nauthor: brain";
    let (meta, rest) = parse_object_inner(input);
    assert_eq!(rest, "");
    assert_eq!(
        meta,
        vec![(s("title"), ms("author")), (s(""), ms("brain"))]
    );
}

#[test]
fn unclosed_list_terminates() {
    let input = "authors: [ one two";
    let (meta, _) = parse_object_inner(input);
    assert_eq!(
        meta,
        vec![(s("authors"), MetaValue::MetaList(vec![ms("one two")]))]
    );
}

#[test]
fn consume_any_splits_at_the_first_stop() {
    let (a, b) = consume_any("key: value", |c| c == ':');
    assert_eq!(a, "key");
    assert_eq!(b, ": value");
    let (c, d) = consume_any("plain", |ch| ch == ':');
    assert_eq!(c, "plain");
    assert_eq!(d, "");
}
