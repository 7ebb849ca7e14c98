use fire::prop::{parse_properties, sort_properties, ParsePropertyError, Property, Source};

#[test]
fn test_properties_sort_order() -> Result<(), ParsePropertyError> {
    let prop0 = Property::new("key".to_string(), "v0".to_string(), Source::Arg)?;
    let prop1 = Property::new("key".to_string(), "v1".to_string(), Source::File(0))?;
    let prop2 = Property::new("key".to_string(), "v2".to_string(), Source::EnvVar)?;

    let props: Vec<Property> = vec![prop2, prop1, prop0];
    let props = sort_properties(props);

    assert_eq!("v0", props[0].value());
    assert_eq!("v1", props[1].value());
    assert_eq!("v2", props[2].value());

    Ok(())
}

#[test]
fn sort_is_descending_precedence() -> Result<(), ParsePropertyError> {
    // Ascending by the sort order: the override first, then the deeper file,
    // then the shallower file, then the inherited environment.
    let props = vec![
        Property::new("k".to_string(), "shallow".to_string(), Source::File(0))?,
        Property::new("k".to_string(), "deep".to_string(), Source::File(1))?,
        Property::new("k".to_string(), "arg".to_string(), Source::Arg)?,
        Property::new("k".to_string(), "env".to_string(), Source::EnvVar)?,
    ];
    let sorted = sort_properties(props);
    let values: Vec<&str> = sorted.iter().map(|p| p.value()).collect();
    assert_eq!(vec!["arg", "deep", "shallow", "env"], values);
    assert_eq!(Source::Arg, sorted[0].prio());
    assert_eq!(Source::File(1), sorted[1].prio());
    assert_eq!(Source::File(0), sorted[2].prio());
    assert_eq!(Source::EnvVar, sorted[3].prio());
    Ok(())
}

#[test]
fn parse_line_trims_and_unquotes() {
    let p = Property::from_str("  KEY = 'value'  ").unwrap();
    assert_eq!("KEY", p.key());
    assert_eq!("value", p.value());

    let q = Property::from_str("A=\"quoted\"").unwrap();
    assert_eq!("quoted", q.value());

    // Mismatched quotes are kept: only a matching pair is stripped.
    let r = Property::from_str("A='half\"").unwrap();
    assert_eq!("'half\"", r.value());
}

#[test]
fn parse_line_without_delimiter_fails() {
    let e = Property::from_str("no delimiter here").unwrap_err();
    match e {
        ParsePropertyError::Entry(line) => assert_eq!("no delimiter here", line),
        _ => panic!("wrong error variant"),
    }
}

#[test]
fn parse_file_content() {
    let content = "A=1\n\n  \nB = 2\nC='three'";
    let props = parse_properties(content, Source::File(4)).unwrap();
    assert_eq!(3, props.len());
    assert_eq!("A", props[0].key());
    assert_eq!("1", props[0].value());
    assert_eq!("B", props[1].key());
    assert_eq!("2", props[1].value());
    assert_eq!("three", props[2].value());
    assert_eq!(Source::File(4), props[0].prio());
}

#[test]
fn parse_file_content_reports_first_bad_line() {
    let content = "A=1\nbroken line\nB=2";
    let e = parse_properties(content, Source::File(0)).unwrap_err();
    match e {
        ParsePropertyError::Entry(line) => assert_eq!("broken line", line),
        _ => panic!("wrong error variant"),
    }
}

#[test]
fn normalize_trims_and_strips_one_quote_layer() {
    assert_eq!("x", fire::prop::normalize(" 'x' "));
    assert_eq!("'x'", fire::prop::normalize("''x''"));
    assert_eq!("a b", fire::prop::normalize("\t a b \r\n"));
    assert_eq!("", fire::prop::normalize("   "));
    assert_eq!("\"y\"", fire::prop::normalize(" '\"y\"' "));
}

#[test]
fn priority_is_the_directory_depth() {
    assert_eq!(Source::File(3), fire::prop::priority(3));
}

#[test]
fn parse_error_messages() {
    let e = ParsePropertyError::Entry("bad".to_string());
    assert_eq!("Invalid entry: bad", e.message());
}

#[test]
fn with_prio_replaces_priority() {
    let p = Property::new("k".to_string(), "v".to_string(), Source::EnvVar).unwrap();
    let p = p.with_prio(Source::File(7));
    assert_eq!(Source::File(7), p.prio());
    assert_eq!("k", p.key());
    assert_eq!("v", p.value());
}
