use fire::prop::{ParsePropertyError, Property, Source};
use fire::template::{merge, render, substitution, ResolvedMapping, SubstitutionError};

#[test]
fn test_merge_properties() -> Result<(), ParsePropertyError> {
    let props: Vec<Property> = vec![
        Property::new(String::from("key"), String::from("file0"), Source::File(0))?,
        Property::new(String::from("key"), String::from("file1"), Source::File(1))?,
        Property::new(String::from("key"), String::from("env"), Source::EnvVar)?,
        Property::new(String::from("key"), String::from("arg"), Source::Arg)?,
    ];

    let vars: ResolvedMapping = merge(&props);
    assert_eq!("arg", vars.get("key").unwrap().as_str());

    Ok(())
}

#[test]
fn merge_is_order_independent_for_distinct_priorities() {
    let a = Property::new("k".to_string(), "wins".to_string(), Source::File(3)).unwrap();
    let b = Property::new("k".to_string(), "loses".to_string(), Source::File(1)).unwrap();
    let forward = merge(&vec![a.clone(), b.clone()]);
    let backward = merge(&vec![b, a]);
    assert_eq!("wins", forward.get("k").unwrap().as_str());
    assert_eq!("wins", backward.get("k").unwrap().as_str());
}

#[test]
fn merge_deeper_file_beats_shallower() {
    let props = vec![
        Property::new("k".to_string(), "shallow".to_string(), Source::File(2)).unwrap(),
        Property::new("k".to_string(), "deep".to_string(), Source::File(5)).unwrap(),
    ];
    assert_eq!("deep", merge(&props).get("k").unwrap().as_str());
}

#[test]
fn merge_equal_depth_last_discovered_wins() {
    let props = vec![
        Property::new("k".to_string(), "first".to_string(), Source::File(2)).unwrap(),
        Property::new("k".to_string(), "second".to_string(), Source::File(2)).unwrap(),
    ];
    assert_eq!("second", merge(&props).get("k").unwrap().as_str());
}

#[test]
fn mapping_insert_and_get() {
    let mut m = ResolvedMapping::new();
    assert!(m.get("A").is_none());
    m.insert("A".to_string(), "1".to_string());
    m.insert("B".to_string(), "2".to_string());
    m.insert("A".to_string(), "3".to_string());
    assert_eq!("3", m.get("A").unwrap().as_str());
    assert_eq!("2", m.get("B").unwrap().as_str());
}

#[test]
fn render_replaces_resolved_placeholders() {
    let mut m = ResolvedMapping::new();
    m.insert("NAME".to_string(), "World".to_string());
    let out = render("Hello {{NAME}}!", &m);
    assert_eq!("Hello World!", out);
}

#[test]
fn render_keeps_malformed_sequences_and_unknown_keys() {
    let m = ResolvedMapping::new();
    let out = render("{{}} {{ }} {{{}}} {{MISSING}} }}", &m);
    assert_eq!("{{}} {{ }} {{{}}} {{MISSING}} }}", out);
}

#[test]
fn render_is_single_pass() {
    // A substituted value holding placeholder syntax is not scanned again.
    let mut m = ResolvedMapping::new();
    m.insert("A".to_string(), "{{B}}".to_string());
    m.insert("B".to_string(), "inner".to_string());
    assert_eq!("{{B}}", render("{{A}}", &m));
}

#[test]
fn substitution_strict_missing_value() {
    // Scenario: strict-mode substitution with an empty mapping fails and
    // names the missing key.
    let prompt = |_k: String| Ok::<String, String>(String::new());
    let r = substitution("Hello {{NAME}}".to_string(), Vec::new(), false, prompt);
    match r {
        Err(SubstitutionError::MissingValue(key)) => assert_eq!("NAME", key),
        _ => panic!("expected a missing-value error"),
    }
}

#[test]
fn substitution_interactive_prompts_for_missing() {
    // Scenario: interactive mode asks the collaborator and renders with its
    // answer.
    let prompt = |k: String| {
        assert_eq!("NAME", k);
        Ok::<String, String>("World".to_string())
    };
    let r = substitution("Hello {{NAME}}".to_string(), Vec::new(), true, prompt);
    assert_eq!("Hello World", r.unwrap());
}

#[test]
fn substitution_interactive_propagates_prompt_failure() {
    let prompt = |_k: String| Err::<String, String>("input closed".to_string());
    let r = substitution("Hello {{NAME}}".to_string(), Vec::new(), true, prompt);
    match r {
        Err(SubstitutionError::Prompt(msg)) => assert_eq!("input closed", msg),
        _ => panic!("expected a prompt error"),
    }
}

#[test]
fn substitution_with_resolved_properties() {
    let props = vec![
        Property::new("WHO".to_string(), "env".to_string(), Source::EnvVar).unwrap(),
        Property::new("WHO".to_string(), "arg".to_string(), Source::Arg).unwrap(),
    ];
    let prompt = |_k: String| Ok::<String, String>(String::new());
    let r = substitution("Hi {{WHO}}".to_string(), props, false, prompt);
    assert_eq!("Hi arg", r.unwrap());
}

#[test]
fn substitution_round_trip_with_arg_overrides() {
    // Arg overrides for every referenced key decide the output, whatever
    // environment or file properties are present besides.
    let props = vec![
        Property::new("A".to_string(), "envA".to_string(), Source::EnvVar).unwrap(),
        Property::new("B".to_string(), "fileB".to_string(), Source::File(9)).unwrap(),
        Property::new("A".to_string(), "1".to_string(), Source::Arg).unwrap(),
        Property::new("B".to_string(), "2".to_string(), Source::Arg).unwrap(),
    ];
    let prompt = |_k: String| Ok::<String, String>(String::new());
    let r = substitution("{{A}}+{{B}}={{A}}{{B}}".to_string(), props, false, prompt);
    assert_eq!("1+2=12", r.unwrap());
}
