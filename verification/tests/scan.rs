use std::collections::HashSet;

use fire::templ::find_keys;

#[test]
fn find_template_keys() {
    let template = "{{FOO}} {{}}- {{{}}} {{  }} {{BAR}}";
    let keys: HashSet<String> = find_keys(&template).into_iter().collect();
    let expected: HashSet<String> =
        [String::from("FOO"), String::from("BAR")].into_iter().collect();
    assert_eq!(expected, keys);
}

#[test]
fn malformed_braces_yield_no_keys() {
    assert!(find_keys("{{}}").is_empty());
    assert!(find_keys("{{ }}").is_empty());
    assert!(find_keys("{{{}}}").is_empty());
    assert!(find_keys("text {{with spaces}} and {{bad-char!}} here").is_empty());
    assert!(find_keys("{ {A}} {{B} }").is_empty());
}

#[test]
fn keys_are_deduplicated_in_first_occurrence_order() {
    let keys = find_keys("{{B}} {{A}} {{B}} {{A}} {{C}}");
    assert_eq!(vec!["B".to_string(), "A".to_string(), "C".to_string()], keys);
}

#[test]
fn identifier_characters_are_letters_digits_dash_underscore() {
    let keys = find_keys("{{a-b_C9}}");
    assert_eq!(vec!["a-b_C9".to_string()], keys);
}

#[test]
fn nested_braces_resolve_to_inner_candidate() {
    // The inner pair of braces is the placeholder; the outer braces are text.
    let keys = find_keys("{{{FOO}}}");
    assert_eq!(vec!["FOO".to_string()], keys);
}
