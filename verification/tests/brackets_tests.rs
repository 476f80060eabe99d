use inventory::{fix_json, try_fix_json};

const SEARCH: &str = r#"{"Response":[{"iconPath":"/img/x.png","membershipType":2,"membershipId":"4611686018459314819","displayName":"cortical_iv"}],"ErrorCode":1,"ThrottleSeconds":0,"ErrorStatus":"Success","Message":"Ok","MessageData":{}}"#;

#[test]
fn fix_json_strips_the_response_brackets() {
    let fixed = fix_json(String::from(SEARCH));
    assert_eq!(fixed, SEARCH.replace('[', "").replace(']', ""));
}

#[test]
fn fix_json_of_nested_array() {
    assert_eq!(fix_json(String::from("{\"Response\":[{\"a\":1}]}")), "{\"Response\":{\"a\":1}}");
}

#[test]
fn fix_json_takes_relative_positions() {
    assert_eq!(fix_json(String::from("a[b[c")), "[c");
    assert_eq!(fix_json(String::from("x]y]z")), "]z");
}

#[test]
fn fix_json_counts_bytes() {
    assert_eq!(fix_json(String::from("é[x")), "éx");
}

#[test]
fn fix_json_without_brackets_is_unchanged() {
    assert_eq!(fix_json(String::from("{\"a\":\"b\"}")), "{\"a\":\"b\"}");
}

#[test]
fn try_fix_json_refuses_a_cut_past_the_end() {
    assert_eq!(try_fix_json(String::from("ab[")), None);
}

#[test]
fn try_fix_json_refuses_a_cut_inside_a_character() {
    assert_eq!(try_fix_json(String::from("[é[")), None);
}

#[test]
fn try_fix_json_agrees_with_fix_json() {
    assert_eq!(try_fix_json(String::from("a[b[c")), Some(String::from("[c")));
}

#[test]
fn fix_json_never_lengthens() {
    for text in ["a[b[c", "x]y]z", "[[]]x", "{}"] {
        if let Some(fixed) = try_fix_json(String::from(text)) {
            assert!(fixed.chars().count() <= text.chars().count());
        }
    }
}
