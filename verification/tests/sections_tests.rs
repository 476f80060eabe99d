use inventory::{sections_close, unwrap_response};

const GEAR: &str = r#"{"Response":{"characterEquipment":{"data":{"1":{"items":[{"itemHash":11,"state":0},{"itemHash":22}]}},"privacy":1}},"ErrorCode":1}"#;

#[test]
fn sections_at_top_level() {
    assert_eq!(unwrap_response(String::from("{a}{b}"), 0), vec!["{a}", "{b}"]);
}

#[test]
fn sections_one_level_down() {
    assert_eq!(unwrap_response(String::from("{x{a}y{b{c}}}"), 1), vec!["{a}", "{b{c}}"]);
}

#[test]
fn sections_after_a_stray_close() {
    assert_eq!(unwrap_response(String::from("}{a}"), 0), Vec::<String>::new());
}

#[test]
fn sections_of_equipment_items() {
    assert_eq!(
        unwrap_response(String::from(GEAR), 5),
        vec![r#"{"itemHash":11,"state":0}"#, r#"{"itemHash":22}"#]
    );
}

#[test]
fn sections_each_balanced() {
    for section in unwrap_response(String::from("{x{a{q}}y{b{c}}}"), 1) {
        let opens = section.chars().filter(|c| *c == '{').count();
        let closes = section.chars().filter(|c| *c == '}').count();
        assert_eq!(opens, closes);
        assert!(section.starts_with('{') && section.ends_with('}'));
    }
}

#[test]
fn sections_close_checks_the_brace_count() {
    assert!(!sections_close("{{", 0));
    assert!(sections_close("{{", 2));
    assert!(sections_close("}{a}", 0));
    assert!(sections_close(GEAR, 5));
}

#[test]
fn sections_one_level_deeper_are_inner_sections() {
    for depth in 0..5 {
        let deeper = unwrap_response(String::from(GEAR), depth + 1);
        let inner: Vec<String> = unwrap_response(String::from(GEAR), depth)
            .into_iter()
            .flat_map(|e| unwrap_response(e, 1))
            .collect();
        assert_eq!(deeper, inner);
    }
}
