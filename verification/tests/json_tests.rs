use inventory::{entry_from_renderings, item_entry, member_id_in_search_reply, section_item_hashes, ReplyError};

const SEARCH: &str = r#"{"Response":[{"iconPath":"/img/x.png","membershipType":2,"membershipId":"4611686018459314819","displayName":"cortical_iv"}],"ErrorCode":1,"ThrottleSeconds":0,"ErrorStatus":"Success","Message":"Ok","MessageData":{}}"#;

const GEAR: &str = r#"{"Response":{"characterEquipment":{"data":{"1":{"items":[{"itemHash":11,"state":0},{"itemHash":22}]}},"privacy":1}},"ErrorCode":1}"#;

#[test]
fn item_entry_skips_empty_reply() {
    assert_eq!(item_entry(""), Ok(None));
}

#[test]
fn item_entry_refuses_non_json() {
    assert_eq!(item_entry("<html>"), Err(ReplyError::Unparsable));
}

#[test]
fn item_entry_reads_name_and_description() {
    let detail = r#"{"Response":{"displayProperties":{"name":"Ace of Spades","description":"Line one\nLine two"}}}"#;
    assert_eq!(
        item_entry(detail),
        Ok(Some(String::from("Ace of Spades: Line one \nLine two\n")))
    );
}

#[test]
fn item_entry_unescapes_quotes() {
    let detail = r#"{"Response":{"displayProperties":{"name":"Gun","description":"say \"hi\""}}}"#;
    assert_eq!(item_entry(detail), Ok(Some(String::from("Gun: say \"hi\"\n"))));
}

#[test]
fn item_entry_without_description_text() {
    let detail = r#"{"Response":{"displayProperties":{"name":"Gun","description":""}}}"#;
    assert_eq!(
        item_entry(detail),
        Ok(Some(String::from("Gun: An item so awesome it cannot be described\n")))
    );
}

#[test]
fn item_entry_without_name() {
    assert_eq!(item_entry(r#"{"Response":{}}"#), Err(ReplyError::MissingQuote));
}

#[test]
fn section_item_hashes_of_gear() {
    assert_eq!(
        section_item_hashes(String::from(GEAR)),
        Ok(vec![String::from("11"), String::from("22")])
    );
}

#[test]
fn section_item_hashes_of_bad_section() {
    assert_eq!(
        section_item_hashes(String::from("{{{{{{a}}}}}}")),
        Err(ReplyError::Unparsable)
    );
}

#[test]
fn section_item_hashes_of_flat_reply() {
    assert_eq!(section_item_hashes(String::from("{}")), Ok(Vec::new()));
}

#[test]
fn member_id_in_empty_search_reply() {
    assert_eq!(member_id_in_search_reply(String::new()), Ok(String::from("Characters not found")));
}

#[test]
fn member_id_in_search_reply_is_rendered() {
    assert_eq!(
        member_id_in_search_reply(String::from(SEARCH)),
        Ok(String::from("\"4611686018459314819\""))
    );
}

#[test]
fn member_id_in_cut_reply() {
    assert_eq!(member_id_in_search_reply(String::from("ab[")), Err(ReplyError::CutInsideCharacter));
}

#[test]
fn member_id_in_non_json_reply() {
    assert_eq!(member_id_in_search_reply(String::from("hello")), Err(ReplyError::Unparsable));
}

#[test]
fn entry_from_string_renderings() {
    assert_eq!(
        entry_from_renderings(String::from("\"Gun\""), String::from("\"A\\nB\"")),
        Ok(String::from("Gun: A \nB\n"))
    );
}

#[test]
fn entry_from_null_rendering() {
    assert_eq!(
        entry_from_renderings(String::from("\"Gun\""), String::from("null")),
        Err(ReplyError::MissingQuote)
    );
    assert_eq!(
        entry_from_renderings(String::from("null"), String::from("\"d\"")),
        Err(ReplyError::MissingQuote)
    );
}
