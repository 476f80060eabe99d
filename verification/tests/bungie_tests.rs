use inventory::{
    all_equipment, describe, gear_url, item_line, item_url, item_url_for, member_id_from_reply,
    member_search_url, APIResponse, CharacterEquipment, Equipment, EquipmentData, Item, User,
    UserResponse,
};

fn item(hash: u64) -> Item {
    Item {
        transfer_status: 0,
        dismantle_permission: 0,
        bucket_hash: 1498876634,
        quantity: 1,
        item_hash: hash,
        state: 0,
        bind_status: 0,
        lockable: true,
        is_wrapper: false,
        item_instance_id: String::from("6917529000000000000"),
        location: 1,
    }
}

fn user(id: &str) -> User {
    User {
        icon_path: Some(String::from("/img/theme/destiny/icons/icon_psn.png")),
        membership_type: 2,
        membership_id: String::from(id),
        display_name: String::from("cortical_iv"),
    }
}

#[test]
fn member_search_url_for_pc_player() {
    assert_eq!(
        member_search_url('4', "shark90%231673"),
        "https://www.bungie.net/Platform/Destiny2/SearchDestinyPlayer/4/shark90%231673/"
    );
}

#[test]
fn gear_url_asks_for_component_205() {
    assert_eq!(
        gear_url('2', "4611686018459314819"),
        "https://www.bungie.net/Platform/Destiny2/2/Profile/4611686018459314819/?components=205"
    );
}

#[test]
fn item_url_for_hash() {
    assert_eq!(
        item_url(1345867571),
        "https://www.bungie.net/Platform/Destiny2/Manifest/DestinyInventoryItemDefinition/1345867571"
    );
    assert_eq!(item_url(1345867571), item_url_for("1345867571"));
}

#[test]
fn all_equipment_lists_every_character_in_order() {
    let response = APIResponse {
        error_code: 1,
        response: CharacterEquipment {
            character_equipment: Equipment {
                privacy: 1,
                data: vec![
                    (String::from("2305843009300000001"), EquipmentData { items: vec![item(5), item(6)] }),
                    (String::from("2305843009300000002"), EquipmentData { items: vec![] }),
                    (String::from("2305843009300000003"), EquipmentData { items: vec![item(7)] }),
                ],
            },
        },
        error_status: String::from("Success"),
        message_data: 0,
        throttle_seconds: 0,
        message: String::from("Ok"),
    };
    assert_eq!(all_equipment(&response), vec![5, 6, 7]);
}

#[test]
fn member_id_of_empty_reply() {
    assert_eq!(member_id_from_reply(None), "Player not found");
}

#[test]
fn member_id_is_the_first_player() {
    let reply = UserResponse {
        response: vec![user("4611686018459314819"), user("1")],
        error_code: 1,
        error_status: String::from("Success"),
        message_data: 0,
        throttle_seconds: 0,
        message: String::from("Ok"),
    };
    assert_eq!(member_id_from_reply(Some(reply)), "4611686018459314819");
}

#[test]
fn describe_empty_gives_stock_text() {
    assert_eq!(describe(String::new()), "An item so awesome it cannot be described");
}

#[test]
fn describe_breaks_lines_and_drops_backslashes() {
    assert_eq!(describe(String::from("Line\\nTwo \\ end")), "Line \nTwo  end");
}

#[test]
fn describe_leaves_no_backslash() {
    let d = describe(String::from("a\\\\b\\n\\"));
    assert!(!d.contains('\\'));
}

#[test]
fn item_line_from_renderings() {
    assert_eq!(
        item_line(String::from("\"Ace of Spades\""), String::from("\"Good\\nGun\"")),
        "Ace of Spades: Good \nGun\n"
    );
}

#[test]
fn item_line_without_description() {
    assert_eq!(
        item_line(String::from("\"Ace\""), String::from("\"\"")),
        "Ace: An item so awesome it cannot be described\n"
    );
}

#[test]
fn equipment_ids_distinct_or_not() {
    let mut equipment = Equipment {
        privacy: 1,
        data: vec![
            (String::from("1"), EquipmentData { items: vec![item(5)] }),
            (String::from("2"), EquipmentData { items: vec![] }),
        ],
    };
    assert!(equipment.has_distinct_ids());
    equipment.data.push((String::from("1"), EquipmentData { items: vec![] }));
    assert!(!equipment.has_distinct_ids());
}
