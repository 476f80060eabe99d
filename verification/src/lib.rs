//! Looks up which gear a Destiny 2 player has equipped, using the Bungie API.
//!
//! The network requests, the file read and the printing live in the program
//! around this library; here stand the text handling, the request URLs and
//! the decisions taken on the replies, each with a contract.

pub mod brackets;
pub mod bungie;
pub mod json;
pub mod sections;
pub mod strings;
pub mod text;

pub use brackets::{fix_json, try_fix_json};
pub use bungie::{
    all_equipment, describe, gear_url, item_line, item_url, item_url_for, member_id_from_reply,
    member_search_url, APIResponse, CharacterEquipment, Equipment, EquipmentData, Item, User,
    UserResponse,
};
pub use json::{entry_from_renderings, item_entry, member_id_in_search_reply, section_item_hashes, ReplyError};
pub use sections::{sections_close, unwrap_response};
pub use strings::{chars_of, string_from_chars};
pub use text::{contains_char, decimal, get_json, replace_all, strip_quotes, trim_whitespace};
