//! Reading values out of JSON replies with `serde_json`, and the decisions
//! taken on what comes back.

use vstd::prelude::*;

use crate::bungie::{description_spec, item_line, item_line_spec};
use crate::text::strip_quotes_spec;
use crate::brackets::{fix_json_spec, try_fix_json, utf8_len};
use crate::sections::{nesting, section_starts, section_text, unwrap_response};
use crate::text::contains_char;

verus! {

/// The error `serde_json` reports for a text that does not parse.
#[verifier::external_type_specification]
#[verifier::external_body]
pub struct ExJsonError(serde_json::Error);

/// Whether `serde_json` parses `text` as a single JSON value (with nothing
/// but whitespace after it).
pub uninterp spec fn json_parses(text: Seq<char>) -> bool;

/// The compact JSON rendering that `serde_json` gives of the value reached
/// from the JSON value `text` by indexing with the keys of `path` in turn
/// (`Value`'s `Index<&str>`, which gives `null` for a missing member or a
/// value that is no object). A function of the text and the keys alone:
/// members are kept in a sorted map, and the last of duplicate keys wins.
pub uninterp spec fn json_rendering_at(text: Seq<char>, path: Seq<Seq<char>>) -> Seq<char>;

/// `serde_json::from_str::<Value>(text)`, then `v[key].to_string()`.
/// Claimed: it succeeds exactly on the texts of `json_parses`, and then gives
/// `json_rendering_at(text, [key])`.
#[verifier::external_body]
fn render_member(text: &str, key: &str) -> (rendered: Result<String, serde_json::Error>)
    ensures
        rendered is Ok <==> json_parses(text@),
        rendered matches Ok(r) ==> r@ == json_rendering_at(text@, seq![key@]),
{
    serde_json::from_str::<serde_json::Value>(text).map(|v| v[key].to_string())
}

/// `serde_json::from_str::<Value>(text)`, then `v[first][second].to_string()`.
/// Claimed: it succeeds exactly on the texts of `json_parses`, and then gives
/// `json_rendering_at(text, [first, second])`.
#[verifier::external_body]
fn render_member_in(text: &str, first: &str, second: &str) -> (rendered: Result<String, serde_json::Error>)
    ensures
        rendered is Ok <==> json_parses(text@),
        rendered matches Ok(r) ==> r@ == json_rendering_at(text@, seq![first@, second@]),
{
    serde_json::from_str::<serde_json::Value>(text).map(|v| v[first][second].to_string())
}

/// `serde_json::from_str::<Value>(text)`, then
/// `v[first][second][third].to_string()`. Claimed: it succeeds exactly on the
/// texts of `json_parses`, and then gives
/// `json_rendering_at(text, [first, second, third])`.
#[verifier::external_body]
fn render_member_deep(text: &str, first: &str, second: &str, third: &str) -> (rendered: Result<String, serde_json::Error>)
    ensures
        rendered is Ok <==> json_parses(text@),
        rendered matches Ok(r) ==> r@ == json_rendering_at(text@, seq![first@, second@, third@]),
{
    serde_json::from_str::<serde_json::Value>(text).map(|v| v[first][second][third].to_string())
}

/// The rendering of `Response.displayProperties.name` in an item reply.
pub open spec fn item_name_rendering(detail: Seq<char>) -> Seq<char> {
    json_rendering_at(detail, seq!["Response"@, "displayProperties"@, "name"@])
}

/// The rendering of `Response.displayProperties.description` in an item reply.
pub open spec fn item_description_rendering(detail: Seq<char>) -> Seq<char> {
    json_rendering_at(detail, seq!["Response"@, "displayProperties"@, "description"@])
}

/// The rendering of `itemHash` in an item object.
pub open spec fn item_hash_rendering(item: Seq<char>) -> Seq<char> {
    json_rendering_at(item, seq!["itemHash"@])
}

/// The rendering of `Response.membershipId` in a search reply.
pub open spec fn member_id_rendering(reply: Seq<char>) -> Seq<char> {
    json_rendering_at(reply, seq!["Response"@, "membershipId"@])
}

/// Why a reply could not be read.
#[derive(Clone, Copy, Debug, PartialEq, Eq, Structural)]
pub enum ReplyError {
    /// The reply is not JSON.
    Unparsable,
    /// A value that should be a JSON string has no double quote in its rendering.
    MissingQuote,
    /// Stripping the brackets would cut the reply inside a character or past its end.
    CutInsideCharacter,
}

/// The entry shown for an item, from the JSON renderings of its name and of
/// its description; `MissingQuote` where either is no JSON string rendering
/// (such as `null` for a missing member).
pub fn entry_from_renderings(name_json: String, description_json: String) -> (entry: Result<String, ReplyError>)
    ensures
        name_json@.contains('"') && description_json@.contains('"') ==> (entry matches Ok(line)
            && line@ == item_line_spec(name_json@, description_json@) && line@ == strip_quotes_spec(
            name_json@,
        ) + ": "@ + description_spec(strip_quotes_spec(description_json@)) + "\n"@),
        !(name_json@.contains('"') && description_json@.contains('"')) ==> entry == Err::<
            String,
            ReplyError,
        >(ReplyError::MissingQuote),
{
    if !contains_char(name_json.as_str(), '"') || !contains_char(description_json.as_str(), '"') {
        return Err(ReplyError::MissingQuote);
    }
    Ok(item_line(name_json, description_json))
}

/// The entry shown for an item, from the reply to a request for its
/// definition: `None` when the reply is empty (the item is skipped), else
/// `name: description` from `Response.displayProperties`.
pub fn item_entry(detail: &str) -> (entry: Result<Option<String>, ReplyError>)
    ensures
        detail@.len() == 0 ==> entry matches Ok(None),
        detail@.len() > 0 && !json_parses(detail@) ==> entry == Err::<Option<String>, ReplyError>(
            ReplyError::Unparsable,
        ),
        detail@.len() > 0 && json_parses(detail@) ==> ({
            let n = json_rendering_at(detail@, seq!["Response"@, "displayProperties"@, "name"@]);
            let d = json_rendering_at(detail@, seq!["Response"@, "displayProperties"@, "description"@]);
            if n.contains('"') && d.contains('"') {
                entry matches Ok(Some(line)) && line@ == item_line_spec(n, d) && line@ == strip_quotes_spec(n)
                    + ": "@ + description_spec(strip_quotes_spec(d)) + "\n"@
            } else {
                entry == Err::<Option<String>, ReplyError>(ReplyError::MissingQuote)
            }
        }),
{
    if detail.is_empty() {
        return Ok(None);
    }
    let name = match render_member_deep(detail, "Response", "displayProperties", "name") {
        Ok(name) => name,
        Err(_) => {
            return Err(ReplyError::Unparsable);
        },
    };
    let description = match render_member_deep(detail, "Response", "displayProperties", "description") {
        Ok(description) => description,
        Err(_) => {
            return Err(ReplyError::Unparsable);
        },
    };
    match entry_from_renderings(name, description) {
        Ok(line) => Ok(Some(line)),
        Err(e) => Err(e),
    }
}

/// The item hashes, as JSON renderings, of the items of an equipment reply:
/// the `itemHash` of each object nested five braces deep.
pub fn section_item_hashes(equipment: String) -> (hashes: Result<Vec<String>, ReplyError>)
    requires
        nesting(equipment@) <= 5,
    ensures
        hashes matches Ok(h) ==> h.len() == section_starts(equipment@, 5).len() && forall|k: int|
            0 <= k < h.len() ==> #[trigger] h[k]@ == json_rendering_at(section_text(equipment@, 5, k), seq!["itemHash"@]),
        hashes is Err <==> exists|k: int|
            0 <= k < section_starts(equipment@, 5).len() && !json_parses(
                #[trigger] section_text(equipment@, 5, k),
            ),
        hashes matches Err(e) ==> e == ReplyError::Unparsable,
{
    let ghost s = equipment@;
    let sections = unwrap_response(equipment, 5);
    let mut hashes: Vec<String> = Vec::new();
    let mut k: usize = 0;
    while k < sections.len()
        invariant
            s == equipment@,
            sections.len() == section_starts(s, 5).len(),
            forall|j: int| 0 <= j < sections.len() ==> #[trigger] sections[j]@ == section_text(s, 5, j),
            k <= sections.len(),
            hashes.len() == k,
            forall|j: int| 0 <= j < k ==> json_parses(#[trigger] section_text(s, 5, j)),
            forall|j: int| 0 <= j < k ==> #[trigger] hashes[j]@ == json_rendering_at(section_text(s, 5, j), seq!["itemHash"@]),
        decreases sections.len() - k,
    {
        match render_member(sections[k].as_str(), "itemHash") {
            Err(_) => {
                assert(sections[k as int]@ == section_text(s, 5, k as int));
                assert(0 <= k < section_starts(s, 5).len() && !json_parses(section_text(s, 5, k as int)));
                return Err(ReplyError::Unparsable);
            },
            Ok(hash) => {
                hashes.push(hash);
            },
        }
        k = k + 1;
    }
    Ok(hashes)
}

/// The membership id, as a JSON rendering, in a player-search reply:
/// `Characters not found` for an empty reply, else `Response.membershipId`
/// of the reply once its brackets are stripped.
pub fn member_id_in_search_reply(reply: String) -> (id: Result<String, ReplyError>)
    requires
        utf8_len(reply@) <= usize::MAX,
    ensures
        reply@.len() == 0 ==> (id matches Ok(t) && t@ == "Characters not found"@),
        reply@.len() > 0 && fix_json_spec(reply@) is None ==> id == Err::<String, ReplyError>(
            ReplyError::CutInsideCharacter,
        ),
        reply@.len() > 0 && fix_json_spec(reply@) is Some ==> (id is Ok <==> json_parses(
            fix_json_spec(reply@)->Some_0,
        )),
        reply@.len() > 0 ==> (id matches Ok(t) ==> t@ == json_rendering_at(fix_json_spec(reply@)->Some_0, seq!["Response"@, "membershipId"@])),
        id matches Err(e) ==> e != ReplyError::MissingQuote,
{
    if reply.as_str().is_empty() {
        let mut none = String::new();
        none.append("Characters not found");
        return Ok(none);
    }
    match try_fix_json(reply) {
        None => Err(ReplyError::CutInsideCharacter),
        Some(fixed) => match render_member_in(fixed.as_str(), "Response", "membershipId") {
            Err(_) => Err(ReplyError::Unparsable),
            Ok(id) => Ok(id),
        },
    }
}

} // verus!
