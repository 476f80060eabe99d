//! The Bungie API: the request URLs, the replies as the library reads them,
//! and what is taken from them.

use vstd::prelude::*;

use crate::text::{
    decimal, decimal_spec, decimal_value, lemma_decimal_roundtrip, lemma_remove_all_char, replace_all, replace_spec, strip_quotes,
    strip_quotes_spec,
};

verus! {

/// The root of every Destiny 2 request.
pub open spec fn api_root() -> Seq<char> {
    "https://www.bungie.net/Platform/Destiny2/"@
}

/// The URL that searches for a player by name on a platform.
pub open spec fn member_search_url_spec(platform: char, player_name: Seq<char>) -> Seq<char> {
    api_root() + "SearchDestinyPlayer/"@ + seq![platform] + "/"@ + player_name + "/"@
}

/// The URL that asks for the items a player's characters have equipped
/// (component 205).
pub open spec fn gear_url_spec(platform: char, membership_id: Seq<char>) -> Seq<char> {
    api_root() + seq![platform] + "/Profile/"@ + membership_id + "/?components="@ + "205"@
}

/// The URL that asks for the definition of an item.
pub open spec fn item_url_spec(item_id: Seq<char>) -> Seq<char> {
    api_root() + "Manifest/DestinyInventoryItemDefinition/"@ + item_id
}

/// The search URL holds the whole player name, unchanged, between the fixed
/// prefix `.../SearchDestinyPlayer/<platform>/` (63 characters) and a final
/// `/`, whatever characters the name holds.
pub proof fn lemma_search_url_keeps_name(platform: char, player_name: Seq<char>)
    ensures
        member_search_url_spec(platform, player_name).len() == player_name.len() + 64,
        member_search_url_spec(platform, player_name).take(61) == member_search_url_spec(
            platform,
            Seq::empty(),
        ).take(61),
        member_search_url_spec(platform, player_name)[61] == platform,
        member_search_url_spec(platform, player_name)[62] == '/',
        member_search_url_spec(platform, player_name).subrange(63, 63 + player_name.len() as int) == player_name,
        member_search_url_spec(platform, player_name).last() == '/',
{
    reveal_strlit("https://www.bungie.net/Platform/Destiny2/");
    reveal_strlit("SearchDestinyPlayer/");
    reveal_strlit("/");
    let u = member_search_url_spec(platform, player_name);
    let e = member_search_url_spec(platform, Seq::empty());
    assert(u.take(61) == e.take(61));
    assert(u.subrange(63, 63 + player_name.len() as int) == player_name);
}

/// The gear URL holds the whole membership id, unchanged, between the fixed
/// prefix `.../Destiny2/<platform>/Profile/` (51 characters) and the fixed
/// suffix `/?components=205`.
pub proof fn lemma_gear_url_keeps_id(platform: char, membership_id: Seq<char>)
    ensures
        gear_url_spec(platform, membership_id).len() == membership_id.len() + 67,
        gear_url_spec(platform, membership_id).take(41) == api_root(),
        gear_url_spec(platform, membership_id)[41] == platform,
        gear_url_spec(platform, membership_id).subrange(51, 51 + membership_id.len() as int) == membership_id,
        gear_url_spec(platform, membership_id).skip(51 + membership_id.len() as int) == "/?components=205"@,
{
    reveal_strlit("https://www.bungie.net/Platform/Destiny2/");
    reveal_strlit("/Profile/");
    reveal_strlit("/?components=");
    reveal_strlit("205");
    reveal_strlit("/?components=205");
    let u = gear_url_spec(platform, membership_id);
    assert(u.take(41) == api_root());
    assert(u.subrange(51, 51 + membership_id.len() as int) == membership_id);
    assert(u.skip(51 + membership_id.len() as int) == "/?components=205"@);
}

/// The item URL is a fixed prefix of 81 characters followed by the whole
/// item id, unchanged.
pub proof fn lemma_item_url_keeps_id(item_id: Seq<char>)
    ensures
        item_url_spec(item_id).len() == item_id.len() + 81,
        item_url_spec(item_id).take(81) == item_url_spec(Seq::empty()),
        item_url_spec(item_id).skip(81) == item_id,
{
    reveal_strlit("https://www.bungie.net/Platform/Destiny2/");
    reveal_strlit("Manifest/DestinyInventoryItemDefinition/");
    let u = item_url_spec(item_id);
    assert(u.take(81) == item_url_spec(Seq::empty()));
    assert(u.skip(81) == item_id);
}

/// The URL that searches for `player_name` on `platform` (`1` Xbox, `2`
/// PlayStation, `4` PC).
pub fn member_search_url(platform: char, player_name: &str) -> (url: String)
    ensures
        url@ == member_search_url_spec(platform, player_name@),
        url@.len() == player_name@.len() + 64,
        url@[61] == platform,
        url@.subrange(63, 63 + player_name@.len() as int) == player_name@,
        url@.last() == '/',
{
    proof {
        lemma_search_url_keeps_name(platform, player_name@);
    }
    let mut url = String::new();
    url.append("https://www.bungie.net/Platform/Destiny2/");
    url.append("SearchDestinyPlayer/");
    url.push(platform);
    url.append("/");
    url.append(player_name);
    url.append("/");
    url
}

/// The URL that asks for the equipped items of the player `membership_id`.
pub fn gear_url(platform: char, membership_id: &str) -> (url: String)
    ensures
        url@ == gear_url_spec(platform, membership_id@),
        url@.len() == membership_id@.len() + 67,
        url@[41] == platform,
        url@.subrange(51, 51 + membership_id@.len() as int) == membership_id@,
{
    proof {
        lemma_gear_url_keeps_id(platform, membership_id@);
    }
    let mut url = String::new();
    url.append("https://www.bungie.net/Platform/Destiny2/");
    url.push(platform);
    url.append("/Profile/");
    url.append(membership_id);
    url.append("/?components=");
    url.append("205");
    url
}

/// The URL that asks for the definition of the item written `item_id`.
pub fn item_url_for(item_id: &str) -> (url: String)
    ensures
        url@ == item_url_spec(item_id@),
        url@.len() == item_id@.len() + 81,
        url@.skip(81) == item_id@,
{
    proof {
        lemma_item_url_keeps_id(item_id@);
    }
    let mut url = String::new();
    url.append("https://www.bungie.net/Platform/Destiny2/");
    url.append("Manifest/DestinyInventoryItemDefinition/");
    url.append(item_id);
    url
}

/// The URL that asks for the definition of the item with hash `item_id`.
pub fn item_url(item_id: u64) -> (url: String)
    ensures
        url@ == item_url_spec(decimal_spec(item_id as nat)),
        url@.len() >= 82,
        decimal_value(url@.skip(81)) == item_id,
        forall|i: int| 81 <= i < url@.len() ==> '0' <= #[trigger] url@[i] <= '9',
{
    let id = decimal(item_id);
    let url = item_url_for(id.as_str());
    proof {
        lemma_item_url_keeps_id(decimal_spec(item_id as nat));
        lemma_decimal_roundtrip(item_id as nat);
        assert forall|i: int| 81 <= i < url@.len() implies '0' <= #[trigger] url@[i] <= '9' by {
            assert(url@[i] == url@.skip(81)[i - 81]);
        }
    }
    url
}

/// A player found by a search.
pub struct User {
    pub icon_path: Option<String>,
    pub membership_type: usize,
    pub membership_id: String,
    pub display_name: String,
}

/// The reply to a player search.
pub struct UserResponse {
    pub response: Vec<User>,
    pub error_code: i64,
    pub error_status: String,
    /// The number of entries of the reply's (always empty) message data.
    pub message_data: usize,
    pub throttle_seconds: u64,
    pub message: String,
}

/// An item a character has equipped.
pub struct Item {
    pub transfer_status: u64,
    pub dismantle_permission: u64,
    pub bucket_hash: u64,
    pub quantity: u64,
    pub item_hash: u64,
    pub state: u64,
    pub bind_status: u64,
    pub lockable: bool,
    pub is_wrapper: bool,
    pub item_instance_id: String,
    pub location: i64,
}

/// The items one character has equipped.
pub struct EquipmentData {
    pub items: Vec<Item>,
}

/// The equipment of every character of a player, each entry keyed by the
/// character's id.
pub struct Equipment {
    pub privacy: u64,
    pub data: Vec<(String, EquipmentData)>,
}

impl Equipment {
    /// No character id occurs twice, as in the map that the reply holds.
    pub open spec fn ids_distinct(self) -> bool {
        forall|i: int, j: int|
            0 <= i < j < self.data@.len() ==> (#[trigger] self.data@[i]).0@ != (#[trigger] self.data@[j]).0@
    }

    /// Whether no character id occurs twice.
    pub fn has_distinct_ids(&self) -> (distinct: bool)
        ensures
            distinct == self.ids_distinct(),
            distinct ==> forall|i: int, j: int|
                0 <= i < j < self.data@.len() ==> (#[trigger] self.data@[i]).0@ != (#[trigger] self.data@[j]).0@,
            !distinct ==> exists|i: int, j: int|
                0 <= i < j < self.data@.len() && (#[trigger] self.data@[i]).0@ == (#[trigger] self.data@[j]).0@,
    {
        let mut j: usize = 0;
        while j < self.data.len()
            invariant
                j <= self.data@.len(),
                forall|a: int, b: int|
                    0 <= a < b < j ==> (#[trigger] self.data@[a]).0@ != (#[trigger] self.data@[b]).0@,
            decreases self.data.len() - j,
        {
            let mut i: usize = 0;
            while i < j
                invariant
                    i <= j < self.data@.len(),
                    forall|a: int, b: int|
                        0 <= a < b < j ==> (#[trigger] self.data@[a]).0@ != (#[trigger] self.data@[b]).0@,
                    forall|a: int| 0 <= a < i ==> (#[trigger] self.data@[a]).0@ != self.data@[j as int].0@,
                decreases j - i,
            {
                if self.data[i].0 == self.data[j].0 {
                    assert(self.data@[i as int].0@ == self.data@[j as int].0@);
                    return false;
                }
                i = i + 1;
            }
            j = j + 1;
        }
        true
    }
}

/// The equipment component of a profile.
pub struct CharacterEquipment {
    pub character_equipment: Equipment,
}

/// The reply to a request for a profile's equipment.
pub struct APIResponse {
    pub error_code: i64,
    pub response: CharacterEquipment,
    pub error_status: String,
    /// The number of entries of the reply's (always empty) message data.
    pub message_data: usize,
    pub throttle_seconds: u64,
    pub message: String,
}

/// The hashes of the items in `items`, in order.
pub open spec fn hashes_of(items: Seq<Item>) -> Seq<u64> {
    items.map_values(|item: Item| item.item_hash)
}

/// The hashes of every item of every character of `data`, character after
/// character, each character's items in order.
pub open spec fn equipment_hashes(data: Seq<(String, EquipmentData)>) -> Seq<u64>
    decreases data.len(),
{
    if data.len() == 0 {
        Seq::empty()
    } else {
        equipment_hashes(data.drop_last()) + hashes_of(data.last().1.items@)
    }
}

/// The number of items of all the characters of `data`.
pub open spec fn item_count(data: Seq<(String, EquipmentData)>) -> nat
    decreases data.len(),
{
    if data.len() == 0 {
        0
    } else {
        item_count(data.drop_last()) + data.last().1.items@.len()
    }
}

/// Every item of every character is listed, whatever its other fields: as
/// many hashes as items, and the `i`-th item of character `c` stands right
/// after the items of the characters before `c`.
pub proof fn lemma_equipment_lists_every_item(data: Seq<(String, EquipmentData)>)
    ensures
        equipment_hashes(data).len() == item_count(data),
        forall|c: int, i: int|
            #![trigger data[c].1.items@[i]]
            0 <= c < data.len() && 0 <= i < data[c].1.items@.len() ==> equipment_hashes(data)[item_count(
                data.take(c),
            ) + i] == data[c].1.items@[i].item_hash,
    decreases data.len(),
{
    if data.len() > 0 {
        let t = data.drop_last();
        lemma_equipment_lists_every_item(t);
        lemma_item_count_prefix(data);
        assert forall|c: int, i: int|
            #![trigger data[c].1.items@[i]]
            0 <= c < data.len() && 0 <= i < data[c].1.items@.len() implies equipment_hashes(data)[item_count(
                data.take(c),
            ) + i] == data[c].1.items@[i].item_hash by {
            if c < t.len() {
                assert(data.take(c) == t.take(c));
                assert(t[c] == data[c]);
                assert(t[c].1.items@[i] == data[c].1.items@[i]);
                lemma_item_count_prefix(t);
            } else {
                assert(data.take(c) == t);
            }
        }
    }
}

/// The items of the first `c` characters are at most all of the items.
proof fn lemma_item_count_prefix(data: Seq<(String, EquipmentData)>)
    ensures
        forall|c: int| 0 <= c < data.len() ==> #[trigger] item_count(data.take(c)) + data[c].1.items@.len() <= item_count(data),
    decreases data.len(),
{
    if data.len() > 0 {
        let t = data.drop_last();
        lemma_item_count_prefix(t);
        assert forall|c: int| 0 <= c < data.len() implies #[trigger] item_count(data.take(c)) + data[c].1.items@.len() <= item_count(data) by {
            if c < t.len() {
                assert(data.take(c) == t.take(c));
            } else {
                assert(data.take(c) == t);
            }
        }
    }
}

/// The hashes of all the items that the player's characters have equipped,
/// in the order in which the reply lists the characters and their items.
pub fn all_equipment(response: &APIResponse) -> (hashes: Vec<u64>)
    ensures
        hashes@ == equipment_hashes(response.response.character_equipment.data@),
        hashes@.len() == item_count(response.response.character_equipment.data@),
        forall|c: int, i: int|
            #![trigger response.response.character_equipment.data@[c].1.items@[i]]
            0 <= c < response.response.character_equipment.data@.len() && 0 <= i
                < response.response.character_equipment.data@[c].1.items@.len() ==> hashes@[item_count(
                response.response.character_equipment.data@.take(c),
            ) + i] == response.response.character_equipment.data@[c].1.items@[i].item_hash,
{
    proof {
        lemma_equipment_lists_every_item(response.response.character_equipment.data@);
    }
    let data = &response.response.character_equipment.data;
    let mut hashes: Vec<u64> = Vec::new();
    let mut c: usize = 0;
    while c < data.len()
        invariant
            c <= data.len(),
            hashes@ == equipment_hashes(data@.take(c as int)),
        decreases data.len() - c,
    {
        let items = &data[c].1.items;
        let ghost before = hashes@;
        let mut i: usize = 0;
        while i < items.len()
            invariant
                i <= items.len(),
                hashes@ == before + hashes_of(items@.take(i as int)),
            decreases items.len() - i,
        {
            hashes.push(items[i].item_hash);
            i = i + 1;
            assert(hashes_of(items@.take(i as int)) == hashes_of(items@.take(i - 1)).push(items@[i - 1].item_hash));
        }
        assert(items@.take(i as int) == items@);
        assert(data@.take(c + 1).drop_last() == data@.take(c as int));
        c = c + 1;
    }
    assert(data@.take(c as int) == data@);
    hashes
}

/// The membership id that a player search gives back: the first player
/// found, or the text `Player not found` when the reply was empty (`None`).
pub open spec fn member_id_spec(reply: Option<UserResponse>) -> Seq<char> {
    match reply {
        None => "Player not found"@,
        Some(r) => r.response@[0].membership_id@,
    }
}

/// A search that found players gives the id of the first of them, however
/// many were found; only the empty reply gives `Player not found`.
pub proof fn lemma_member_id_is_first_player(reply: Option<UserResponse>)
    ensures
        reply matches Some(r) ==> member_id_spec(reply) == r.response@[0].membership_id@,
        reply is None ==> member_id_spec(reply) == "Player not found"@,
{
}

/// The membership id of the first player that a search found; `None` stands
/// for an empty reply.
pub fn member_id_from_reply(reply: Option<UserResponse>) -> (id: String)
    requires
        reply matches Some(r) ==> r.response@.len() > 0,
    ensures
        id@ == member_id_spec(reply),
        reply matches Some(r) ==> id@ == r.response@[0].membership_id@,
        reply is None ==> id@ == "Player not found"@,
{
    proof {
        lemma_member_id_is_first_player(reply);
    }
    match reply {
        None => {
            let mut id = String::new();
            id.append("Player not found");
            id
        },
        Some(r) => r.response[0].membership_id.clone(),
    }
}

/// The description shown for an item: a stock sentence when the item has
/// none, else its text with each written-out `\n` turned into a line break
/// after a space and every remaining backslash dropped.
pub open spec fn description_spec(d: Seq<char>) -> Seq<char> {
    if d.len() == 0 {
        "An item so awesome it cannot be described"@
    } else {
        replace_spec(replace_spec(d, "\\n"@, " \n"@), "\\"@, ""@)
    }
}

/// The entry shown for an item, from the JSON renderings of its name and of
/// its description: `name: description` and a line break.
pub open spec fn item_line_spec(name_json: Seq<char>, description_json: Seq<char>) -> Seq<char> {
    strip_quotes_spec(name_json) + ": "@ + description_spec(strip_quotes_spec(description_json)) + "\n"@
}

/// The description shown for an item whose description text is `text`.
pub fn describe(text: String) -> (description: String)
    ensures
        description@ == description_spec(text@),
        !description@.contains('\\'),
        text@.len() == 0 ==> description@ == "An item so awesome it cannot be described"@,
        text@.len() > 0 ==> count_char(description@, '\n') == count_char(text@, '\n') + written_line_breaks(text@),
{
    proof {
        lemma_description_has_no_backslash(text@);
        if text@.len() > 0 {
            lemma_description_breaks_every_written_line(text@);
        }
    }
    if text.as_str().is_empty() {
        let mut stock = String::new();
        stock.append("An item so awesome it cannot be described");
        stock
    } else {
        proof {
            reveal_strlit("\\n");
            reveal_strlit("\\");
        }
        let lines = replace_all(text.as_str(), "\\n", " \n");
        replace_all(lines.as_str(), "\\", "")
    }
}

/// The entry shown for an item, from the JSON renderings of its name and of
/// its description, which hold their double quotes.
pub fn item_line(name_json: String, description_json: String) -> (line: String)
    requires
        name_json@.contains('"'),
        description_json@.contains('"'),
    ensures
        line@ == item_line_spec(name_json@, description_json@),
        line@ == strip_quotes_spec(name_json@) + ": "@ + description_spec(strip_quotes_spec(description_json@)) + "\n"@,
{
    let name = strip_quotes(name_json);
    let description = describe(strip_quotes(description_json));
    let mut line = name;
    line.append(": ");
    line.append(description.as_str());
    line.append("\n");
    line
}

/// The number of characters `c` in `s`.
pub open spec fn count_char(s: Seq<char>, c: char) -> nat
    decreases s.len(),
{
    if s.len() == 0 {
        0
    } else {
        (if s[0] == c { 1nat } else { 0nat }) + count_char(s.drop_first(), c)
    }
}

/// The number of places where `s` holds a written-out line break: a
/// backslash followed by `n`.
pub open spec fn written_line_breaks(s: Seq<char>) -> nat
    decreases s.len(),
{
    if s.len() < 2 {
        0
    } else {
        (if s[0] == '\\' && s[1] == 'n' { 1nat } else { 0nat }) + written_line_breaks(s.drop_first())
    }
}

/// Counting over two texts one after the other adds up.
proof fn lemma_count_char_concat(a: Seq<char>, b: Seq<char>, c: char)
    ensures
        count_char(a + b, c) == count_char(a, c) + count_char(b, c),
    decreases a.len(),
{
    if a.len() == 0 {
        assert(a + b == b);
    } else {
        lemma_count_char_concat(a.drop_first(), b, c);
        assert((a + b).drop_first() == a.drop_first() + b);
    }
}

/// A single character counts once if it is the one counted.
proof fn lemma_count_char_single(x: char, c: char)
    ensures
        count_char(seq![x], c) == if x == c { 1nat } else { 0nat },
{
    let one = seq![x];
    assert(one.drop_first() == Seq::<char>::empty());
    assert(count_char(Seq::<char>::empty(), c) == 0);
    assert(one[0] == x);
    assert(count_char(one, c) == (if one[0] == c { 1nat } else { 0nat }) + count_char(one.drop_first(), c));
}

/// Turning each written-out line break into a space and a line break adds
/// one line break per written-out one.
proof fn lemma_line_breaks_replaced(d: Seq<char>)
    ensures
        count_char(replace_spec(d, seq!['\\', 'n'], seq![' ', '\n']), '\n') == count_char(d, '\n')
            + written_line_breaks(d),
    decreases d.len(),
{
    let pat = seq!['\\', 'n'];
    let rep = seq![' ', '\n'];
    if d.len() < 2 {
    } else if d.take(2) == pat {
        let rest = d.skip(2);
        lemma_line_breaks_replaced(rest);
        lemma_count_char_concat(rep, replace_spec(rest, pat, rep), '\n');
        assert(d[0] == '\\' && d[1] == 'n') by {
            assert(d.take(2)[0] == d[0] && d.take(2)[1] == d[1]);
        }
        assert(d.drop_first().drop_first() == rest);
        assert(rep.drop_first() == seq!['\n']);
        lemma_count_char_single('\n', '\n');
        assert(count_char(rep, '\n') == 1);
        assert(count_char(d.drop_first(), '\n') == count_char(rest, '\n'));
        assert(count_char(d, '\n') == count_char(rest, '\n'));
        if d.drop_first().len() >= 2 {
            assert(d.drop_first()[0] == 'n');
        }
        assert(written_line_breaks(d.drop_first()) == written_line_breaks(rest));
    } else {
        let rest = d.drop_first();
        lemma_line_breaks_replaced(rest);
        lemma_count_char_concat(seq![d[0]], replace_spec(rest, pat, rep), '\n');
        lemma_count_char_single(d[0], '\n');
        assert(!(d[0] == '\\' && d[1] == 'n')) by {
            if d[0] == '\\' && d[1] == 'n' {
                assert(d.take(2) == pat);
            }
        }
    }
}

/// Removing backslashes keeps every line break.
proof fn lemma_line_breaks_kept(t: Seq<char>)
    ensures
        count_char(replace_spec(t, seq!['\\'], Seq::<char>::empty()), '\n') == count_char(t, '\n'),
    decreases t.len(),
{
    let pat = seq!['\\'];
    let none = Seq::<char>::empty();
    if t.len() >= 1 {
        if t.take(1) == pat {
            lemma_line_breaks_kept(t.skip(1));
            assert(t.take(1)[0] == t[0]);
            assert(t[0] == '\\');
            assert(t.skip(1) == t.drop_first());
            assert(count_char(t, '\n') == count_char(t.drop_first(), '\n'));
            assert(none + replace_spec(t.skip(1), pat, none) == replace_spec(t.skip(1), pat, none));
        } else {
            lemma_line_breaks_kept(t.drop_first());
            lemma_count_char_concat(seq![t[0]], replace_spec(t.drop_first(), pat, none), '\n');
            lemma_count_char_single(t[0], '\n');
        }
    }
}

/// Every written-out line break of a description becomes a real one: the
/// description shown holds as many line breaks as the text had, plus one for
/// each backslash-`n` in it.
pub proof fn lemma_description_breaks_every_written_line(d: Seq<char>)
    requires
        d.len() > 0,
    ensures
        count_char(description_spec(d), '\n') == count_char(d, '\n') + written_line_breaks(d),
{
    reveal_strlit("\\n");
    reveal_strlit(" \n");
    reveal_strlit("\\");
    reveal_strlit("");
    assert("\\n"@ == seq!['\\', 'n']);
    assert(" \n"@ == seq![' ', '\n']);
    assert("\\"@ == seq!['\\']);
    assert(""@ == Seq::<char>::empty());
    lemma_line_breaks_replaced(d);
    lemma_line_breaks_kept(replace_spec(d, seq!['\\', 'n'], seq![' ', '\n']));
}

/// No backslash is left in the description shown for an item.
pub proof fn lemma_description_has_no_backslash(d: Seq<char>)
    ensures
        !description_spec(d).contains('\\'),
{
    if d.len() == 0 {
        reveal_strlit("An item so awesome it cannot be described");
        let stock = "An item so awesome it cannot be described"@;
        assert forall|i: int| 0 <= i < stock.len() implies stock[i] != '\\' by {}
    } else {
        reveal_strlit("\\");
        reveal_strlit("");
        assert("\\"@ == seq!['\\']);
        assert(""@ == Seq::<char>::empty());
        lemma_remove_all_char(replace_spec(d, "\\n"@, " \n"@), '\\');
    }
}

} // verus!
