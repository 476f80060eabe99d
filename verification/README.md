# inventory

Shows which gear a Destiny 2 player has equipped, through the Bungie API.

- `src/` is the library, verified with Verus: the request URLs, the text
  handling of the replies (`strip_quotes`, `get_json`, `fix_json`,
  `unwrap_response`, trimming, replacing, decimal rendering), and what is
  taken from a reply (member id, item hashes, the line shown for an item).
  The values read out of JSON replies go through `serde_json` behind trusted
  wrappers in `src/json.rs`; their renderings are named by
  `json_rendering_at`, a function of the reply text and the keys.
- `app/` is the program: it reads `api-key.txt`, sends the requests with
  `reqwest`, parses the replies into serde copies of the library's types and
  prints the result.
- `tests/` runs the library on concrete replies.

Usage: `inventory [platform] [player name]`, platform `1` Xbox, `2`
PlayStation, `4` PC.
