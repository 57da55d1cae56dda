//! Moving Codex's `[tui] status_line` setting to the codex-hud items: a
//! fresh config gets them, an older codex-hud list is upgraded, and a list
//! the user made (one without codex-hud items, or with them in another
//! arrangement) is left alone.
use vstd::prelude::*;

use crate::status::opt_view;
use crate::text::str_eq;

verus! {

/// The status line items codex-hud installs, in order.
pub open spec fn hud_items() -> Seq<Seq<char>> {
    seq![
        "model-with-reasoning"@,
        "git-branch"@,
        "permission-mode"@,
        "auth-chip"@,
        "tool-calls"@,
        "ctx-bar"@,
        "five-hour-bar"@,
        "weekly-bar"@,
    ]
}

/// The status line that earlier codex-hud versions installed.
pub open spec fn legacy_hud_items() -> Seq<Seq<char>> {
    hud_items() + seq![
        "context-remaining"@,
        "context-used"@,
        "five-hour-limit"@,
        "weekly-limit"@,
        "current-dir"@,
        "project-root"@,
        "codex-version"@,
        "context-window-size"@,
        "used-tokens"@,
        "total-input-tokens"@,
        "total-output-tokens"@,
        "session-id"@,
        "model-name"@,
    ]
}

/// The items that only codex-hud puts on a status line.
pub open spec fn hud_signals() -> Seq<Seq<char>> {
    seq![
        "permission-mode"@,
        "auth-chip"@,
        "tool-calls"@,
        "ctx-bar"@,
        "five-hour-bar"@,
        "weekly-bar"@,
    ]
}

/// The views of string slices.
pub open spec fn str_views(s: Seq<&str>) -> Seq<Seq<char>> {
    s.map_values(|x: &str| x@)
}

/// The views of the items of a TOML array, `None` for an item that is not
/// a string.
pub open spec fn item_views(s: Seq<Option<String>>) -> Seq<Option<Seq<char>>> {
    s.map_values(|x: Option<String>| opt_view(x))
}

/// What the migration reads of a `config.toml` text.
#[derive(Debug, Clone)]
pub enum ConfigShape {
    /// The text is not TOML.
    Unreadable,
    /// The document is not a table.
    RootNotTable,
    /// `tui` is there but is not a table.
    TuiNotTable,
    /// `tui` is a table or missing; the items of `tui.status_line` when it
    /// is an array (each `None` unless it is a string), else `None`.
    StatusLine(Option<Vec<Option<String>>>),
}

/// Some item of the array is a codex-hud item.
pub open spec fn has_signal(items: Seq<Option<Seq<char>>>) -> bool {
    exists|i: int| 0 <= i < items.len() && (#[trigger] items[i] matches Some(s) && hud_signals().contains(s))
}

/// The array is exactly the expected items, in order.
pub open spec fn matches_exactly(items: Seq<Option<Seq<char>>>, expected: Seq<Seq<char>>) -> bool {
    items.len() == expected.len() && forall|i: int|
        0 <= i < items.len() ==> #[trigger] items[i] == Some(expected[i])
}

/// Whether the migration writes the codex-hud items: not for a text it
/// cannot read or a `tui` that is not a table; for a status line that has
/// codex-hud items only when it is exactly the earlier codex-hud list; in
/// every other case yes.
pub open spec fn writes_hud_items(shape: ConfigShape) -> bool {
    match shape {
        ConfigShape::StatusLine(None) => true,
        ConfigShape::StatusLine(Some(items)) => if has_signal(item_views(items@)) {
            matches_exactly(item_views(items@), legacy_hud_items())
        } else {
            true
        },
        _ => false,
    }
}

/// A status line that already holds exactly the codex-hud items is left
/// alone: migrating it again changes nothing.
pub proof fn lemma_hud_items_left_alone(items: Vec<Option<String>>)
    requires
        item_views(items@) == hud_items().map_values(|x: Seq<char>| Some(x)),
    ensures
        !writes_hud_items(ConfigShape::StatusLine(Some(items))),
{
    let iv = item_views(items@);
    assert(iv[2] == Some(hud_items()[2]));
    assert(hud_signals()[0] == hud_items()[2]);
    assert(hud_signals().contains(hud_items()[2]));
    assert(has_signal(iv));
    assert(iv.len() == 8);
    assert(legacy_hud_items().len() == 21);
}

/// A status line that holds any of the items only codex-hud uses
/// (`permission-mode`, `auth-chip`, `tool-calls`, `ctx-bar`,
/// `five-hour-bar`, `weekly-bar`), anywhere in it, is the user's own HUD
/// arrangement: it is rewritten only when it is exactly the earlier
/// codex-hud list, and left alone otherwise.
pub proof fn lemma_hud_item_lists_left_alone(items: Vec<Option<String>>, i: int)
    requires
        0 <= i < items@.len(),
        item_views(items@)[i] matches Some(x) && (x == "permission-mode"@ || x == "auth-chip"@
            || x == "tool-calls"@ || x == "ctx-bar"@ || x == "five-hour-bar"@ || x
            == "weekly-bar"@),
    ensures
        writes_hud_items(ConfigShape::StatusLine(Some(items))) == matches_exactly(
            item_views(items@),
            legacy_hud_items(),
        ),
{
    let iv = item_views(items@);
    let x = iv[i]->0;
    let sig = hud_signals();
    if x == "permission-mode"@ {
        assert(sig[0] == x);
    } else if x == "auth-chip"@ {
        assert(sig[1] == x);
    } else if x == "tool-calls"@ {
        assert(sig[2] == x);
    } else if x == "ctx-bar"@ {
        assert(sig[3] == x);
    } else if x == "five-hour-bar"@ {
        assert(sig[4] == x);
    } else {
        assert(sig[5] == x);
    }
    assert(sig.contains(x));
    assert(has_signal(iv));
}

/// A status line without any of those items gets the codex-hud items.
pub proof fn lemma_plain_lists_get_hud_items(items: Vec<Option<String>>)
    requires
        forall|i: int|
            0 <= i < items@.len() ==> !(#[trigger] item_views(items@)[i] matches Some(x) && (x
                == "permission-mode"@ || x == "auth-chip"@ || x == "tool-calls"@ || x == "ctx-bar"@
                || x == "five-hour-bar"@ || x == "weekly-bar"@)),
    ensures
        writes_hud_items(ConfigShape::StatusLine(Some(items))),
{
    let iv = item_views(items@);
    let sig = hud_signals();
    assert(sig =~= seq![
        "permission-mode"@,
        "auth-chip"@,
        "tool-calls"@,
        "ctx-bar"@,
        "five-hour-bar"@,
        "weekly-bar"@,
    ]);
    if has_signal(iv) {
        let k = choose|k: int| 0 <= k < iv.len() && (#[trigger] iv[k] matches Some(s) && sig.contains(s));
        let x = iv[k]->0;
        let j = choose|j: int| 0 <= j < sig.len() && sig[j] == x;
        assert(iv[k] matches Some(y) && y == x);
    }
}

/// The `Result` of two strings by their views.
pub open spec fn result_view(r: Result<String, String>) -> Result<Seq<char>, Seq<char>> {
    match r {
        Ok(t) => Ok(t@),
        Err(e) => Err(e@),
    }
}

// ---------------------------------------------------------------------------
// TOML, through the `toml` crate
// ---------------------------------------------------------------------------

/// What `toml` reads of a config text (see `ConfigShape`).
pub uninterp spec fn toml_config_shape(raw: Seq<char>) -> ConfigShape;

/// The text that `toml::to_string_pretty` writes for the config text with
/// `tui.status_line` set to the items (`tui` added when missing), or the
/// error text.
pub uninterp spec fn toml_with_status_line(raw: Seq<char>, items: Seq<Seq<char>>) -> Result<
    Seq<char>,
    Seq<char>,
>;

/// The text that `toml::to_string_pretty` writes for a document holding
/// only `[tui] status_line` set to the items, or the error text.
pub uninterp spec fn toml_status_line_document(items: Seq<Seq<char>>) -> Result<
    Seq<char>,
    Seq<char>,
>;

/// Parses the text with `str::parse::<toml::Value>` (a TOML document) and
/// reads the root table, its `tui` entry and that table's `status_line`
/// array with `as_table`, `get`, `as_array` and `as_str`. The result is
/// named, not described.
#[verifier::external_body]
fn read_config_shape(raw: &str) -> (r: ConfigShape)
    ensures
        r == toml_config_shape(raw@),
{
    let root: toml::Value = match raw.parse() { Ok(v) => v, Err(_) => return ConfigShape::Unreadable };
    let table = match root.as_table() { Some(t) => t, None => return ConfigShape::RootNotTable };
    let tui = match table.get("tui") { Some(t) => t, None => return ConfigShape::StatusLine(None) };
    let tui = match tui.as_table() { Some(t) => t, None => return ConfigShape::TuiNotTable };
    ConfigShape::StatusLine(tui.get("status_line").and_then(|v| v.as_array()).map(
        |a| a.iter().map(|v| v.as_str().map(|s| s.to_string())).collect(),
    ))
}

/// Parses the text as a TOML document, sets `tui.status_line` (adding an
/// empty `tui` table when there is none) to the items as an array of
/// strings with `Map::entry` and `Map::insert`, and writes the document
/// with `toml::to_string_pretty`. The result is named, not described.
#[verifier::external_body]
fn set_status_line(raw: &str, items: &[&str]) -> (r: Result<String, String>)
    ensures
        result_view(r) == toml_with_status_line(raw@, str_views(items@)),
{
    let mut root: toml::Value = raw.parse().map_err(|e: toml::de::Error| e.to_string())?;
    let table = root.as_table_mut().ok_or_else(|| "not a table".to_string())?;
    let tui = table.entry("tui").or_insert_with(|| toml::Value::Table(toml::value::Table::new()));
    let tui = tui.as_table_mut().ok_or_else(|| "tui is not a table".to_string())?;
    let array = items.iter().map(|s| toml::Value::String(s.to_string())).collect();
    tui.insert("status_line".to_string(), toml::Value::Array(array));
    toml::to_string_pretty(&root).map_err(|e| e.to_string())
}

/// Writes, with `toml::to_string_pretty`, a document whose `tui` table
/// holds `status_line` set to the items as an array of strings. The result
/// is named, not described.
#[verifier::external_body]
fn status_line_document(items: &[&str]) -> (r: Result<String, String>)
    ensures
        result_view(r) == toml_status_line_document(str_views(items@)),
{
    let array = items.iter().map(|s| toml::Value::String(s.to_string())).collect();
    let mut tui = toml::value::Table::new();
    tui.insert("status_line".to_string(), toml::Value::Array(array));
    let mut root = toml::value::Table::new();
    root.insert("tui".to_string(), toml::Value::Table(tui));
    toml::to_string_pretty(&toml::Value::Table(root)).map_err(|e| e.to_string())
}

// ---------------------------------------------------------------------------
// The decision
// ---------------------------------------------------------------------------

/// The codex-hud status line items.
pub fn hud_items_list() -> (r: Vec<&'static str>)
    ensures
        str_views(r@) == hud_items(),
{
    let mut r: Vec<&'static str> = Vec::new();
    r.push("model-with-reasoning");
    r.push("git-branch");
    r.push("permission-mode");
    r.push("auth-chip");
    r.push("tool-calls");
    r.push("ctx-bar");
    r.push("five-hour-bar");
    r.push("weekly-bar");
    assert(str_views(r@) =~= hud_items());
    r
}

/// The status line of earlier codex-hud versions.
pub fn legacy_hud_items_list() -> (r: Vec<&'static str>)
    ensures
        str_views(r@) == legacy_hud_items(),
{
    let mut r = hud_items_list();
    r.push("context-remaining");
    r.push("context-used");
    r.push("five-hour-limit");
    r.push("weekly-limit");
    r.push("current-dir");
    r.push("project-root");
    r.push("codex-version");
    r.push("context-window-size");
    r.push("used-tokens");
    r.push("total-input-tokens");
    r.push("total-output-tokens");
    r.push("session-id");
    r.push("model-name");
    assert(str_views(r@) =~= legacy_hud_items());
    r
}

/// Whether `item` is one of the codex-hud signal items.
fn is_signal(item: &str) -> (r: bool)
    ensures
        r == hud_signals().contains(item@),
{
    let signals: [&str; 6] = [
        "permission-mode",
        "auth-chip",
        "tool-calls",
        "ctx-bar",
        "five-hour-bar",
        "weekly-bar",
    ];
    let ghost sv = signals@.map_values(|x: &str| x@);
    assert(sv =~= hud_signals());
    let mut i: usize = 0;
    while i < 6
        invariant
            i <= 6,
            sv == hud_signals(),
            sv == signals@.map_values(|x: &str| x@),
            forall|j: int| 0 <= j < i ==> sv[j] != item@,
        decreases 6 - i,
    {
        if str_eq(signals[i], item) {
            assert(sv[i as int] == item@);
            return true;
        }
        i = i + 1;
    }
    proof {
        if hud_signals().contains(item@) {
            let k = choose|k: int| 0 <= k < hud_signals().len() && hud_signals()[k] == item@;
            assert(sv[k] == item@);
        }
    }
    false
}

/// Whether some item of the status line is a codex-hud item.
pub fn has_hud_signal(array: &[Option<String>]) -> (r: bool)
    ensures
        r == has_signal(item_views(array@)),
{
    let mut i: usize = 0;
    while i < array.len()
        invariant
            i <= array@.len(),
            forall|j: int|
                0 <= j < i ==> !(#[trigger] item_views(array@)[j] matches Some(s)
                    && hud_signals().contains(s)),
        decreases array.len() - i,
    {
        proof {
            assert(item_views(array@)[i as int] == opt_view(array@[i as int]));
        }
        match &array[i] {
            Some(s) => {
                if is_signal(s.as_str()) {
                    return true;
                }
            },
            None => {},
        }
        i = i + 1;
    }
    false
}

/// Whether the status line is exactly the expected items, in order.
pub fn array_matches_exact_items(array: &[Option<String>], expected: &[&str]) -> (r: bool)
    ensures
        r == matches_exactly(item_views(array@), str_views(expected@)),
{
    if array.len() != expected.len() {
        return false;
    }
    let mut i: usize = 0;
    while i < array.len()
        invariant
            array@.len() == expected@.len(),
            i <= array@.len(),
            forall|j: int|
                0 <= j < i ==> #[trigger] item_views(array@)[j] == Some(str_views(expected@)[j]),
        decreases array.len() - i,
    {
        proof {
            assert(item_views(array@)[i as int] == opt_view(array@[i as int]));
            assert(str_views(expected@)[i as int] == expected@[i as int]@);
        }
        let same = match &array[i] {
            Some(s) => str_eq(s.as_str(), expected[i]),
            None => false,
        };
        if !same {
            return false;
        }
        i = i + 1;
    }
    true
}

/// Whether the migration writes the codex-hud items for what was read of
/// the config.
pub fn decide_statusline(shape: &ConfigShape) -> (r: bool)
    ensures
        r == writes_hud_items(*shape),
{
    match shape {
        ConfigShape::StatusLine(None) => true,
        ConfigShape::StatusLine(Some(items)) => {
            if has_hud_signal(items.as_slice()) {
                let legacy = legacy_hud_items_list();
                array_matches_exact_items(items.as_slice(), legacy.as_slice())
            } else {
                true
            }
        },
        _ => false,
    }
}

/// The new text of Codex's `config.toml`, given its current text (`None`
/// when the file does not exist): `Ok(Some(text))` to write, `Ok(None)` to
/// leave the file as it is, `Err` when TOML cannot be written. A missing
/// file gets a document with only the codex-hud status line; an existing
/// one is rewritten with it exactly when `writes_hud_items` says so.
pub fn statusline_config_update(existing: Option<&str>) -> (r: Result<Option<String>, String>)
    ensures
        existing is None ==> match toml_status_line_document(hud_items()) {
            Ok(t) => r matches Ok(Some(x)) && x@ == t,
            Err(e) => r matches Err(x) && x@ == e,
        },
        existing matches Some(raw) ==> if writes_hud_items(toml_config_shape(raw@)) {
            match toml_with_status_line(raw@, hud_items()) {
                Ok(t) => r matches Ok(Some(x)) && x@ == t,
                Err(e) => r matches Err(x) && x@ == e,
            }
        } else {
            r matches Ok(None)
        },
{
    let items = hud_items_list();
    match existing {
        None => match status_line_document(items.as_slice()) {
            Ok(t) => Ok(Some(t)),
            Err(e) => Err(e),
        },
        Some(raw) => {
            let shape = read_config_shape(raw);
            if !decide_statusline(&shape) {
                return Ok(None);
            }
            match set_status_line(raw, items.as_slice()) {
                Ok(t) => Ok(Some(t)),
                Err(e) => Err(e),
            }
        },
    }
}

} // verus!
