//! What is said to Herdr and what its answers mean.
//!
//! Herdr is driven through its CLI: each exchange is an argument vector out
//! and a JSON document back. This module builds the argument vectors and reads
//! the answers; running the CLI is the caller's part.

use vstd::prelude::*;
use crate::ssh_config::opt_view;
use crate::text::{chars_of, string_of, trim, trimmed, string_views};
use crate::{is_valid_alias, valid_alias};
use crate::text::{decimal, push_decimal};

verus! {

// ---------------------------------------------------------------------------
// JSON, as serde_json reads it
// ---------------------------------------------------------------------------

/// The string serde_json finds at JSON Pointer `pointer` in the document
/// `text`: `None` when `text` is not JSON, nothing is at `pointer`, or what is
/// there is not a string.
pub uninterp spec fn json_str_at(text: Seq<char>, pointer: Seq<char>) -> Option<Seq<char>>;

/// The length of the array serde_json finds at JSON Pointer `pointer` in the
/// document `text`: `None` when `text` is not JSON, nothing is at `pointer`,
/// or what is there is not an array.
pub uninterp spec fn json_array_len_at(text: Seq<char>, pointer: Seq<char>) -> Option<usize>;

/// Parses `text` with `serde_json::from_str` into a `serde_json::Value`,
/// looks up `pointer` with `Value::pointer` and reads a string with
/// `Value::as_str`. The contract names the result [`json_str_at`]: it depends
/// on the text and the pointer alone.
#[verifier::external_body]
fn json_string(text: &str, pointer: &str) -> (out: Option<String>)
    ensures
        opt_view(out) == json_str_at(text@, pointer@),
{
    let value: serde_json::Value = serde_json::from_str(text).ok()?;
    value.pointer(pointer)?.as_str().map(|s| s.to_string())
}

/// Parses `text` with `serde_json::from_str`, looks up `pointer` with
/// `Value::pointer` and reads an array's length through `Value::as_array`. The
/// contract names the result [`json_array_len_at`].
#[verifier::external_body]
fn json_array_len(text: &str, pointer: &str) -> (out: Option<usize>)
    ensures
        out == json_array_len_at(text@, pointer@),
{
    let value: serde_json::Value = serde_json::from_str(text).ok()?;
    value.pointer(pointer)?.as_array().map(|a| a.len())
}

// ---------------------------------------------------------------------------
// Ids
// ---------------------------------------------------------------------------

pub open spec fn id_char(c: char) -> bool {
    ('a' <= c && c <= 'z') || ('A' <= c && c <= 'Z') || ('0' <= c && c <= '9') || c == ':' || c == '_'
        || c == '-'
}

/// Pane and tab ids are opaque (`w1:p1`, `w1:t1`) but go back out as argv, so
/// anything that could be read as a flag is refused.
pub open spec fn is_valid_id(s: Seq<char>) -> bool {
    &&& s.len() > 0
    &&& s[0] != '-'
    &&& forall|i: int| 0 <= i < s.len() ==> id_char(#[trigger] s[i])
}

pub open spec fn valid_or_none(s: Option<Seq<char>>) -> Option<Seq<char>> {
    match s {
        Some(v) => if is_valid_id(v) {
            Some(v)
        } else {
            None
        },
        None => None,
    }
}

/// `id` when it is a valid pane or tab id.
pub fn valid_id(id: &str) -> (out: Option<String>)
    ensures
        opt_view(out) == if is_valid_id(id@) {
            Some(id@)
        } else {
            None
        },
{
    let v = chars_of(id);
    if v.len() == 0 || v[0] == '-' {
        return None;
    }
    let mut i: usize = 0;
    while i < v.len()
        invariant
            i <= v.len(),
            v@ == id@,
            forall|j: int| 0 <= j < i ==> id_char(#[trigger] v@[j]),
        decreases v.len() - i,
    {
        let c = v[i];
        let ok = ('a' <= c && c <= 'z') || ('A' <= c && c <= 'Z') || ('0' <= c && c <= '9') || c == ':'
            || c == '_' || c == '-';
        if !ok {
            return None;
        }
        i = i + 1;
    }
    Some(string_of(&v))
}

fn valid_opt(s: Option<String>) -> (out: Option<String>)
    ensures
        opt_view(out) == valid_or_none(opt_view(s)),
{
    match s {
        Some(v) => valid_id(v.as_str()),
        None => None,
    }
}

// ---------------------------------------------------------------------------
// Answers
// ---------------------------------------------------------------------------

pub open spec fn pane_pointer(field: Seq<char>) -> Seq<char> {
    "/result/plugin_pane/pane/"@ + field
}

/// The pane id in the answer to `plugin pane open`, when it is a valid id.
pub fn pane_id_from_open_response(json: &str) -> (out: Option<String>)
    ensures
        opt_view(out) == valid_or_none(json_str_at(json@, pane_pointer("pane_id"@))),
{
    let mut pointer = String::from_str("/result/plugin_pane/pane/");
    pointer.append("pane_id");
    valid_opt(json_string(json, pointer.as_str()))
}

/// The tab id in the answer to `plugin pane open`, when it is a valid id.
pub fn tab_id_from_open_response(json: &str) -> (out: Option<String>)
    ensures
        opt_view(out) == valid_or_none(json_str_at(json@, pane_pointer("tab_id"@))),
{
    let mut pointer = String::from_str("/result/plugin_pane/pane/");
    pointer.append("tab_id");
    valid_opt(json_string(json, pointer.as_str()))
}

/// Pane label set by `open_ssh`, and the key a later Enter looks for.
pub open spec fn pane_tag_of(alias: Seq<char>) -> Seq<char> {
    "ssh:"@ + alias
}

pub fn pane_tag(alias: &str) -> (out: String)
    ensures
        out@ == pane_tag_of(alias@),
{
    let mut tag = String::from_str("ssh:");
    tag.append(alias);
    tag
}

/// The pointer to field `field` of the `i`th pane in a `pane list` answer.
pub open spec fn listed_pointer(i: nat, field: Seq<char>) -> Seq<char> {
    "/result/panes/"@ + decimal(i) + "/"@ + field
}

fn listed_field(json: &str, i: usize, field: &str) -> (out: Option<String>)
    ensures
        opt_view(out) == json_str_at(json@, listed_pointer(i as nat, field@)),
{
    let mut pointer = String::from_str("/result/panes/");
    push_decimal(&mut pointer, i);
    pointer.append("/");
    pointer.append(field);
    json_string(json, pointer.as_str())
}

pub open spec fn label_at(json: Seq<char>, i: nat) -> Option<Seq<char>> {
    json_str_at(json, listed_pointer(i, "label"@))
}

/// The id of an already-open session for `alias` in a `pane list` answer:
/// the first listed pane labelled with its tag, when that pane's id is valid.
pub fn pane_id_with_tag(json: &str, alias: &str) -> (out: Option<String>)
    ensures
        json_array_len_at(json@, "/result/panes"@) is None ==> out is None,
        json_array_len_at(json@, "/result/panes"@) matches Some(n) ==> {
            &&& (forall|i: nat| i < n ==> #[trigger] label_at(json@, i) != Some(pane_tag_of(alias@))) ==> out is None
            &&& forall|i: nat|
                i < n && #[trigger] label_at(json@, i) == Some(pane_tag_of(alias@)) && (forall|j: nat|
                    j < i ==> #[trigger] label_at(json@, j) != Some(pane_tag_of(alias@))) ==> opt_view(out)
                    == valid_or_none(json_str_at(json@, listed_pointer(i, "pane_id"@)))
        },
{
    let n = match json_array_len(json, "/result/panes") {
        Some(n) => n,
        None => {
            return None;
        },
    };
    let tag = pane_tag(alias);
    let mut i: usize = 0;
    while i < n
        invariant
            i <= n,
            json_array_len_at(json@, "/result/panes"@) == Some(n),
            tag@ == pane_tag_of(alias@),
            forall|j: nat| j < i ==> #[trigger] label_at(json@, j) != Some(pane_tag_of(alias@)),
        decreases n - i,
    {
        let label = listed_field(json, i, "label");
        let matched = match &label {
            Some(l) => *l == tag,
            None => false,
        };
        assert(matched == (label_at(json@, i as nat) == Some(pane_tag_of(alias@))));
        if matched {
            let id = listed_field(json, i, "pane_id");
            let out = valid_opt(id);
            proof {
                assert forall|k: nat|
                    k < n && #[trigger] label_at(json@, k) == Some(pane_tag_of(alias@)) && (forall|j: nat|
                        j < k ==> #[trigger] label_at(json@, j) != Some(pane_tag_of(alias@))) implies opt_view(out)
                    == valid_or_none(json_str_at(json@, listed_pointer(k, "pane_id"@))) by {
                    if k < i {
                    } else if k > i {
                        assert(label_at(json@, i as nat) == Some(pane_tag_of(alias@)));
                    }
                }
            }
            return out;
        }
        i = i + 1;
    }
    None
}

/// The reason an answer refuses: `error.message`, else `error.code`.
pub open spec fn refusal(json: Seq<char>) -> Option<Seq<char>> {
    match json_str_at(json, "/error/message"@) {
        Some(m) => Some(m),
        None => json_str_at(json, "/error/code"@),
    }
}

/// The CLI answers 0 with an `{"error": ...}` body for API-level refusals
/// such as `ui_busy`, so a zero exit is not enough on its own.
pub fn error_code(json: &str) -> (out: Option<String>)
    ensures
        opt_view(out) == refusal(json@),
{
    match json_string(json, "/error/message") {
        Some(m) => Some(m),
        None => json_string(json, "/error/code"),
    }
}

// ---------------------------------------------------------------------------
// Running the CLI
// ---------------------------------------------------------------------------

pub open spec fn herdr_error(message: Seq<char>) -> Seq<char> {
    "herdr: "@ + message
}

/// What a finished CLI run means. A non-zero exit is an error carrying the
/// trimmed stderr, or the trimmed stdout when stderr is blank; a zero exit
/// whose answer is a refusal is an error carrying the refusal; otherwise the
/// answer is the output.
pub fn run_outcome(success: bool, stdout: String, stderr: &str) -> (out: Result<String, String>)
    ensures
        !success ==> (out matches Err(e) && e@ == herdr_error(
            if trim(stderr@).len() == 0 {
                trim(stdout@)
            } else {
                trim(stderr@)
            },
        )),
        success && refusal(stdout@) is Some ==> (out matches Err(e) && e@ == herdr_error(refusal(stdout@).unwrap())),
        success && refusal(stdout@) is None ==> (out matches Ok(o) && o@ == stdout@),
{
    if !success {
        let err = trimmed(&chars_of(stderr));
        let message = if err.len() == 0 {
            trimmed(&chars_of(stdout.as_str()))
        } else {
            err
        };
        let mut e = String::from_str("herdr: ");
        e.append(string_of(&message).as_str());
        return Err(e);
    }
    match error_code(stdout.as_str()) {
        Some(code) => {
            let mut e = String::from_str("herdr: ");
            e.append(code.as_str());
            Err(e)
        },
        None => Ok(stdout),
    }
}

pub open spec fn argv(v: Seq<String>) -> Seq<Seq<char>> {
    string_views(v)
}

pub open spec fn argvs(v: Seq<Vec<String>>) -> Seq<Seq<Seq<char>>> {
    v.map_values(|a: Vec<String>| string_views(a@))
}

fn word(lit: &str) -> (out: String)
    ensures
        out@ == lit@,
{
    String::from_str(lit)
}

/// `plugin pane open --plugin <plugin> --entrypoint picker`: open the picker
/// popup. Used by the plugin action behind the keybinding.
pub fn open_picker_args(plugin: &str) -> (out: Vec<String>)
    ensures
        argv(out@) == seq!["plugin"@, "pane"@, "open"@, "--plugin"@, plugin@, "--entrypoint"@, "picker"@],
{
    let out = vec![
        word("plugin"),
        word("pane"),
        word("open"),
        word("--plugin"),
        word(plugin),
        word("--entrypoint"),
        word("picker"),
    ];
    assert(argv(out@) =~= seq!["plugin"@, "pane"@, "open"@, "--plugin"@, plugin@, "--entrypoint"@, "picker"@]);
    out
}

/// `pane list`: the panes whose labels tell open sessions apart.
pub fn pane_list_args() -> (out: Vec<String>)
    ensures
        argv(out@) == seq!["pane"@, "list"@],
{
    let out = vec![word("pane"), word("list")];
    assert(argv(out@) =~= seq!["pane"@, "list"@]);
    out
}

/// `plugin pane focus <pane>`: return to an open session.
pub fn focus_pane_args(pane_id: &str) -> (out: Vec<String>)
    ensures
        argv(out@) == seq!["plugin"@, "pane"@, "focus"@, pane_id@],
{
    let out = vec![word("plugin"), word("pane"), word("focus"), word(pane_id)];
    assert(argv(out@) =~= seq!["plugin"@, "pane"@, "focus"@, pane_id@]);
    out
}

/// `tab focus <tab>`.
pub fn tab_focus_args(tab_id: &str) -> (out: Vec<String>)
    ensures
        argv(out@) == seq!["tab"@, "focus"@, tab_id@],
{
    let out = vec![word("tab"), word("focus"), word(tab_id)];
    assert(argv(out@) =~= seq!["tab"@, "focus"@, tab_id@]);
    out
}

/// What to run after focusing a pane: focus its tab too, when the answer
/// names one (the pane carries its tab with it, but the tab is focused
/// explicitly all the same).
pub fn focus_follow_ups(json: &str) -> (out: Vec<Vec<String>>)
    ensures
        argvs(out@) == match valid_or_none(json_str_at(json@, pane_pointer("tab_id"@))) {
            Some(tab) => seq![seq!["tab"@, "focus"@, tab]],
            None => Seq::<Seq<Seq<char>>>::empty(),
        },
{
    let mut out: Vec<Vec<String>> = Vec::new();
    match tab_id_from_open_response(json) {
        Some(tab) => {
            out.push(tab_focus_args(tab.as_str()));
            assert(argvs(out@) =~= seq![seq!["tab"@, "focus"@, tab@]]);
        },
        None => {
            assert(argvs(out@) =~= Seq::<Seq<Seq<char>>>::empty());
        },
    }
    out
}

pub open spec fn alias_env(alias: Seq<char>) -> Seq<char> {
    "HERDR_HOSTS_ALIAS="@ + alias
}

/// The arguments that open a tab running `ssh <alias>` through the launcher
/// entrypoint, argv all the way; refused for an alias that is not valid.
pub fn open_ssh_args(alias: &str, plugin: &str) -> (out: Result<Vec<String>, String>)
    ensures
        !is_valid_alias(alias@) ==> (out matches Err(e) && e@ == "invalid ssh alias: "@ + alias@),
        is_valid_alias(alias@) ==> (out matches Ok(a) && argv(a@) == seq![
            "plugin"@,
            "pane"@,
            "open"@,
            "--plugin"@,
            plugin@,
            "--entrypoint"@,
            "ssh"@,
            "--placement"@,
            "tab"@,
            "--env"@,
            alias_env(alias@),
            "--focus"@,
        ]),
{
    if !valid_alias(alias) {
        let mut e = String::from_str("invalid ssh alias: ");
        e.append(alias);
        return Err(e);
    }
    let mut env = String::from_str("HERDR_HOSTS_ALIAS=");
    env.append(alias);
    let out = vec![
        word("plugin"),
        word("pane"),
        word("open"),
        word("--plugin"),
        word(plugin),
        word("--entrypoint"),
        word("ssh"),
        word("--placement"),
        word("tab"),
        word("--env"),
        env,
        word("--focus"),
    ];
    assert(argv(out@) =~= seq![
        "plugin"@,
        "pane"@,
        "open"@,
        "--plugin"@,
        plugin@,
        "--entrypoint"@,
        "ssh"@,
        "--placement"@,
        "tab"@,
        "--env"@,
        alias_env(alias@),
        "--focus"@,
    ]);
    Ok(out)
}

/// A session that was opened: its pane, and the best-effort commands to run
/// next (tag the pane so a later Enter finds it, name and focus the tab).
pub struct Opened {
    pub pane: String,
    pub follow_ups: Vec<Vec<String>>,
}

/// What the answer to opening a session means. Without a valid pane id it is
/// an error; otherwise the pane is tagged, and when the answer names a tab it
/// is renamed after the alias and focused.
pub fn after_open_ssh(alias: &str, json: &str) -> (out: Result<Opened, String>)
    ensures
        valid_or_none(json_str_at(json@, pane_pointer("pane_id"@))) is None ==> (out matches Err(e) && e@
            == "herdr did not return a pane id"@),
        valid_or_none(json_str_at(json@, pane_pointer("pane_id"@))) matches Some(pane) ==> (out matches Ok(o) && o.pane@
            == pane && argvs(o.follow_ups@) == seq![seq!["pane"@, "rename"@, pane, pane_tag_of(alias@)]] + match valid_or_none(
            json_str_at(json@, pane_pointer("tab_id"@)),
        ) {
            Some(tab) => seq![seq!["tab"@, "rename"@, tab, alias@], seq!["tab"@, "focus"@, tab]],
            None => Seq::<Seq<Seq<char>>>::empty(),
        }),
{
    let pane = match pane_id_from_open_response(json) {
        Some(p) => p,
        None => {
            return Err(String::from_str("herdr did not return a pane id"));
        },
    };
    let mut follow_ups: Vec<Vec<String>> = Vec::new();
    let rename = vec![word("pane"), word("rename"), pane.clone(), pane_tag(alias)];
    assert(argv(rename@) =~= seq!["pane"@, "rename"@, pane@, pane_tag_of(alias@)]);
    follow_ups.push(rename);
    match tab_id_from_open_response(json) {
        Some(tab) => {
            let name_tab = vec![word("tab"), word("rename"), tab.clone(), word(alias)];
            assert(argv(name_tab@) =~= seq!["tab"@, "rename"@, tab@, alias@]);
            follow_ups.push(name_tab);
            follow_ups.push(tab_focus_args(tab.as_str()));
        },
        None => {},
    }
    let out = Opened { pane, follow_ups };
    assert(argvs(out.follow_ups@) =~= seq![seq!["pane"@, "rename"@, out.pane@, pane_tag_of(alias@)]] + match valid_or_none(
        json_str_at(json@, pane_pointer("tab_id"@)),
    ) {
        Some(tab) => seq![seq!["tab"@, "rename"@, tab, alias@], seq!["tab"@, "focus"@, tab]],
        None => Seq::<Seq<Seq<char>>>::empty(),
    });
    Ok(out)
}


/// The pointer of the `i`th listed pane spells `i` in base ten, and no two
/// panes share a pointer: pane `i` is looked up at index `i` and nowhere else.
pub proof fn lemma_listed_pointer_names_the_pane(i: nat, j: nat, field: Seq<char>)
    ensures
        crate::text::numeral_value(listed_pointer(i, field).subrange(14, 14 + decimal(i).len() as int)) == i,
        listed_pointer(i, field) == listed_pointer(j, field) <==> i == j,
{
    reveal_strlit("/result/panes/");
    reveal_strlit("/");
    let pre = "/result/panes/"@;
    assert(pre.len() == 14);
    let a = decimal(i);
    let b = decimal(j);
    crate::text::lemma_decimal_spells(i);
    crate::text::lemma_decimal_spells(j);
    let s = listed_pointer(i, field);
    let t = listed_pointer(j, field);
    assert(s.subrange(14, 14 + a.len() as int) =~= a);
    if s == t {
        if a.len() < b.len() {
            assert(s[14 + a.len() as int] == '/');
            assert(t[14 + a.len() as int] == b[a.len() as int]);
            assert(crate::text::is_decimal_digit(b[a.len() as int]));
        } else if b.len() < a.len() {
            assert(t[14 + b.len() as int] == '/');
            assert(s[14 + b.len() as int] == a[b.len() as int]);
            assert(crate::text::is_decimal_digit(a[b.len() as int]));
        }
        assert(t.subrange(14, 14 + b.len() as int) =~= b);
        assert(a =~= b);
        crate::text::lemma_decimal_injective(i, j);
    }
}

} // verus!
