//! Hosts, folders and notes, all read from the ssh client configuration.
//!
//! OpenSSH has no concept of a group. What it does have is the comment style
//! people already use to divide a config into sections, so that is what the
//! tree is built from:
//!
//! ```sshconfig
//! # --- Personal / Hetzner ---
//! Host dokku-prod   # main dokku box
//! Host postgres
//! ```
//!
//! This is deliberately not an ssh config implementation: the picker only needs
//! the names a user can type after `ssh`. This module turns the text of one
//! file into the directives that matter, in file order; reading the files and
//! following `Include` is left to the caller, which feeds each file's
//! directives back through [`add_hosts`].

use vstd::prelude::*;
use crate::text::{
    contains_char, lines, lines_of, strip_start, words, words_of,
    chars_of, copy_range, join, join_strings, lead, lead_from, split, split_of, string_of,
    string_of_range, string_views, strip, strip_end, stripped, trail, trail_before, trim, trimmed, views,
    CharClass,
};
use crate::names::Names;

verus! {

/// Includes can nest; a depth cap is simpler than proving the graph is acyclic
/// and OpenSSH caps it too.
pub const MAX_DEPTH: usize = 16;

/// Separates nesting levels inside a section heading.
pub const NESTING: char = '/';

pub struct Host {
    pub alias: String,
    /// Section path the host was written under; empty means ungrouped.
    pub folder: Vec<String>,
    pub note: Option<String>,
}

/// The mathematical value of a [`Host`].
pub struct HostView {
    pub alias: Seq<char>,
    pub folder: Seq<Seq<char>>,
    pub note: Option<Seq<char>>,
}

pub open spec fn opt_view(o: Option<String>) -> Option<Seq<char>> {
    match o {
        Some(s) => Some(s@),
        None => None,
    }
}

impl View for Host {
    type V = HostView;

    open spec fn view(&self) -> HostView {
        HostView { alias: self.alias@, folder: string_views(self.folder@), note: opt_view(self.note) }
    }
}

pub open spec fn host_views(hs: Seq<Host>) -> Seq<HostView> {
    hs.map_values(|h: Host| h@)
}

/// The separator of [`Host::folder_path`].
pub open spec fn path_separator() -> Seq<char> {
    seq![' ', '/', ' ']
}

/// The separator of [`Host::folder_id`].
pub open spec fn id_separator() -> Seq<char> {
    seq!['\u{1}']
}

pub fn clone_strings(v: &Vec<String>) -> (out: Vec<String>)
    ensures
        string_views(out@) == string_views(v@),
        out@.len() == v@.len(),
{
    let mut out: Vec<String> = Vec::new();
    let mut i: usize = 0;
    while i < v.len()
        invariant
            i <= v.len(),
            string_views(out@) == string_views(v@.take(i as int)),
            out@.len() == i,
        decreases v.len() - i,
    {
        out.push(v[i].clone());
        assert(string_views(v@.take(i + 1)) =~= string_views(v@.take(i as int)).push(v@[i as int]@));
        assert(string_views(out@) =~= string_views(v@.take(i as int)).push(v@[i as int]@));
        i = i + 1;
    }
    assert(v@.take(v.len() as int) =~= v@);
    out
}

pub fn clone_opt(o: &Option<String>) -> (out: Option<String>)
    ensures
        opt_view(out) == opt_view(*o),
{
    match o {
        Some(s) => Some(s.clone()),
        None => None,
    }
}

impl Host {
    /// The folder path as shown to a person: `A / B`.
    pub fn folder_path(&self) -> (out: String)
        ensures
            out@ == join(self@.folder, path_separator()),
    {
        let sep = " / ";
        proof {
            reveal_strlit(" / ");
        }
        assert(sep@ =~= path_separator());
        join_strings(&self.folder, sep)
    }

    /// Stable id for the folder this host sits in.
    pub fn folder_id(&self) -> (out: String)
        ensures
            out@ == join(self@.folder, id_separator()),
            out@ == crate::tree::folder_id(self@.folder),
    {
        let sep = "\u{1}";
        proof {
            reveal_strlit("\u{1}");
        }
        assert(sep@ =~= id_separator());
        join_strings(&self.folder, sep)
    }
}

// ---------------------------------------------------------------------------
// Section headings
// ---------------------------------------------------------------------------

/// The pieces of `pieces` stripped of `cls` at both ends, empty ones dropped.
pub open spec fn kept(pieces: Seq<Seq<char>>, cls: CharClass) -> Seq<Seq<char>>
    decreases pieces.len(),
{
    if pieces.len() == 0 {
        seq![]
    } else {
        let rest = kept(pieces.drop_last(), cls);
        let p = strip(pieces.last(), cls);
        if p.len() > 0 {
            rest.push(p)
        } else {
            rest
        }
    }
}

pub open spec fn is_fence(c: char) -> bool {
    c == '-' || c == '=' || c == '*'
}

/// A section heading is a comment whose text is fenced by at least two of the
/// same separator on each side: `# --- Work ---`, `# === Work / Prod ===`.
/// The text between the fences, split at `/` and trimmed, names the folder
/// path; a heading must name at least one folder.
pub open spec fn heading(line: Seq<char>) -> Option<Seq<Seq<char>>> {
    let t = trim(line);
    if t.len() == 0 || t[0] != '#' {
        None
    } else {
        let body = trim(t.drop_first());
        if body.len() == 0 || !is_fence(body[0]) {
            None
        } else {
            let fence = CharClass::Is(body[0]);
            let opening = lead(body, fence);
            let after = body.skip(opening as int);
            let closing = trail(after, fence);
            let parts = kept(split(strip_end(after, fence), NESTING), CharClass::White);
            if opening < 2 || closing < 2 || parts.len() == 0 {
                None
            } else {
                Some(parts)
            }
        }
    }
}

pub open spec fn opt_strings_view(o: Option<Vec<String>>) -> Option<Seq<Seq<char>>> {
    match o {
        Some(v) => Some(string_views(v@)),
        None => None,
    }
}

/// Strips `cls` from both ends of each piece and keeps the non-empty results.
pub fn keep_stripped(pieces: &Vec<Vec<char>>, cls: CharClass) -> (out: Vec<String>)
    ensures
        string_views(out@) == kept(views(pieces@), cls),
{
    let mut out: Vec<String> = Vec::new();
    let mut i: usize = 0;
    while i < pieces.len()
        invariant
            i <= pieces.len(),
            string_views(out@) == kept(views(pieces@).take(i as int), cls),
        decreases pieces.len() - i,
    {
        let p = stripped(&pieces[i], cls);
        assert(views(pieces@).take(i + 1).drop_last() =~= views(pieces@).take(i as int));
        assert(views(pieces@).take(i + 1).last() == pieces@[i as int]@);
        if p.len() > 0 {
            let ghost before = out@;
            out.push(string_of(&p));
            assert(string_views(out@) =~= string_views(before).push(p@));
        }
        i = i + 1;
    }
    assert(views(pieces@).take(pieces.len() as int) =~= views(pieces@));
    out
}

/// The folder path a heading line opens, or `None` when the line is not a
/// heading. An ordinary comment is not a heading, so existing configs keep
/// their meaning.
pub fn section_heading(line: &str) -> (out: Option<Vec<String>>)
    ensures
        opt_strings_view(out) == heading(line@),
{
    let v = chars_of(line);
    heading_of(&v)
}

/// [`section_heading`] over the characters of a line.
pub fn heading_of(v: &Vec<char>) -> (out: Option<Vec<String>>)
    ensures
        opt_strings_view(out) == heading(v@),
{
    let t = trimmed(v);
    if t.len() == 0 || t[0] != '#' {
        return None;
    }
    let inner = copy_range(&t, 1, t.len());
    assert(inner@ =~= t@.drop_first());
    let body = trimmed(&inner);
    if body.len() == 0 {
        return None;
    }
    let fence_char = body[0];
    if !(fence_char == '-' || fence_char == '=' || fence_char == '*') {
        return None;
    }
    let fence = CharClass::Is(fence_char);
    let opening = lead_from(&body, 0, fence);
    assert(body@.skip(0) =~= body@);
    let after = copy_range(&body, opening, body.len());
    assert(after@ =~= body@.skip(opening as int));
    let kept_end = trail_before(&after, after.len(), fence);
    assert(after@.take(after.len() as int) =~= after@);
    let inside = copy_range(&after, 0, kept_end);
    assert(inside@ =~= strip_end(after@, fence));
    let pieces = split_of(&inside, NESTING);
    let parts = keep_stripped(&pieces, CharClass::White);
    if opening < 2 || after.len() - kept_end < 2 || parts.len() == 0 {
        return None;
    }
    Some(parts)
}

// ---------------------------------------------------------------------------
// Directives
// ---------------------------------------------------------------------------

/// `Host x`, `Host=x` and leading whitespace are all valid OpenSSH spellings:
/// the keyword runs up to the first space, tab or `=`, and the arguments start
/// after the run of those that follows it. Blank lines, comments and a keyword
/// with nothing after it are not directives.
pub open spec fn directive(line: Seq<char>) -> Option<(Seq<char>, Seq<char>)> {
    let t = trim(line);
    if t.len() == 0 || t[0] == '#' {
        None
    } else {
        let end = lead(t, CharClass::Word);
        if end >= t.len() {
            None
        } else {
            Some((t.take(end as int), strip_start(t.skip(end as int), CharClass::Separator)))
        }
    }
}

/// Where a comment starts in `r`, looking from `k` on: a `#` at the start or
/// right after a space or tab (`r.len()` when there is none). OpenSSH only
/// starts a comment at a token boundary: `Host beta#gamma` is one alias.
pub open spec fn comment_from(r: Seq<char>, k: int) -> int
    decreases r.len() - k,
{
    if k < 0 || k >= r.len() {
        r.len() as int
    } else if r[k] == '#' && (k == 0 || r[k - 1] == ' ' || r[k - 1] == '\t') {
        k
    } else {
        comment_from(r, k + 1)
    }
}

/// The arguments before a trailing comment, and the comment's trimmed text
/// as a note when it is not empty.
pub open spec fn split_comment(r: Seq<char>) -> (Seq<char>, Option<Seq<char>>) {
    let k = comment_from(r, 0);
    if k >= r.len() {
        (r, None)
    } else {
        let note = trim(r.skip(k + 1));
        (r.take(k), if note.len() > 0 { Some(note) } else { None })
    }
}

/// The arguments of a directive: whitespace-separated, surrounding double
/// quotes removed, empty ones dropped.
pub open spec fn tokens(r: Seq<char>) -> Seq<Seq<char>> {
    kept(words(r), CharClass::Is('"'))
}

/// `Host *.example.com` declares defaults for a pattern, not a host anyone
/// connects to by that name, so it is not inventory.
pub open spec fn is_pattern_token(t: Seq<char>) -> bool {
    contains_char(t, '*') || contains_char(t, '?') || contains_char(t, '!')
}

/// The tokens that are not patterns, in order.
pub open spec fn unpatterned(ts: Seq<Seq<char>>) -> Seq<Seq<char>>
    decreases ts.len(),
{
    if ts.len() == 0 {
        seq![]
    } else if is_pattern_token(ts.last()) {
        unpatterned(ts.drop_last())
    } else {
        unpatterned(ts.drop_last()).push(ts.last())
    }
}

/// `c.to_ascii_lowercase() == t`.
pub open spec fn ascii_lower_is(c: char, t: char) -> bool {
    if 'A' <= c && c <= 'Z' {
        (c as u32) + 32 == (t as u32)
    } else {
        c == t
    }
}

/// `k.to_ascii_lowercase() == word`: keywords are case-insensitive.
pub open spec fn keyword_is(k: Seq<char>, word: Seq<char>) -> bool {
    k.len() == word.len() && forall|i: int| 0 <= i < k.len() ==> ascii_lower_is(#[trigger] k[i], word[i])
}

pub open spec fn host_word() -> Seq<char> {
    seq!['h', 'o', 's', 't']
}

pub open spec fn include_word() -> Seq<char> {
    seq!['i', 'n', 'c', 'l', 'u', 'd', 'e']
}

/// What one line of a configuration contributes.
pub enum Directive {
    /// A `Host` line: the aliases it names (patterns left out), the section
    /// it was written under, and its trailing-comment note.
    Hosts { aliases: Vec<String>, folder: Vec<String>, note: Option<String> },
    /// An `Include` line: its patterns and the section in force, which the
    /// included files inherit.
    Include { patterns: Vec<String>, folder: Vec<String> },
}

pub enum DirectiveView {
    Hosts { aliases: Seq<Seq<char>>, folder: Seq<Seq<char>>, note: Option<Seq<char>> },
    Include { patterns: Seq<Seq<char>>, folder: Seq<Seq<char>> },
}

impl View for Directive {
    type V = DirectiveView;

    open spec fn view(&self) -> DirectiveView {
        match self {
            Directive::Hosts { aliases, folder, note } => DirectiveView::Hosts {
                aliases: string_views(aliases@),
                folder: string_views(folder@),
                note: opt_view(*note),
            },
            Directive::Include { patterns, folder } => DirectiveView::Include {
                patterns: string_views(patterns@),
                folder: string_views(folder@),
            },
        }
    }
}

pub open spec fn directive_views(ds: Seq<Directive>) -> Seq<DirectiveView> {
    ds.map_values(|d: Directive| d@)
}

/// What a line that is not a heading contributes under `section`.
pub open spec fn line_directive(line: Seq<char>, section: Seq<Seq<char>>) -> Option<DirectiveView> {
    match directive(line) {
        None => None,
        Some((k, rest)) => {
            let (args, note) = split_comment(rest);
            if keyword_is(k, host_word()) {
                Some(DirectiveView::Hosts { aliases: unpatterned(tokens(args)), folder: section, note })
            } else if keyword_is(k, include_word()) {
                Some(DirectiveView::Include { patterns: tokens(args), folder: section })
            } else {
                None
            }
        }
    }
}

/// The directives of `ls`, in order, with `section` in force at the first of
/// them. A heading replaces the section with the inherited path extended by
/// the heading's own; a heading runs until the next one.
pub open spec fn directives_from(
    ls: Seq<Seq<char>>,
    inherited: Seq<Seq<char>>,
    section: Seq<Seq<char>>,
) -> Seq<DirectiveView>
    decreases ls.len(),
{
    if ls.len() == 0 {
        seq![]
    } else {
        match heading(ls[0]) {
            Some(h) => directives_from(ls.drop_first(), inherited, inherited + h),
            None => match line_directive(ls[0], section) {
                Some(d) => seq![d] + directives_from(ls.drop_first(), inherited, section),
                None => directives_from(ls.drop_first(), inherited, section),
            },
        }
    }
}

/// The directives of a whole file read under the inherited section path.
pub open spec fn config_directives(text: Seq<char>, inherited: Seq<Seq<char>>) -> Seq<DirectiveView> {
    directives_from(lines(text), inherited, inherited)
}

/// Keyword and arguments of a directive line.
pub fn split_directive(line: &Vec<char>) -> (out: Option<(Vec<char>, Vec<char>)>)
    ensures
        match out {
            Some((k, r)) => directive(line@) == Some((k@, r@)),
            None => directive(line@) is None,
        },
{
    let t = trimmed(line);
    if t.len() == 0 || t[0] == '#' {
        return None;
    }
    let end = lead_from(&t, 0, CharClass::Word);
    assert(t@.skip(0) =~= t@);
    if end >= t.len() {
        return None;
    }
    let keyword = copy_range(&t, 0, end);
    let start = lead_from(&t, end, CharClass::Separator);
    let rest = copy_range(&t, start, t.len());
    assert(keyword@ =~= t@.take(end as int));
    assert(rest@ =~= strip_start(t@.skip(end as int), CharClass::Separator));
    Some((keyword, rest))
}

/// The arguments before a trailing comment, and the note the comment holds.
pub fn split_trailing_comment(rest: &Vec<char>) -> (out: (Vec<char>, Option<String>))
    ensures
        (out.0@, opt_view(out.1)) == split_comment(rest@),
{
    let mut k: usize = 0;
    while k < rest.len()
        invariant
            k <= rest.len(),
            comment_from(rest@, k as int) == comment_from(rest@, 0),
        decreases rest.len() - k,
    {
        if rest[k] == '#' && (k == 0 || rest[k - 1] == ' ' || rest[k - 1] == '\t') {
            let args = copy_range(rest, 0, k);
            let after = copy_range(rest, k + 1, rest.len());
            assert(after@ =~= rest@.skip(k + 1));
            let note = trimmed(&after);
            assert(args@ =~= rest@.take(k as int));
            if note.len() > 0 {
                return (args, Some(string_of(&note)));
            } else {
                return (args, None);
            }
        }
        k = k + 1;
    }
    let all = copy_range(rest, 0, rest.len());
    assert(all@ =~= rest@);
    (all, None)
}

/// The tokens of a directive's arguments.
pub fn tokens_of(r: &Vec<char>) -> (out: Vec<String>)
    ensures
        string_views(out@) == tokens(r@),
{
    let ws = words_of(r);
    keep_stripped(&ws, CharClass::Is('"'))
}

pub fn is_pattern(token: &String) -> (b: bool)
    ensures
        b == is_pattern_token(token@),
{
    let v = chars_of(token.as_str());
    let mut i: usize = 0;
    while i < v.len()
        invariant
            i <= v.len(),
            v@ == token@,
            forall|j: int| 0 <= j < i ==> v@[j] != '*' && v@[j] != '?' && v@[j] != '!',
        decreases v.len() - i,
    {
        if v[i] == '*' || v[i] == '?' || v[i] == '!' {
            return true;
        }
        i = i + 1;
    }
    false
}

fn without_patterns(ts: Vec<String>) -> (out: Vec<String>)
    ensures
        string_views(out@) == unpatterned(string_views(ts@)),
{
    let mut out: Vec<String> = Vec::new();
    let mut i: usize = 0;
    while i < ts.len()
        invariant
            i <= ts.len(),
            string_views(out@) == unpatterned(string_views(ts@).take(i as int)),
        decreases ts.len() - i,
    {
        assert(string_views(ts@).take(i + 1).drop_last() =~= string_views(ts@).take(i as int));
        assert(string_views(ts@).take(i + 1).last() == ts@[i as int]@);
        if !is_pattern(&ts[i]) {
            let ghost before = out@;
            out.push(ts[i].clone());
            assert(string_views(out@) =~= string_views(before).push(ts@[i as int]@));
        }
        i = i + 1;
    }
    assert(string_views(ts@).take(ts.len() as int) =~= string_views(ts@));
    out
}

fn keyword_matches(k: &Vec<char>, word: &Vec<char>) -> (b: bool)
    ensures
        b == keyword_is(k@, word@),
{
    if k.len() != word.len() {
        return false;
    }
    let mut i: usize = 0;
    while i < k.len()
        invariant
            i <= k.len() == word.len(),
            forall|j: int| 0 <= j < i ==> ascii_lower_is(#[trigger] k@[j], word@[j]),
        decreases k.len() - i,
    {
        let c = k[i];
        let ok = if 'A' <= c && c <= 'Z' {
            (c as u32) + 32 == (word[i] as u32)
        } else {
            c == word[i]
        };
        if !ok {
            return false;
        }
        i = i + 1;
    }
    true
}

fn concat_strings(a: &Vec<String>, b: &Vec<String>) -> (out: Vec<String>)
    ensures
        string_views(out@) == string_views(a@) + string_views(b@),
{
    let mut out = clone_strings(a);
    let mut i: usize = 0;
    while i < b.len()
        invariant
            i <= b.len(),
            string_views(out@) == string_views(a@) + string_views(b@.take(i as int)),
        decreases b.len() - i,
    {
        let ghost before = out@;
        out.push(b[i].clone());
        assert(string_views(out@) =~= string_views(before).push(b@[i as int]@));
        assert(string_views(b@.take(i + 1)) =~= string_views(b@.take(i as int)).push(b@[i as int]@));
        i = i + 1;
    }
    assert(b@.take(b.len() as int) =~= b@);
    out
}

/// The directives of one file's text, in file order, read under the section
/// path in force where the file was included.
pub fn parse_config(text: &str, inherited: &Vec<String>) -> (out: Vec<Directive>)
    ensures
        directive_views(out@) == config_directives(text@, string_views(inherited@)),
{
    let chars = chars_of(text);
    let ls = lines_of(&chars);
    let ghost all = views(ls@);
    let ghost inh = string_views(inherited@);
    let host = vec!['h', 'o', 's', 't'];
    let include_kw = vec!['i', 'n', 'c', 'l', 'u', 'd', 'e'];
    assert(host@ =~= host_word());
    assert(include_kw@ =~= include_word());
    let mut out: Vec<Directive> = Vec::new();
    let mut section = clone_strings(inherited);
    let mut i: usize = 0;
    assert(all.skip(0) =~= all);
    while i < ls.len()
        invariant
            i <= ls.len(),
            all == views(ls@),
            inh == string_views(inherited@),
            host@ == host_word(),
            include_kw@ == include_word(),
            directive_views(out@) + directives_from(all.skip(i as int), inh, string_views(section@))
                == directives_from(all, inh, inh),
        decreases ls.len() - i,
    {
        let ghost before = out@;
        let ghost sec = string_views(section@);
        let line = &ls[i];
        assert(all.skip(i as int)[0] == line@);
        assert(all.skip(i as int).drop_first() =~= all.skip(i + 1));
        match heading_of(line) {
            Some(h) => {
                section = concat_strings(inherited, &h);
            },
            None => {
                match split_directive(line) {
                    None => {},
                    Some((k, rest)) => {
                        let (args, note) = split_trailing_comment(&rest);
                        if keyword_matches(&k, &host) {
                            let aliases = without_patterns(tokens_of(&args));
                            out.push(Directive::Hosts { aliases, folder: clone_strings(&section), note });
                            assert(directive_views(out@) =~= directive_views(before).push(out@.last()@));
                        } else if keyword_matches(&k, &include_kw) {
                            let patterns = tokens_of(&args);
                            out.push(Directive::Include { patterns, folder: clone_strings(&section) });
                            assert(directive_views(out@) =~= directive_views(before).push(out@.last()@));
                        }
                    },
                }
            },
        }
        i = i + 1;
    }
    assert(directive_views(out@) + directives_from(all.skip(i as int), inh, string_views(section@))
        =~= directive_views(out@));
    out
}

/// A line that is neither a heading nor a directive (a blank line, an
/// ordinary comment) changes nothing: a heading runs until the next one, and
/// an existing config keeps its meaning.
pub proof fn lemma_quiet_line_keeps_section(
    ls: Seq<Seq<char>>,
    k: int,
    x: Seq<char>,
    inherited: Seq<Seq<char>>,
    section: Seq<Seq<char>>,
)
    requires
        0 <= k <= ls.len(),
        heading(x) is None,
        directive(x) is None,
    ensures
        directives_from(ls.insert(k, x), inherited, section) == directives_from(ls, inherited, section),
    decreases k,
{
    let with = ls.insert(k, x);
    if k == 0 {
        assert(with.drop_first() =~= ls);
    } else {
        assert(with[0] == ls[0]);
        assert(with.drop_first() =~= ls.drop_first().insert(k - 1, x));
        let next = match heading(ls[0]) {
            Some(h) => inherited + h,
            None => section,
        };
        lemma_quiet_line_keeps_section(ls.drop_first(), k - 1, x, inherited, next);
    }
}

/// A blank line is neither a heading nor a directive.
pub proof fn lemma_blank_line_is_quiet(x: Seq<char>)
    requires
        trim(x).len() == 0,
    ensures
        heading(x) is None,
        directive(x) is None,
{
}

// ---------------------------------------------------------------------------
// Following `Include`
// ---------------------------------------------------------------------------

/// Whether a file reached at include depth `depth` is read, and the files
/// seen afterwards. Includes nest at most [`MAX_DEPTH`] deep, and the same
/// file, reached twice directly or through a glob, is read once.
pub open spec fn visit(seen: Set<Seq<char>>, file: Seq<char>, depth: nat) -> (bool, Set<Seq<char>>) {
    if depth > MAX_DEPTH {
        (false, seen)
    } else {
        (!seen.contains(file), seen.insert(file))
    }
}

/// Records a visit to `file` (its canonical path) at include depth `depth`;
/// true when the file is to be read.
pub fn first_visit(seen: &mut Names, file: String, depth: usize) -> (read: bool)
    ensures
        (read, final(seen)@) == visit(old(seen)@, file@, depth as nat),
{
    if depth > MAX_DEPTH {
        return false;
    }
    seen.insert(file)
}

/// A file that was read is never read again.
pub proof fn lemma_read_once(seen: Set<Seq<char>>, file: Seq<char>, first: nat, later: nat)
    requires
        visit(seen, file, first).0,
    ensures
        !visit(visit(seen, file, first).1, file, later).0,
{
}

/// Where an `Include` pattern is rooted.
pub enum IncludeRoot {
    /// `~/...`: under the home directory.
    Home,
    /// `/...`: the pattern is already a full path.
    Absolute,
    /// Anything else: under the ssh directory, the directory of the top-level
    /// config, whichever file the `Include` is written in (ssh_config(5)).
    SshDir,
}

/// The root of an `Include` pattern and the part of it that is joined to
/// that root.
pub open spec fn include_root_of(pattern: Seq<char>) -> (IncludeRoot, Seq<char>) {
    if pattern.len() >= 2 && pattern[0] == '~' && pattern[1] == '/' {
        (IncludeRoot::Home, pattern.skip(2))
    } else if pattern.len() >= 1 && pattern[0] == '/' {
        (IncludeRoot::Absolute, pattern)
    } else {
        (IncludeRoot::SshDir, pattern)
    }
}

/// Relative includes resolve against the ssh directory (see
/// [`include_root_of`]).
pub fn include_root(pattern: &str) -> (out: (IncludeRoot, String))
    ensures
        (out.0, out.1@) == include_root_of(pattern@),
{
    let v = chars_of(pattern);
    if v.len() >= 2 && v[0] == '~' && v[1] == '/' {
        let rest = string_of_range(&v, 2, v.len());
        assert(rest@ =~= pattern@.skip(2));
        (IncludeRoot::Home, rest)
    } else if v.len() >= 1 && v[0] == '/' {
        (IncludeRoot::Absolute, string_of(&v))
    } else {
        (IncludeRoot::SshDir, string_of(&v))
    }
}

/// `base` joined with `rest` the way a Unix path is extended: a `rest` that
/// starts at the root replaces `base`; otherwise a `/` goes between them
/// unless `base` is empty or already ends with one.
pub open spec fn joined_path(base: Seq<char>, rest: Seq<char>) -> Seq<char> {
    if rest.len() > 0 && rest[0] == '/' {
        rest
    } else if base.len() == 0 || base.last() == '/' {
        base + rest
    } else {
        base + seq!['/'] + rest
    }
}

/// The path an `Include` pattern stands for: `~/...` under the home
/// directory, a path from the root as it is, anything else under the ssh
/// directory. `None` when the directory it needs is not known.
pub open spec fn resolved_include(
    pattern: Seq<char>,
    ssh_dir: Option<Seq<char>>,
    home: Option<Seq<char>>,
) -> Option<Seq<char>> {
    let (root, rest) = include_root_of(pattern);
    match root {
        IncludeRoot::Home => match home {
            Some(h) => Some(joined_path(h, rest)),
            None => None,
        },
        IncludeRoot::Absolute => Some(rest),
        IncludeRoot::SshDir => match ssh_dir {
            Some(d) => Some(joined_path(d, rest)),
            None => None,
        },
    }
}

fn join_path(base: &str, rest: &str) -> (out: String)
    ensures
        out@ == joined_path(base@, rest@),
{
    let r = chars_of(rest);
    if r.len() > 0 && r[0] == '/' {
        return string_of(&r);
    }
    let b = chars_of(base);
    let mut out = string_of(&b);
    if !(b.len() == 0 || b[b.len() - 1] == '/') {
        out.push('/');
    }
    out.append(rest);
    out
}

/// Where an `Include` pattern points (see [`resolved_include`]). The
/// directories are given as text; one that is not known, or not text, is
/// `None`.
pub fn resolve_include(pattern: &str, ssh_dir: Option<&str>, home: Option<&str>) -> (out: Option<String>)
    ensures
        opt_view(out) == resolved_include(
            pattern@,
            match ssh_dir {
                Some(d) => Some(d@),
                None => None,
            },
            match home {
                Some(h) => Some(h@),
                None => None,
            },
        ),
{
    match include_root(pattern) {
        (IncludeRoot::Home, rest) => match home {
            Some(h) => Some(join_path(h, rest.as_str())),
            None => None,
        },
        (IncludeRoot::Absolute, p) => Some(p),
        (IncludeRoot::SshDir, rest) => match ssh_dir {
            Some(d) => Some(join_path(d, rest.as_str())),
            None => None,
        },
    }
}

/// A `Host` token holding `*`, `?` or `!` is a pattern: it is never listed
/// as a host, and every other token is.
pub proof fn lemma_wildcards_never_listed(ts: Seq<Seq<char>>)
    ensures
        forall|x: Seq<char>|
            #[trigger] unpatterned(ts).contains(x) <==> (ts.contains(x) && forall|j: int|
                0 <= j < x.len() ==> x[j] != '*' && x[j] != '?' && x[j] != '!'),
{
    lemma_unpatterned(ts);
    assert forall|x: Seq<char>| #[trigger] unpatterned(ts).contains(x) <==> (ts.contains(x) && forall|j: int|
        0 <= j < x.len() ==> x[j] != '*' && x[j] != '?' && x[j] != '!') by {
        if unpatterned(ts).contains(x) {
            let i = choose|i: int| 0 <= i < unpatterned(ts).len() && unpatterned(ts)[i] == x;
            assert(!is_pattern_token(unpatterned(ts)[i]));
            assert forall|j: int| 0 <= j < x.len() implies x[j] != '*' && x[j] != '?' && x[j] != '!' by {
                if x[j] == '*' {
                    assert(contains_char(x, '*'));
                } else if x[j] == '?' {
                    assert(contains_char(x, '?'));
                } else if x[j] == '!' {
                    assert(contains_char(x, '!'));
                }
            }
        }
        if ts.contains(x) && forall|j: int| 0 <= j < x.len() ==> x[j] != '*' && x[j] != '?' && x[j] != '!' {
            let i = choose|i: int| 0 <= i < ts.len() && ts[i] == x;
            assert(!is_pattern_token(ts[i]));
        }
    }
}

/// `x` holds none of `*`, `?` and `!`.
pub open spec fn free_of_wildcards(x: Seq<char>) -> bool {
    forall|j: int| 0 <= j < x.len() ==> x[j] != '*' && x[j] != '?' && x[j] != '!'
}

/// Every alias of a `Host` directive is free of wildcards.
pub open spec fn lists_no_wildcards(d: DirectiveView) -> bool {
    d is Hosts ==> forall|a: int| 0 <= a < d->Hosts_aliases.len() ==> free_of_wildcards(#[trigger] d->Hosts_aliases[a])
}

/// No alias that a configuration lists holds `*`, `?` or `!`.
pub proof fn lemma_config_lists_no_wildcards(ls: Seq<Seq<char>>, inherited: Seq<Seq<char>>, section: Seq<Seq<char>>)
    ensures
        forall|k: int|
            0 <= k < directives_from(ls, inherited, section).len() ==> lists_no_wildcards(
                #[trigger] directives_from(ls, inherited, section)[k],
            ),
    decreases ls.len(),
{
    if ls.len() > 0 {
        let next = match heading(ls[0]) {
            Some(h) => inherited + h,
            None => section,
        };
        lemma_config_lists_no_wildcards(ls.drop_first(), inherited, next);
        let rest = directives_from(ls.drop_first(), inherited, next);
        let all = directives_from(ls, inherited, section);
        if heading(ls[0]) is None {
            match line_directive(ls[0], section) {
                Some(d) => {
                    assert(all == seq![d] + rest);
                    if d is Hosts {
                        let rest0 = directive(ls[0]).unwrap().1;
                        let ts = tokens(split_comment(rest0).0);
                        lemma_wildcards_never_listed(ts);
                        assert forall|a: int| 0 <= a < d->Hosts_aliases.len() implies free_of_wildcards(
                            #[trigger] d->Hosts_aliases[a],
                        ) by {
                            assert(unpatterned(ts).contains(d->Hosts_aliases[a]));
                        }
                    }
                    assert forall|k: int| 0 <= k < all.len() implies lists_no_wildcards(#[trigger] all[k]) by {
                        if k > 0 {
                            assert(all[k] == rest[k - 1]);
                        }
                    }
                },
                None => {},
            }
        }
    }
}

// ---------------------------------------------------------------------------
// The host list
// ---------------------------------------------------------------------------

pub open spec fn has_alias(hs: Seq<HostView>, a: Seq<char>) -> bool {
    exists|i: int| 0 <= i < hs.len() && (#[trigger] hs[i]).alias == a
}

/// No alias occurs twice.
pub open spec fn distinct_aliases(hs: Seq<HostView>) -> bool {
    forall|i: int, j: int| 0 <= i < j < hs.len() ==> (#[trigger] hs[i]).alias != (#[trigger] hs[j]).alias
}

/// `hs` after the aliases of one `Host` line: each alias not yet listed is
/// appended, in order, with the line's folder and note; an alias already
/// listed keeps its first entry.
pub open spec fn added(
    hs: Seq<HostView>,
    aliases: Seq<Seq<char>>,
    folder: Seq<Seq<char>>,
    note: Option<Seq<char>>,
) -> Seq<HostView>
    decreases aliases.len(),
{
    if aliases.len() == 0 {
        hs
    } else {
        let before = added(hs, aliases.drop_last(), folder, note);
        if has_alias(before, aliases.last()) {
            before
        } else {
            before.push(HostView { alias: aliases.last(), folder, note })
        }
    }
}

/// Appends the hosts of one `Host` line to the list read so far (see
/// [`added`]).
pub fn add_hosts(out: &mut Vec<Host>, aliases: &Vec<String>, folder: &Vec<String>, note: &Option<String>)
    ensures
        host_views(final(out)@) == added(
            host_views(old(out)@),
            string_views(aliases@),
            string_views(folder@),
            opt_view(*note),
        ),
{
    let ghost start = host_views(out@);
    let ghost als = string_views(aliases@);
    let mut i: usize = 0;
    while i < aliases.len()
        invariant
            i <= aliases.len(),
            als == string_views(aliases@),
            host_views(out@) == added(start, als.take(i as int), string_views(folder@), opt_view(*note)),
        decreases aliases.len() - i,
    {
        assert(als.take(i + 1).drop_last() =~= als.take(i as int));
        assert(als.take(i + 1).last() == aliases@[i as int]@);
        let mut present = false;
        let mut j: usize = 0;
        while j < out.len()
            invariant
                j <= out.len(),
                i < aliases.len(),
                !present ==> forall|m: int| 0 <= m < j ==> (#[trigger] out@[m])@.alias != aliases@[i as int]@,
                present ==> has_alias(host_views(out@), aliases@[i as int]@),
            decreases out.len() - j,
        {
            if !present && out[j].alias == aliases[i] {
                present = true;
                assert(host_views(out@)[j as int].alias == aliases@[i as int]@);
            }
            j = j + 1;
        }
        if !present {
            proof {
                assert forall|m: int| 0 <= m < host_views(out@).len() implies (#[trigger] host_views(out@)[m]).alias
                    != aliases@[i as int]@ by {
                    assert(host_views(out@)[m] == out@[m]@);
                }
            }
            let ghost before = out@;
            out.push(Host { alias: aliases[i].clone(), folder: clone_strings(folder), note: clone_opt(note) });
            assert(host_views(out@) =~= host_views(before).push(out@.last()@));
        }
        i = i + 1;
    }
    assert(als.take(aliases.len() as int) =~= als);
}

/// The host list is deduplicated by alias and keeps file order: adding a
/// `Host` line's aliases keeps every host already listed where it was, lists
/// each of the line's aliases, adds nothing else, and never lists an alias
/// twice.
pub proof fn lemma_added(
    hs: Seq<HostView>,
    aliases: Seq<Seq<char>>,
    folder: Seq<Seq<char>>,
    note: Option<Seq<char>>,
)
    requires
        distinct_aliases(hs),
    ensures
        distinct_aliases(added(hs, aliases, folder, note)),
        added(hs, aliases, folder, note).len() >= hs.len(),
        added(hs, aliases, folder, note).take(hs.len() as int) == hs,
        forall|k: int| 0 <= k < aliases.len() ==> has_alias(added(hs, aliases, folder, note), #[trigger] aliases[k]),
        forall|m: int|
            hs.len() <= m < added(hs, aliases, folder, note).len() ==> {
                let h = #[trigger] added(hs, aliases, folder, note)[m];
                &&& h.folder == folder
                &&& h.note == note
                &&& exists|k: int| 0 <= k < aliases.len() && aliases[k] == h.alias
            },
    decreases aliases.len(),
{
    let r = added(hs, aliases, folder, note);
    if aliases.len() == 0 {
        assert(hs.take(hs.len() as int) =~= hs);
    } else {
        let prev = aliases.drop_last();
        lemma_added(hs, prev, folder, note);
        let before = added(hs, prev, folder, note);
        assert forall|k: int| 0 <= k < aliases.len() implies has_alias(r, #[trigger] aliases[k]) by {
            if k < aliases.len() - 1 {
                assert(prev[k] == aliases[k]);
                assert(has_alias(before, prev[k]));
                let w = choose|w: int| 0 <= w < before.len() && (#[trigger] before[w]).alias == prev[k];
                assert(r[w] == before[w]);
            } else if !has_alias(before, aliases.last()) {
                assert(r[before.len() as int].alias == aliases.last());
            }
        }
        if !has_alias(before, aliases.last()) {
            assert(r.take(hs.len() as int) =~= before.take(hs.len() as int));
            assert forall|m: int| hs.len() <= m < r.len() implies {
                let h = #[trigger] r[m];
                &&& h.folder == folder
                &&& h.note == note
                &&& exists|k: int| 0 <= k < aliases.len() && aliases[k] == h.alias
            } by {
                if m < before.len() {
                    assert(r[m] == before[m]);
                    let k = choose|k: int| 0 <= k < prev.len() && prev[k] == before[m].alias;
                    assert(aliases[k] == prev[k]);
                } else {
                    assert(aliases[aliases.len() - 1] == r[m].alias);
                }
            }
        } else {
            assert forall|m: int| hs.len() <= m < r.len() implies {
                let h = #[trigger] r[m];
                &&& h.folder == folder
                &&& h.note == note
                &&& exists|k: int| 0 <= k < aliases.len() && aliases[k] == h.alias
            } by {
                let k = choose|k: int| 0 <= k < prev.len() && prev[k] == before[m].alias;
                assert(aliases[k] == prev[k]);
            }
        }
    }
}

/// `Host *.example.com` is not inventory: the aliases a `Host` line lists
/// are its tokens that are not patterns, in order.
pub proof fn lemma_unpatterned(ts: Seq<Seq<char>>)
    ensures
        forall|i: int| 0 <= i < unpatterned(ts).len() ==> !is_pattern_token(#[trigger] unpatterned(ts)[i])
            && ts.contains(unpatterned(ts)[i]),
        forall|i: int| 0 <= i < ts.len() && !is_pattern_token(#[trigger] ts[i]) ==> unpatterned(ts).contains(ts[i]),
    decreases ts.len(),
{
    if ts.len() > 0 {
        let prev = ts.drop_last();
        lemma_unpatterned(prev);
        assert forall|i: int| 0 <= i < unpatterned(ts).len() implies !is_pattern_token(#[trigger] unpatterned(ts)[i])
            && ts.contains(unpatterned(ts)[i]) by {
            if i < unpatterned(prev).len() {
                assert(unpatterned(ts)[i] == unpatterned(prev)[i]);
                let k = choose|k: int| 0 <= k < prev.len() && prev[k] == unpatterned(prev)[i];
                assert(ts[k] == prev[k]);
            } else {
                assert(ts[ts.len() - 1] == ts.last());
            }
        }
        assert forall|i: int| 0 <= i < ts.len() && !is_pattern_token(#[trigger] ts[i]) implies unpatterned(ts).contains(ts[i]) by {
            if i < ts.len() - 1 {
                assert(prev[i] == ts[i]);
                let k = choose|k: int| 0 <= k < unpatterned(prev).len() && unpatterned(prev)[k] == prev[i];
                assert(unpatterned(ts)[k] == unpatterned(prev)[k]);
            } else {
                assert(unpatterned(ts).last() == ts[i]);
                assert(unpatterned(ts)[unpatterned(ts).len() - 1] == ts[i]);
            }
        }
    }
}

} // verus!
