//! Text primitives over the character sequence of a string.
//!
//! Every function here works on the `Seq<char>` view of a string and states
//! its result over the spec functions below, which describe the `str` methods
//! the configuration readers rely on (`trim`, `lines`, `split`,
//! `split_whitespace`, `join`, ...).

use vstd::prelude::*;

verus! {

// ---------------------------------------------------------------------------
// What the standard library decides for us
// ---------------------------------------------------------------------------

/// Whether `char::is_whitespace` holds of `c`: the Unicode `White_Space`
/// property, which 25 code points have: U+0009 to U+000D, U+0020, U+0085,
/// U+00A0, U+1680, U+2000 to U+200A, U+2028, U+2029, U+202F, U+205F and
/// U+3000.
pub open spec fn is_white(c: char) -> bool {
    let u = c as u32;
    (0x9 <= u && u <= 0xd) || u == 0x20 || u == 0x85 || u == 0xa0 || u == 0x1680 || (0x2000 <= u && u
        <= 0x200a) || u == 0x2028 || u == 0x2029 || u == 0x202f || u == 0x205f || u == 0x3000
}

/// The characters `char::to_lowercase` yields for `c` (Unicode lowercase
/// mapping; one or more characters).
pub uninterp spec fn lower(c: char) -> Seq<char>;

/// Calls `char::is_whitespace`. The contract claims the result is the
/// `White_Space` property of `c`, spelt out in [`is_white`].
#[verifier::external_body]
pub(crate) fn is_whitespace(c: char) -> (b: bool)
    ensures
        b == is_white(c),
{
    c.is_whitespace()
}

/// Calls `char::to_lowercase` and collects what it yields. The contract names
/// the result [`lower`], which depends on `c` alone, and claims the documented
/// fact that the mapping yields at least one character.
#[verifier::external_body]
pub(crate) fn to_lowercase(c: char) -> (r: Vec<char>)
    ensures
        r@ == lower(c),
        r@.len() >= 1,
{
    c.to_lowercase().collect()
}

/// `String::push` appends one character.
pub assume_specification[ String::push ](s: &mut String, ch: char)
    ensures
        final(s)@ == old(s)@.push(ch),
;

/// `String::pop` removes and returns the last character, or returns `None`
/// and leaves an empty string alone.
pub assume_specification[ String::pop ](s: &mut String) -> (r: Option<char>)
    ensures
        old(s)@.len() == 0 ==> r is None && final(s)@ == old(s)@,
        old(s)@.len() > 0 ==> r == Some(old(s)@.last()) && final(s)@ == old(s)@.drop_last(),
;

// ---------------------------------------------------------------------------
// Character classes
// ---------------------------------------------------------------------------

/// The sets of characters that the scanners below stop at or skip over.
#[derive(Clone, Copy)]
pub enum CharClass {
    /// `char::is_whitespace`.
    White,
    /// Anything that is not whitespace.
    Dark,
    /// Exactly this character.
    Is(char),
    /// Any character but this one.
    Other(char),
    /// Space, tab or `=`: what separates a keyword from its arguments.
    Separator,
    /// Anything but a [`CharClass::Separator`].
    Word,
}

pub open spec fn in_class(cls: CharClass, c: char) -> bool {
    match cls {
        CharClass::White => is_white(c),
        CharClass::Dark => !is_white(c),
        CharClass::Is(x) => c == x,
        CharClass::Other(x) => c != x,
        CharClass::Separator => c == ' ' || c == '\t' || c == '=',
        CharClass::Word => !(c == ' ' || c == '\t' || c == '='),
    }
}

pub fn class_has(cls: CharClass, c: char) -> (b: bool)
    ensures
        b == in_class(cls, c),
{
    match cls {
        CharClass::White => is_whitespace(c),
        CharClass::Dark => !is_whitespace(c),
        CharClass::Is(x) => c == x,
        CharClass::Other(x) => c != x,
        CharClass::Separator => c == ' ' || c == '\t' || c == '=',
        CharClass::Word => !(c == ' ' || c == '\t' || c == '='),
    }
}

// ---------------------------------------------------------------------------
// Specifications of the string operations
// ---------------------------------------------------------------------------

/// Number of leading characters of `s` in `cls`.
pub open spec fn lead(s: Seq<char>, cls: CharClass) -> nat
    decreases s.len(),
{
    if s.len() > 0 && in_class(cls, s[0]) {
        1 + lead(s.drop_first(), cls)
    } else {
        0
    }
}

/// Number of trailing characters of `s` in `cls`.
pub open spec fn trail(s: Seq<char>, cls: CharClass) -> nat
    decreases s.len(),
{
    if s.len() > 0 && in_class(cls, s.last()) {
        1 + trail(s.drop_last(), cls)
    } else {
        0
    }
}

/// `trim_start_matches`: `s` without its leading characters in `cls`.
pub open spec fn strip_start(s: Seq<char>, cls: CharClass) -> Seq<char> {
    s.skip(lead(s, cls) as int)
}

/// `trim_end_matches`: `s` without its trailing characters in `cls`.
pub open spec fn strip_end(s: Seq<char>, cls: CharClass) -> Seq<char> {
    s.take(s.len() - trail(s, cls))
}

/// `trim_matches`: both ends.
pub open spec fn strip(s: Seq<char>, cls: CharClass) -> Seq<char> {
    strip_end(strip_start(s, cls), cls)
}

/// `str::trim`.
pub open spec fn trim(s: Seq<char>) -> Seq<char> {
    strip(s, CharClass::White)
}

/// Position of the first `c` in `s`, or `s.len()` when there is none.
pub open spec fn find(s: Seq<char>, c: char) -> nat {
    lead(s, CharClass::Other(c))
}

pub open spec fn contains_char(s: Seq<char>, c: char) -> bool {
    exists|i: int| 0 <= i < s.len() && s[i] == c
}

/// A line without the `\r` of a `\r\n` ending.
pub open spec fn strip_cr(l: Seq<char>) -> Seq<char> {
    if l.len() > 0 && l.last() == '\r' {
        l.drop_last()
    } else {
        l
    }
}

/// `str::lines`: split at `\n`, drop a `\r` right before it, and no empty
/// line after a final line ending.
pub open spec fn lines(s: Seq<char>) -> Seq<Seq<char>>
    decreases s.len(),
{
    if s.len() == 0 {
        seq![]
    } else {
        let i = find(s, '\n');
        if i >= s.len() {
            seq![s]
        } else {
            seq![strip_cr(s.take(i as int))] + lines(s.skip(i + 1int))
        }
    }
}

/// `str::split` on one character: the pieces between separators, empty ones
/// included.
pub open spec fn split(s: Seq<char>, c: char) -> Seq<Seq<char>>
    decreases s.len(),
{
    let i = find(s, c);
    if i >= s.len() {
        seq![s]
    } else {
        seq![s.take(i as int)] + split(s.skip(i + 1int), c)
    }
}

/// `str::split_whitespace`: the maximal runs of non-whitespace characters.
pub open spec fn words(s: Seq<char>) -> Seq<Seq<char>>
    decreases s.len(),
{
    let t = strip_start(s, CharClass::White);
    if t.len() == 0 {
        seq![]
    } else {
        let n = lead(t, CharClass::Dark);
        proof {
            lemma_lead_bound(s, CharClass::White);
            lemma_lead_bound(t, CharClass::Dark);
        }
        if n == 0 {
            seq![]
        } else {
            seq![t.take(n as int)] + words(t.skip(n as int))
        }
    }
}

/// `[..].join(sep)`.
pub open spec fn join(parts: Seq<Seq<char>>, sep: Seq<char>) -> Seq<char>
    decreases parts.len(),
{
    if parts.len() == 0 {
        seq![]
    } else if parts.len() == 1 {
        parts[0]
    } else {
        join(parts.drop_last(), sep) + sep + parts.last()
    }
}

/// `char::to_ascii_lowercase`: `A`..`Z` become `a`..`z`, every other
/// character stays.
pub open spec fn ascii_lower(c: char) -> char {
    if 'A' <= c && c <= 'Z' {
        ((c as u32) + 32) as char
    } else {
        c
    }
}

/// `char::to_ascii_uppercase`: `a`..`z` become `A`..`Z`, every other
/// character stays.
pub open spec fn ascii_upper(c: char) -> char {
    if 'a' <= c && c <= 'z' {
        ((c as u32) - 32) as char
    } else {
        c
    }
}

/// The lowercase mapping of `c`: for ASCII, [`ascii_lower`] (Unicode maps
/// `A`..`Z` to `a`..`z` and leaves the rest of ASCII alone); beyond ASCII,
/// what `char::to_lowercase` yields.
pub open spec fn lower_of(c: char) -> Seq<char> {
    if (c as u32) < 128 {
        seq![ascii_lower(c)]
    } else {
        lower(c)
    }
}

/// The characters of `s` passed through `char::to_lowercase`, flattened.
pub open spec fn lower_all(s: Seq<char>) -> Seq<char>
    decreases s.len(),
{
    if s.len() == 0 {
        seq![]
    } else {
        lower_all(s.drop_last()) + lower_of(s.last())
    }
}

/// The lowercase mapping of one character (see [`lower_of`]).
pub fn lower_char(c: char) -> (out: Vec<char>)
    ensures
        out@ == lower_of(c),
{
    if (c as u32) < 128 {
        let l = if 'A' <= c && c <= 'Z' {
            let code: u8 = ((c as u32) + 32) as u8;
            code as char
        } else {
            c
        };
        let out = vec![l];
        out
    } else {
        to_lowercase(c)
    }
}

/// The views of a sequence of character vectors.
pub open spec fn views(v: Seq<Vec<char>>) -> Seq<Seq<char>> {
    v.map_values(|x: Vec<char>| x@)
}

/// The views of a sequence of strings.
pub open spec fn string_views(v: Seq<String>) -> Seq<Seq<char>> {
    v.map_values(|x: String| x@)
}

// ---------------------------------------------------------------------------
// Lemmas
// ---------------------------------------------------------------------------

pub proof fn lemma_lead_bound(s: Seq<char>, cls: CharClass)
    ensures
        lead(s, cls) <= s.len(),
        forall|j: int| 0 <= j < lead(s, cls) ==> in_class(cls, #[trigger] s[j]),
        lead(s, cls) < s.len() ==> !in_class(cls, s[lead(s, cls) as int]),
    decreases s.len(),
{
    if s.len() > 0 && in_class(cls, s[0]) {
        lemma_lead_bound(s.drop_first(), cls);
        assert forall|j: int| 0 <= j < lead(s, cls) implies in_class(cls, #[trigger] s[j]) by {
            if j > 0 {
                assert(s[j] == s.drop_first()[j - 1]);
            }
        }
    }
}

pub proof fn lemma_trail_bound(s: Seq<char>, cls: CharClass)
    ensures
        trail(s, cls) <= s.len(),
        forall|j: int| s.len() - trail(s, cls) <= j < s.len() ==> in_class(cls, #[trigger] s[j]),
        trail(s, cls) < s.len() ==> !in_class(cls, s[s.len() - trail(s, cls) - 1]),
    decreases s.len(),
{
    if s.len() > 0 && in_class(cls, s.last()) {
        lemma_trail_bound(s.drop_last(), cls);
        assert forall|j: int| s.len() - trail(s, cls) <= j < s.len() implies in_class(
            cls,
            #[trigger] s[j],
        ) by {
            if j < s.len() - 1 {
                assert(s[j] == s.drop_last()[j]);
            }
        }
    }
}

/// Stepping over one leading character in the class.
proof fn lemma_lead_step(s: Seq<char>, i: int, cls: CharClass)
    requires
        0 <= i < s.len(),
        in_class(cls, s[i]),
    ensures
        lead(s.skip(i), cls) == 1 + lead(s.skip(i + 1), cls),
{
    assert(s.skip(i).drop_first() =~= s.skip(i + 1));
}

/// A character outside the class ends the run.
proof fn lemma_lead_stop(s: Seq<char>, i: int, cls: CharClass)
    requires
        0 <= i <= s.len(),
        i == s.len() || !in_class(cls, s[i]),
    ensures
        lead(s.skip(i), cls) == 0,
{
}

proof fn lemma_trail_step(s: Seq<char>, j: int, cls: CharClass)
    requires
        0 < j <= s.len(),
        in_class(cls, s[j - 1]),
    ensures
        trail(s.take(j), cls) == 1 + trail(s.take(j - 1), cls),
{
    assert(s.take(j).drop_last() =~= s.take(j - 1));
}

// ---------------------------------------------------------------------------
// Executable operations
// ---------------------------------------------------------------------------

/// The characters of `s`, in order.
pub fn chars_of(s: &str) -> (out: Vec<char>)
    ensures
        out@ == s@,
{
    let mut out: Vec<char> = Vec::new();
    for c in it: s.chars()
        invariant
            it.seq() == s@,
            out@ == it.seq().take(it.index() as int),
    {
        out.push(c);
    }
    out
}

/// A string holding exactly the characters `v[lo..hi]`.
pub fn string_of_range(v: &Vec<char>, lo: usize, hi: usize) -> (s: String)
    requires
        lo <= hi <= v.len(),
    ensures
        s@ == v@.subrange(lo as int, hi as int),
{
    let mut s = String::new();
    let mut i = lo;
    while i < hi
        invariant
            lo <= i <= hi <= v.len(),
            s@ == v@.subrange(lo as int, i as int),
        decreases hi - i,
    {
        s.push(v[i]);
        assert(v@.subrange(lo as int, i + 1) =~= v@.subrange(lo as int, i as int).push(v@[i as int]));
        i = i + 1;
    }
    s
}

/// A string holding exactly the characters of `v`.
pub fn string_of(v: &Vec<char>) -> (s: String)
    ensures
        s@ == v@,
{
    let s = string_of_range(v, 0, v.len());
    assert(v@.subrange(0, v@.len() as int) =~= v@);
    s
}

/// A copy of `v[lo..hi]`.
pub fn copy_range(v: &Vec<char>, lo: usize, hi: usize) -> (out: Vec<char>)
    requires
        lo <= hi <= v.len(),
    ensures
        out@ == v@.subrange(lo as int, hi as int),
{
    let mut out: Vec<char> = Vec::new();
    let mut i = lo;
    while i < hi
        invariant
            lo <= i <= hi <= v.len(),
            out@ == v@.subrange(lo as int, i as int),
        decreases hi - i,
    {
        out.push(v[i]);
        assert(v@.subrange(lo as int, i + 1) =~= v@.subrange(lo as int, i as int).push(v@[i as int]));
        i = i + 1;
    }
    out
}

/// Index of the first character at or after `from` that is not in `cls`
/// (`v.len()` when there is none).
pub fn lead_from(v: &Vec<char>, from: usize, cls: CharClass) -> (end: usize)
    requires
        from <= v.len(),
    ensures
        end == from + lead(v@.skip(from as int), cls),
        from <= end <= v.len(),
{
    let mut i = from;
    while i < v.len() && class_has(cls, v[i])
        invariant
            from <= i <= v.len(),
            lead(v@.skip(from as int), cls) == (i - from) + lead(v@.skip(i as int), cls),
        decreases v.len() - i,
    {
        proof {
            lemma_lead_step(v@, i as int, cls);
        }
        i = i + 1;
    }
    proof {
        lemma_lead_stop(v@, i as int, cls);
    }
    i
}

/// Index just past the last character before `to` that is not in `cls`
/// (`0` when there is none).
pub fn trail_before(v: &Vec<char>, to: usize, cls: CharClass) -> (start: usize)
    requires
        to <= v.len(),
    ensures
        start + trail(v@.take(to as int), cls) == to,
{
    let mut j = to;
    while j > 0 && class_has(cls, v[j - 1])
        invariant
            j <= to <= v.len(),
            trail(v@.take(to as int), cls) == (to - j) + trail(v@.take(j as int), cls),
        decreases j,
    {
        proof {
            lemma_trail_step(v@, j as int, cls);
        }
        j = j - 1;
    }
    j
}

/// `s.trim_matches(cls)` as characters.
pub fn stripped(v: &Vec<char>, cls: CharClass) -> (out: Vec<char>)
    ensures
        out@ == strip(v@, cls),
{
    let lo = lead_from(v, 0, cls);
    assert(v@.skip(0) =~= v@);
    let ghost t = v@.skip(lo as int);
    let hi = trail_before(v, v.len(), cls);
    assert(v@.take(v.len() as int) =~= v@);
    proof {
        lemma_trail_bound(v@, cls);
        lemma_lead_bound(v@, cls);
    }
    if hi <= lo {
        // Every character is in the class.
        proof {
            assert forall|j: int| 0 <= j < t.len() implies in_class(cls, #[trigger] t[j]) by {
                assert(t[j] == v@[lo + j]);
            }
            lemma_all_in_class_trail(t, cls);
        }
        assert(t.take(0) =~= Seq::<char>::empty());
        return Vec::new();
    }
    proof {
        lemma_trail_of_skip(v@, lo as int, cls);
    }
    let out = copy_range(v, lo, hi);
    assert(out@ =~= t.take(t.len() - trail(t, cls)));
    out
}

/// `s.trim()` as characters.
pub fn trimmed(v: &Vec<char>) -> (out: Vec<char>)
    ensures
        out@ == trim(v@),
{
    stripped(v, CharClass::White)
}

/// When every character is in the class, the trailing run is everything.
proof fn lemma_all_in_class_trail(s: Seq<char>, cls: CharClass)
    requires
        forall|j: int| 0 <= j < s.len() ==> in_class(cls, #[trigger] s[j]),
    ensures
        trail(s, cls) == s.len(),
    decreases s.len(),
{
    if s.len() > 0 {
        assert forall|j: int| 0 <= j < s.drop_last().len() implies in_class(
            cls,
            #[trigger] s.drop_last()[j],
        ) by {
            assert(s.drop_last()[j] == s[j]);
        }
        lemma_all_in_class_trail(s.drop_last(), cls);
    }
}

/// The trailing run is unaffected by dropping a prefix that it does not reach.
proof fn lemma_trail_of_skip(s: Seq<char>, k: int, cls: CharClass)
    requires
        0 <= k <= s.len(),
        trail(s, cls) < s.len() - k,
    ensures
        trail(s.skip(k), cls) == trail(s, cls),
    decreases s.len(),
{
    if s.len() > 0 && in_class(cls, s.last()) {
        assert(s.skip(k).drop_last() =~= s.drop_last().skip(k));
        lemma_trail_of_skip(s.drop_last(), k, cls);
    }
}

/// `s.lines()` as character vectors.
pub fn lines_of(v: &Vec<char>) -> (out: Vec<Vec<char>>)
    ensures
        views(out@) == lines(v@),
{
    let mut out: Vec<Vec<char>> = Vec::new();
    let mut pos: usize = 0;
    assert(v@.skip(0) =~= v@);
    while pos < v.len()
        invariant
            pos <= v.len(),
            views(out@) + lines(v@.skip(pos as int)) == lines(v@),
        decreases v.len() - pos,
    {
        let ghost s = v@.skip(pos as int);
        let ghost before = out@;
        let i = lead_from(v, pos, CharClass::Other('\n'));
        proof {
            lemma_lead_bound(s, CharClass::Other('\n'));
        }
        if i >= v.len() {
            let line = copy_range(v, pos, v.len());
            assert(line@ =~= s);
            out.push(line);
            assert(lines(s) == seq![s]);
            assert(v@.skip(v.len() as int) =~= Seq::<char>::empty());
            assert(views(out@) =~= views(before).push(line@));
            assert(views(out@) + lines(v@.skip(v.len() as int)) =~= views(before) + lines(s));
            pos = v.len();
        } else {
            let mut hi = i;
            if hi > pos && v[hi - 1] == '\r' {
                hi = hi - 1;
            }
            let line = copy_range(v, pos, hi);
            assert(s.take(i - pos) =~= v@.subrange(pos as int, i as int));
            assert(line@ =~= strip_cr(s.take(i - pos)));
            assert(s.skip(i - pos + 1) =~= v@.skip(i + 1));
            out.push(line);
            assert(views(out@) =~= views(before).push(line@));
            assert(lines(s) == seq![strip_cr(s.take(i - pos))] + lines(v@.skip(i + 1)));
            assert(views(out@) + lines(v@.skip(i + 1)) =~= views(before) + lines(s));
            pos = i + 1;
        }
    }
    assert(views(out@) + lines(v@.skip(pos as int)) =~= views(out@));
    out
}

/// `s.split(c)` as character vectors.
pub fn split_of(v: &Vec<char>, c: char) -> (out: Vec<Vec<char>>)
    ensures
        views(out@) == split(v@, c),
{
    let mut out: Vec<Vec<char>> = Vec::new();
    let mut pos: usize = 0;
    assert(v@.skip(0) =~= v@);
    loop
        invariant
            pos <= v.len(),
            views(out@) + split(v@.skip(pos as int), c) == split(v@, c),
        decreases v.len() - pos,
    {
        let ghost s = v@.skip(pos as int);
        let ghost before = out@;
        let i = lead_from(v, pos, CharClass::Other(c));
        proof {
            lemma_lead_bound(s, CharClass::Other(c));
        }
        if i >= v.len() {
            let piece = copy_range(v, pos, v.len());
            assert(piece@ =~= s);
            out.push(piece);
            assert(views(out@) =~= views(before).push(piece@));
            assert(views(out@) =~= views(before) + split(s, c));
            return out;
        }
        let piece = copy_range(v, pos, i);
        assert(s.take(i - pos) =~= piece@);
        assert(s.skip(i - pos + 1) =~= v@.skip(i + 1));
        out.push(piece);
        assert(views(out@) =~= views(before).push(piece@));
        assert(split(s, c) == seq![piece@] + split(v@.skip(i + 1), c));
        assert(views(out@) + split(v@.skip(i + 1), c) =~= views(before) + split(s, c));
        pos = i + 1;
    }
}

/// `s.split_whitespace()` as character vectors.
pub fn words_of(v: &Vec<char>) -> (out: Vec<Vec<char>>)
    ensures
        views(out@) == words(v@),
{
    let mut out: Vec<Vec<char>> = Vec::new();
    let mut pos: usize = 0;
    assert(v@.skip(0) =~= v@);
    loop
        invariant
            pos <= v.len(),
            views(out@) + words(v@.skip(pos as int)) == words(v@),
        decreases v.len() - pos,
    {
        let ghost s = v@.skip(pos as int);
        let ghost before = out@;
        let start = lead_from(v, pos, CharClass::White);
        proof {
            lemma_lead_bound(s, CharClass::White);
        }
        let ghost t = s.skip(start - pos);
        assert(t =~= v@.skip(start as int));
        if start >= v.len() {
            assert(words(s) == Seq::<Seq<char>>::empty());
            assert(views(out@) =~= views(out@) + words(s));
            return out;
        }
        let end = lead_from(v, start, CharClass::Dark);
        proof {
            lemma_lead_bound(t, CharClass::Dark);
        }
        let word = copy_range(v, start, end);
        assert(t.take(end - start) =~= word@);
        assert(t.skip(end - start) =~= v@.skip(end as int));
        out.push(word);
        assert(views(out@) =~= views(before).push(word@));
        assert(words(s) == seq![word@] + words(v@.skip(end as int)));
        assert(views(out@) + words(v@.skip(end as int)) =~= views(before) + words(s));
        pos = end;
    }
}

proof fn lemma_join_step(parts: Seq<Seq<char>>, sep: Seq<char>, i: int)
    requires
        1 <= i < parts.len(),
    ensures
        join(parts.take(i + 1), sep) == join(parts.take(i), sep) + sep + parts[i],
{
    assert(parts.take(i + 1).drop_last() =~= parts.take(i));
}

/// `parts.join(sep)`.
pub fn join_strings(parts: &Vec<String>, sep: &str) -> (out: String)
    ensures
        out@ == join(string_views(parts@), sep@),
{
    let ghost all = string_views(parts@);
    if parts.len() == 0 {
        return String::new();
    }
    let mut out = parts[0].clone();
    assert(all.take(1) =~= seq![parts@[0]@]);
    let mut i: usize = 1;
    while i < parts.len()
        invariant
            1 <= i <= parts.len(),
            all == string_views(parts@),
            out@ == join(all.take(i as int), sep@),
        decreases parts.len() - i,
    {
        proof {
            lemma_join_step(all, sep@, i as int);
        }
        out.append(sep);
        out.append(parts[i].as_str());
        i = i + 1;
    }
    assert(all.take(parts.len() as int) =~= all);
    out
}

/// The characters of `v` passed through `char::to_lowercase`, flattened.
pub fn lowered(v: &Vec<char>) -> (out: Vec<char>)
    ensures
        out@ == lower_all(v@),
{
    let mut out: Vec<char> = Vec::new();
    let mut i: usize = 0;
    while i < v.len()
        invariant
            i <= v.len(),
            out@ == lower_all(v@.take(i as int)),
        decreases v.len() - i,
    {
        let mut l = lower_char(v[i]);
        assert(v@.take(i + 1).drop_last() =~= v@.take(i as int));
        out.append(&mut l);
        i = i + 1;
    }
    assert(v@.take(v.len() as int) =~= v@);
    out
}

/// The decimal digits of `n`.
pub open spec fn decimal(n: nat) -> Seq<char>
    decreases n,
{
    if n < 10 {
        seq![digit(n)]
    } else {
        decimal(n / 10).push(digit(n % 10))
    }
}

pub open spec fn digit(d: nat) -> char {
    if d == 0 {
        '0'
    } else if d == 1 {
        '1'
    } else if d == 2 {
        '2'
    } else if d == 3 {
        '3'
    } else if d == 4 {
        '4'
    } else if d == 5 {
        '5'
    } else if d == 6 {
        '6'
    } else if d == 7 {
        '7'
    } else if d == 8 {
        '8'
    } else {
        '9'
    }
}

pub fn digit_char(d: usize) -> (c: char)
    requires
        d < 10,
    ensures
        c == digit(d as nat),
{
    if d == 0 {
        '0'
    } else if d == 1 {
        '1'
    } else if d == 2 {
        '2'
    } else if d == 3 {
        '3'
    } else if d == 4 {
        '4'
    } else if d == 5 {
        '5'
    } else if d == 6 {
        '6'
    } else if d == 7 {
        '7'
    } else if d == 8 {
        '8'
    } else {
        '9'
    }
}

pub fn push_decimal(s: &mut String, n: usize)
    ensures
        final(s)@ == old(s)@ + decimal(n as nat),
    decreases n,
{
    if n < 10 {
        s.push(digit_char(n));
        assert(decimal(n as nat) =~= seq![digit(n as nat)]);
    } else {
        push_decimal(s, n / 10);
        s.push(digit_char(n % 10));
        assert(decimal(n as nat) =~= decimal((n / 10) as nat).push(digit((n % 10) as nat)));
    }
}



/// The number a string of decimal digits spells, most significant first.
pub open spec fn numeral_value(s: Seq<char>) -> int
    decreases s.len(),
{
    if s.len() == 0 {
        0
    } else {
        numeral_value(s.drop_last()) * 10 + ((s.last() as u32) - 48)
    }
}

/// `c` is one of `0` to `9`.
pub open spec fn is_decimal_digit(c: char) -> bool {
    '0' <= c && c <= '9'
}

/// [`decimal`] writes `n` in base ten: a non-empty run of the characters `0`
/// to `9` that spells `n` back, with no leading zero.
pub proof fn lemma_decimal_spells(n: nat)
    ensures
        decimal(n).len() > 0,
        forall|j: int| 0 <= j < decimal(n).len() ==> is_decimal_digit(#[trigger] decimal(n)[j]),
        numeral_value(decimal(n)) == n,
        n > 0 ==> decimal(n)[0] != '0',
    decreases n,
{
    if n < 10 {
        assert(decimal(n) == seq![digit(n)]);
        assert(seq![digit(n)].drop_last() =~= Seq::<char>::empty());
        assert((digit(n) as u32) == 48 + n) by {
            if n == 0 {} else if n == 1 {} else if n == 2 {} else if n == 3 {} else if n == 4 {}
            else if n == 5 {} else if n == 6 {} else if n == 7 {} else if n == 8 {} else {}
        }
        assert(numeral_value(Seq::<char>::empty()) == 0);
        assert(seq![digit(n)].last() == digit(n));
        assert(numeral_value(seq![digit(n)]) == n);
    } else {
        let m = n / 10;
        let d = n % 10;
        lemma_decimal_spells(m);
        let s = decimal(m).push(digit(d));
        assert(decimal(n) == s);
        assert(s.drop_last() =~= decimal(m));
        assert((digit(d) as u32) == 48 + d) by {
            if d == 0 {} else if d == 1 {} else if d == 2 {} else if d == 3 {} else if d == 4 {}
            else if d == 5 {} else if d == 6 {} else if d == 7 {} else if d == 8 {} else {}
        }
        assert(m * 10 + d == n) by (nonlinear_arith)
            requires
                m == n / 10,
                d == n % 10,
        ;
        assert(m > 0) by (nonlinear_arith)
            requires
                m == n / 10,
                n >= 10,
        ;
        assert forall|j: int| 0 <= j < s.len() implies is_decimal_digit(#[trigger] s[j]) by {
            if j < decimal(m).len() {
                assert(s[j] == decimal(m)[j]);
            }
        }
        assert(s[0] == decimal(m)[0]);
        assert(s.last() == digit(d));
        assert(numeral_value(s) == numeral_value(decimal(m)) * 10 + ((digit(d) as u32) - 48));
    }
}

/// Different numbers are written differently.
pub proof fn lemma_decimal_injective(a: nat, b: nat)
    ensures
        decimal(a) == decimal(b) <==> a == b,
{
    lemma_decimal_spells(a);
    lemma_decimal_spells(b);
}

} // verus!
