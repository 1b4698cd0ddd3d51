//! Starred hosts.
//!
//! The only thing the picker writes. It goes to the plugin state directory,
//! never to the ssh config: one alias per line, sorted, so that repeated
//! writes of the same set give the same file.

use vstd::prelude::*;
use crate::text::{
    chars_of, join, join_strings, lines, lines_of, string_of, string_views, trim, trimmed, views,
    strip_cr, find, lead, trail, strip_start, lemma_lead_bound, lemma_trail_bound, CharClass,
};

verus! {

// ---------------------------------------------------------------------------
// Reading
// ---------------------------------------------------------------------------

/// A line names a favorite unless it is blank or a `#` comment.
pub open spec fn is_entry(t: Seq<char>) -> bool {
    t.len() > 0 && t[0] != '#'
}

/// The favorites a file's lines name: each line trimmed, blank lines and
/// comments skipped, in file order.
pub open spec fn entries(ls: Seq<Seq<char>>) -> Seq<Seq<char>>
    decreases ls.len(),
{
    if ls.len() == 0 {
        seq![]
    } else if is_entry(trim(ls.last())) {
        entries(ls.drop_last()).push(trim(ls.last()))
    } else {
        entries(ls.drop_last())
    }
}

/// The favorites named by the text of a favorites file. Hand edits with
/// blanks and comments survive a read.
pub fn parse_list(text: &str) -> (out: Vec<String>)
    ensures
        string_views(out@) == entries(lines(text@)),
{
    let ls = lines_of(&chars_of(text));
    let ghost all = views(ls@);
    let mut out: Vec<String> = Vec::new();
    let mut i: usize = 0;
    while i < ls.len()
        invariant
            i <= ls.len(),
            all == views(ls@),
            string_views(out@) == entries(all.take(i as int)),
        decreases ls.len() - i,
    {
        let t = trimmed(&ls[i]);
        assert(all.take(i + 1).drop_last() =~= all.take(i as int));
        assert(all.take(i + 1).last() == ls@[i as int]@);
        if t.len() > 0 && t[0] != '#' {
            let ghost before = out@;
            out.push(string_of(&t));
            assert(string_views(out@) =~= string_views(before).push(t@));
        }
        i = i + 1;
    }
    assert(all.take(ls.len() as int) =~= all);
    out
}

// ---------------------------------------------------------------------------
// Order
// ---------------------------------------------------------------------------

/// `a` sorts strictly before `b`: `str`'s order, which compares characters
/// by code point, a proper prefix first.
pub open spec fn before(a: Seq<char>, b: Seq<char>) -> bool
    decreases a.len(),
{
    if b.len() == 0 {
        false
    } else if a.len() == 0 {
        true
    } else if a[0] != b[0] {
        a[0] < b[0]
    } else {
        before(a.drop_first(), b.drop_first())
    }
}

pub open spec fn sorted(s: Seq<Seq<char>>) -> bool {
    forall|i: int, j: int| 0 <= i < j < s.len() ==> before(#[trigger] s[i], #[trigger] s[j])
}

proof fn lemma_before_irreflexive(a: Seq<char>)
    ensures
        !before(a, a),
    decreases a.len(),
{
    if a.len() > 0 {
        lemma_before_irreflexive(a.drop_first());
    }
}

proof fn lemma_before_total(a: Seq<char>, b: Seq<char>)
    ensures
        before(a, b) || a == b || before(b, a),
    decreases a.len(),
{
    if a.len() > 0 && b.len() > 0 && a[0] == b[0] {
        lemma_before_total(a.drop_first(), b.drop_first());
        if a.drop_first() == b.drop_first() {
            assert(a =~= seq![a[0]] + a.drop_first());
            assert(b =~= seq![b[0]] + b.drop_first());
        }
    } else if a.len() == 0 && b.len() == 0 {
        assert(a =~= b);
    } else if a.len() > 0 && b.len() > 0 {
        assert(a[0] != b[0]);
    }
}

proof fn lemma_before_transitive(a: Seq<char>, b: Seq<char>, c: Seq<char>)
    requires
        before(a, b),
        before(b, c),
    ensures
        before(a, c),
    decreases a.len(),
{
    if a.len() > 0 && a[0] == b[0] && b[0] == c[0] {
        lemma_before_transitive(a.drop_first(), b.drop_first(), c.drop_first());
    }
}

/// Inserts `x` into the sorted list `s` where it belongs.
fn insert_sorted(s: &mut Vec<String>, x: String)
    requires
        sorted(string_views(old(s)@)),
        !string_views(old(s)@).contains(x@),
    ensures
        sorted(string_views(final(s)@)),
        string_views(final(s)@).to_set() == string_views(old(s)@).to_set().insert(x@),
        string_views(final(s)@).len() == string_views(old(s)@).len() + 1,
        string_views(old(s)@).no_duplicates() ==> string_views(final(s)@).no_duplicates(),
{
    let ghost v = string_views(s@);
    let xv = chars_of(x.as_str());
    let mut p: usize = 0;
    while p < s.len() && !precedes_string(&xv, &s[p])
        invariant
            p <= s.len(),
            v == string_views(s@),
            xv@ == x@,
            !v.contains(x@),
            forall|k: int| 0 <= k < p ==> before(#[trigger] v[k], x@),
        decreases s.len() - p,
    {
        proof {
            lemma_before_total(x@, v[p as int]);
            assert(v[p as int] != x@);
        }
        p = p + 1;
    }
    let ghost p_ = p as int;
    s.insert(p, x);
    let ghost w = string_views(s@);
    assert(w =~= v.insert(p_, x@));
    proof {
        assert forall|i: int, j: int| 0 <= i < j < w.len() implies before(#[trigger] w[i], #[trigger] w[j]) by {
            if j < p_ {
                assert(w[i] == v[i] && w[j] == v[j]);
            } else if j == p_ {
                assert(w[i] == v[i]);
            } else if i < p_ {
                assert(w[i] == v[i] && w[j] == v[j - 1]);
                if j - 1 > p_ {
                    assert(before(v[p_], v[j - 1]));
                    lemma_before_transitive(x@, v[p_], v[j - 1]);
                }
                lemma_before_transitive(v[i], x@, v[j - 1]);
            } else if i == p_ {
                assert(w[j] == v[j - 1]);
                if j - 1 > p_ {
                    assert(before(v[p_], v[j - 1]));
                    lemma_before_transitive(x@, v[p_], v[j - 1]);
                }
            } else {
                assert(w[i] == v[i - 1] && w[j] == v[j - 1]);
            }
        }
        assert forall|y: Seq<char>| #[trigger] w.to_set().contains(y) <==> v.to_set().insert(x@).contains(y) by {
            if w.to_set().contains(y) {
                let k = choose|k: int| 0 <= k < w.len() && w[k] == y;
                if k < p_ {
                    assert(v[k] == y);
                } else if k > p_ {
                    assert(v[k - 1] == y);
                }
            }
            if v.to_set().contains(y) {
                let k = choose|k: int| 0 <= k < v.len() && v[k] == y;
                if k < p_ {
                    assert(w[k] == y);
                } else {
                    assert(w[k + 1] == y);
                }
            }
            if y == x@ {
                assert(w[p_] == y);
            }
        }
        assert(w.to_set() =~= v.to_set().insert(x@));
        if v.no_duplicates() {
            assert forall|i: int, j: int| 0 <= i < w.len() && 0 <= j < w.len() && i != j implies w[i] != w[j] by {
                if i == p_ {
                    if j < p_ {
                        assert(v.contains(w[j]));
                    } else {
                        assert(v[j - 1] == w[j]);
                    }
                } else if j == p_ {
                    if i < p_ {
                        assert(v[i] == w[i]);
                    } else {
                        assert(v[i - 1] == w[i]);
                    }
                } else {
                    let a = if i < p_ { i } else { i - 1 };
                    let b = if j < p_ { j } else { j - 1 };
                    assert(v[a] == w[i] && v[b] == w[j]);
                }
            }
        }
    }
}

fn precedes_string(a: &Vec<char>, b: &String) -> (out: bool)
    ensures
        out == before(a@, b@),
{
    let bv = chars_of(b.as_str());
    precedes(a, &bv)
}

/// `before(a, b)` over character vectors.
fn precedes(a: &Vec<char>, b: &Vec<char>) -> (out: bool)
    ensures
        out == before(a@, b@),
{
    let mut i: usize = 0;
    assert(a@.skip(0) =~= a@);
    assert(b@.skip(0) =~= b@);
    while i < a.len() && i < b.len() && a[i] == b[i]
        invariant
            i <= a.len(),
            i <= b.len(),
            before(a@.skip(i as int), b@.skip(i as int)) == before(a@, b@),
        decreases a.len() - i,
    {
        assert(a@.skip(i as int).drop_first() =~= a@.skip(i + 1));
        assert(b@.skip(i as int).drop_first() =~= b@.skip(i + 1));
        i = i + 1;
    }
    if i == b.len() {
        false
    } else if i == a.len() {
        true
    } else {
        a[i] < b[i]
    }
}

/// The names in `str` order.
pub fn sorted_names(names: &Vec<String>) -> (out: Vec<String>)
    requires
        string_views(names@).no_duplicates(),
    ensures
        sorted(string_views(out@)),
        string_views(out@).to_set() == string_views(names@).to_set(),
        string_views(out@).no_duplicates(),
        out@.len() == names@.len(),
{
    let ghost v = string_views(names@);
    let mut out: Vec<String> = Vec::new();
    let mut i: usize = 0;
    while i < names.len()
        invariant
            i <= names.len(),
            v == string_views(names@),
            v.no_duplicates(),
            sorted(string_views(out@)),
            string_views(out@).to_set() == v.take(i as int).to_set(),
            string_views(out@).no_duplicates(),
            out@.len() == i,
        decreases names.len() - i,
    {
        proof {
            if string_views(out@).contains(v[i as int]) {
                let k = choose|k: int| 0 <= k < string_views(out@).len() && string_views(out@)[k] == v[i as int];
                assert(string_views(out@).to_set().contains(v[i as int]));
                let m = choose|m: int| 0 <= m < v.take(i as int).len() && v.take(i as int)[m] == v[i as int];
                assert(v[m] == v[i as int]);
            }
            assert(v.take(i + 1) =~= v.take(i as int).push(v[i as int]));
            Seq::lemma_to_set_insert_commutes(v.take(i as int), v[i as int]);
            assert(v.take(i as int).push(v[i as int]) =~= v.take(i as int) + seq![v[i as int]]);
        }
        insert_sorted(&mut out, names[i].clone());
        i = i + 1;
    }
    assert(v.take(names.len() as int) =~= v);
    out
}

// ---------------------------------------------------------------------------
// Writing
// ---------------------------------------------------------------------------

/// The text written for a list of names: one per line, each line ended.
pub open spec fn rendered(names: Seq<Seq<char>>) -> Seq<char> {
    join(names, seq!['\n']) + seq!['\n']
}

/// The contents of the favorites file for `names` (distinct): the names in
/// `str` order, one per line.
pub fn render(names: &Vec<String>) -> (out: String)
    requires
        string_views(names@).no_duplicates(),
    ensures
        exists|s: Seq<Seq<char>>|
            {
                &&& #[trigger] sorted(s)
                &&& s.to_set() == string_views(names@).to_set()
                &&& s.no_duplicates()
                &&& out@ == rendered(s)
            },
{
    let lines = sorted_names(names);
    let mut text = join_strings(&lines, "\n");
    proof {
        reveal_strlit("\n");
        assert("\n"@ =~= seq!['\n']);
    }
    text.push('\n');
    assert(text@ =~= rendered(string_views(lines@)));
    text
}

// ---------------------------------------------------------------------------
// The round trip
// ---------------------------------------------------------------------------

/// A name that survives being written as a line and read back: not empty,
/// already trimmed, with no line break in it, and not starting with `#`.
/// Inner spaces are fine.
pub open spec fn line_safe(a: Seq<char>) -> bool {
    &&& a.len() > 0
    &&& a[0] != '#'
    &&& trim(a) == a
    &&& forall|i: int| 0 <= i < a.len() ==> #[trigger] a[i] != '\n'
}

/// Each name followed by a line break.
pub open spec fn terminated(names: Seq<Seq<char>>) -> Seq<char>
    decreases names.len(),
{
    if names.len() == 0 {
        seq![]
    } else {
        names[0] + seq!['\n'] + terminated(names.drop_first())
    }
}

proof fn lemma_terminated_push(names: Seq<Seq<char>>, x: Seq<char>)
    ensures
        terminated(names.push(x)) == terminated(names) + x + seq!['\n'],
    decreases names.len(),
{
    if names.len() == 0 {
        assert(names.push(x).drop_first() =~= Seq::<Seq<char>>::empty());
        assert(names.push(x)[0] == x);
        assert(terminated(Seq::<Seq<char>>::empty()) =~= Seq::<char>::empty());
        assert(terminated(names) =~= Seq::<char>::empty());
        assert(terminated(names.push(x)) =~= x + seq!['\n']);
    } else {
        assert(names.push(x).drop_first() =~= names.drop_first().push(x));
        lemma_terminated_push(names.drop_first(), x);
        assert(terminated(names.push(x)) =~= terminated(names) + x + seq!['\n']);
    }
}

proof fn lemma_rendered_terminated(names: Seq<Seq<char>>)
    requires
        names.len() > 0,
    ensures
        rendered(names) == terminated(names),
    decreases names.len(),
{
    if names.len() == 1 {
        assert(names.drop_first() =~= Seq::<Seq<char>>::empty());
        assert(names =~= Seq::<Seq<char>>::empty().push(names[0]));
        lemma_terminated_push(Seq::<Seq<char>>::empty(), names[0]);
    } else {
        lemma_rendered_terminated(names.drop_last());
        assert(names =~= names.drop_last().push(names.last()));
        lemma_terminated_push(names.drop_last(), names.last());
        assert(rendered(names) =~= rendered(names.drop_last()) + names.last() + seq!['\n']);
    }
}

proof fn lemma_find_newline(x: Seq<char>, rest: Seq<char>)
    requires
        forall|i: int| 0 <= i < x.len() ==> #[trigger] x[i] != '\n',
    ensures
        find(x + seq!['\n'] + rest, '\n') == x.len(),
    decreases x.len(),
{
    let s = x + seq!['\n'] + rest;
    if x.len() == 0 {
        assert(s[0] == '\n');
    } else {
        assert(s.drop_first() =~= x.drop_first() + seq!['\n'] + rest);
        lemma_find_newline(x.drop_first(), rest);
    }
}

proof fn lemma_trimmed_end(x: Seq<char>)
    requires
        x.len() > 0,
        trim(x) == x,
    ensures
        x.last() != '\r',
{
    lemma_lead_bound(x, CharClass::White);
    let t = strip_start(x, CharClass::White);
    lemma_trail_bound(t, CharClass::White);
    assert(lead(x, CharClass::White) == 0);
    assert(t =~= x);
    assert(trail(x, CharClass::White) == 0);
}

proof fn lemma_lines_terminated(names: Seq<Seq<char>>)
    requires
        forall|k: int| 0 <= k < names.len() ==> line_safe(#[trigger] names[k]),
    ensures
        lines(terminated(names)) == names,
    decreases names.len(),
{
    if names.len() > 0 {
        let x = names[0];
        let rest = terminated(names.drop_first());
        let s = terminated(names);
        assert(line_safe(names[0]));
        lemma_find_newline(x, rest);
        assert(s.take(x.len() as int) =~= x);
        assert(s.skip(x.len() + 1int) =~= rest);
        lemma_trimmed_end(x);
        assert(strip_cr(x) == x);
        lemma_lines_terminated(names.drop_first());
        assert(lines(s) =~= seq![x] + names.drop_first());
        assert(names =~= seq![x] + names.drop_first());
    }
}

proof fn lemma_entries_safe(names: Seq<Seq<char>>)
    requires
        forall|k: int| 0 <= k < names.len() ==> line_safe(#[trigger] names[k]),
    ensures
        entries(names) == names,
    decreases names.len(),
{
    if names.len() > 0 {
        assert(line_safe(names[names.len() - 1]));
        lemma_entries_safe(names.drop_last());
        assert(names.drop_last().push(names.last()) =~= names);
    }
}

/// Reading back what was written gives the same favorites: for names that
/// are [`line_safe`], the entries of the rendered text are exactly the names,
/// in the order they were written.
pub proof fn lemma_round_trip(names: Seq<Seq<char>>)
    requires
        forall|k: int| 0 <= k < names.len() ==> line_safe(#[trigger] names[k]),
    ensures
        entries(lines(rendered(names))) == names,
{
    if names.len() == 0 {
        assert(rendered(names) =~= seq!['\n']);
        assert(find(seq!['\n'], '\n') == 0);
        assert(seq!['\n'].take(0) =~= Seq::<char>::empty());
        assert(seq!['\n'].skip(1) =~= Seq::<char>::empty());
        assert(lines(Seq::<char>::empty()) =~= Seq::<Seq<char>>::empty());
        assert(strip_cr(Seq::<char>::empty()) =~= Seq::<char>::empty());
        assert(lines(rendered(names)) =~= seq![Seq::<char>::empty()]);
        assert(trim(Seq::<char>::empty()) =~= Seq::<char>::empty());
        assert(seq![Seq::<char>::empty()].drop_last() =~= Seq::<Seq<char>>::empty());
        assert(seq![Seq::<char>::empty()].last() =~= Seq::<char>::empty());
        assert(entries(Seq::<Seq<char>>::empty()) =~= Seq::<Seq<char>>::empty());
        assert(entries(seq![Seq::<char>::empty()]) =~= Seq::<Seq<char>>::empty());
        assert(names =~= Seq::<Seq<char>>::empty());
    } else {
        lemma_rendered_terminated(names);
        lemma_lines_terminated(names);
        lemma_entries_safe(names);
    }
}


proof fn lemma_sorted_unique(a: Seq<Seq<char>>, b: Seq<Seq<char>>)
    requires
        sorted(a),
        sorted(b),
        a.to_set() == b.to_set(),
    ensures
        a == b,
    decreases a.len(),
{
    if a.len() == 0 {
        if b.len() > 0 {
            assert(b.to_set().contains(b[0]));
        }
        assert(a =~= b);
    } else {
        assert(a.to_set().contains(a[0]));
        let j = choose|j: int| 0 <= j < b.len() && b[j] == a[0];
        assert(b.to_set().contains(b[0]));
        let i = choose|i: int| 0 <= i < a.len() && a[i] == b[0];
        if j > 0 {
            assert(before(b[0], b[j]));
            if i > 0 {
                assert(before(a[0], a[i]));
                lemma_before_transitive(a[0], b[0], a[0]);
            }
            lemma_before_irreflexive(a[0]);
        }
        let a1 = a.drop_first();
        let b1 = b.drop_first();
        assert forall|x: Seq<char>| #[trigger] a1.to_set().contains(x) implies b1.to_set().contains(x) by {
            let k = choose|k: int| 0 <= k < a1.len() && a1[k] == x;
            assert(a[k + 1] == x);
            assert(a.to_set().contains(x));
            let m = choose|m: int| 0 <= m < b.len() && b[m] == x;
            assert(before(a[0], a[k + 1]));
            if m == 0 {
                lemma_before_irreflexive(x);
            }
            assert(b1[m - 1] == x);
        }
        assert forall|x: Seq<char>| #[trigger] b1.to_set().contains(x) implies a1.to_set().contains(x) by {
            let k = choose|k: int| 0 <= k < b1.len() && b1[k] == x;
            assert(b[k + 1] == x);
            assert(b.to_set().contains(x));
            let m = choose|m: int| 0 <= m < a.len() && a[m] == x;
            assert(before(b[0], b[k + 1]));
            if m == 0 {
                lemma_before_irreflexive(x);
            }
            assert(a1[m - 1] == x);
        }
        assert(a1.to_set() =~= b1.to_set());
        lemma_sorted_unique(a1, b1);
        assert(a =~= seq![a[0]] + a1);
        assert(b =~= seq![b[0]] + b1);
    }
}

/// The file depends on the set of favorites alone: writing the same
/// favorites twice, in any order, gives the same file.
pub proof fn lemma_same_set_same_file(s1: Seq<Seq<char>>, s2: Seq<Seq<char>>)
    requires
        sorted(s1),
        sorted(s2),
        s1.to_set() == s2.to_set(),
    ensures
        rendered(s1) == rendered(s2),
{
    lemma_sorted_unique(s1, s2);
}

} // verus!
