//! The rows the picker shows, as mathematical sequences.
//!
//! Folders exist only as the section paths hosts were written under, so the
//! tree is discovered from those paths, in the order the config lists them.
//! Favorites appear on top as shortcuts; the host keeps its place in the tree.
//! Search is flat: every matching host, in config order.

use vstd::prelude::*;
use crate::ssh_config::{distinct_aliases, HostView, id_separator, path_separator};
use crate::text::{ascii_lower, ascii_upper, find, join, lower_all, lower_of, split};

verus! {

/// The mathematical value of a row.
pub enum RowView {
    Section { label: Seq<char> },
    Folder { id: Seq<char>, name: Seq<char>, depth: nat, collapsed: bool },
    Host {
        alias: Seq<char>,
        depth: nat,
        favorite: bool,
        shortcut: bool,
        context: Option<Seq<char>>,
        note: Option<Seq<char>>,
    },
}

/// Which hosts a run of host rows lists.
pub enum Pick {
    /// Favorites, as shortcuts.
    Starred,
    /// Hosts written exactly under this section path.
    InFolder(Seq<Seq<char>>),
    /// Hosts the search query finds.
    Matching(Seq<char>),
}

pub open spec fn favorites_label() -> Seq<char> {
    "\u{2605} Favorites"@
}

pub open spec fn ungrouped_label() -> Seq<char> {
    "Ungrouped"@
}

// ---------------------------------------------------------------------------
// Search
// ---------------------------------------------------------------------------

/// `a` is a subsequence of `b`: its characters appear in `b` in order, not
/// necessarily next to each other.
pub open spec fn subseq(a: Seq<char>, b: Seq<char>) -> bool
    decreases b.len(),
{
    if a.len() == 0 {
        true
    } else if b.len() == 0 {
        false
    } else if a[0] == b[0] {
        subseq(a.drop_first(), b.drop_first())
    } else {
        subseq(a, b.drop_first())
    }
}

/// `f` maps each position of `a` to a position of `b` holding the same
/// character, strictly increasing.
pub open spec fn is_embedding(f: spec_fn(int) -> int, a: Seq<char>, b: Seq<char>) -> bool {
    &&& forall|i: int| 0 <= i < a.len() ==> 0 <= #[trigger] f(i) < b.len() && b[f(i)] == a[i]
    &&& forall|i: int, j: int| 0 <= i < j < a.len() ==> #[trigger] f(i) < #[trigger] f(j)
}

/// `a` embeds in `b` through strictly increasing positions.
pub open spec fn embeds(a: Seq<char>, b: Seq<char>) -> bool {
    exists|f: spec_fn(int) -> int| #[trigger] is_embedding(f, a, b)
}

/// Case-insensitive subsequence match: `dkp` finds `dokku-prod`.
pub open spec fn fuzzy(query: Seq<char>, haystack: Seq<char>) -> bool {
    subseq(lower_all(query), lower_all(haystack))
}

pub open spec fn note_text(note: Option<Seq<char>>) -> Seq<char> {
    match note {
        Some(n) => n,
        None => seq![],
    }
}

/// What search looks at: alias, folder path and note, joined by spaces.
pub open spec fn haystack(h: HostView) -> Seq<char> {
    join(seq![h.alias, join(h.folder, path_separator()), note_text(h.note)], seq![' '])
}

/// Shown when searching, where the tree position is not visible.
pub open spec fn context(h: HostView) -> Option<Seq<char>> {
    if h.folder.len() > 0 {
        Some(join(h.folder, path_separator()))
    } else {
        None
    }
}

// ---------------------------------------------------------------------------
// Host rows
// ---------------------------------------------------------------------------

pub open spec fn host_row(
    favs: Set<Seq<char>>,
    h: HostView,
    depth: nat,
    context: Option<Seq<char>>,
    shortcut: bool,
) -> RowView {
    RowView::Host { alias: h.alias, depth, favorite: favs.contains(h.alias), shortcut, context, note: h.note }
}

pub open spec fn picks(favs: Set<Seq<char>>, h: HostView, pick: Pick) -> bool {
    match pick {
        Pick::Starred => favs.contains(h.alias),
        Pick::InFolder(p) => h.folder == p,
        Pick::Matching(q) => fuzzy(q, haystack(h)),
    }
}

pub open spec fn pick_row(favs: Set<Seq<char>>, h: HostView, pick: Pick, depth: nat) -> RowView {
    match pick {
        Pick::Starred => host_row(favs, h, depth, None, true),
        Pick::InFolder(_) => host_row(favs, h, depth, None, false),
        Pick::Matching(_) => host_row(favs, h, depth, context(h), false),
    }
}

/// One row per picked host, in config order.
pub open spec fn host_rows(hs: Seq<HostView>, favs: Set<Seq<char>>, pick: Pick, depth: nat) -> Seq<RowView>
    decreases hs.len(),
{
    if hs.len() == 0 {
        seq![]
    } else {
        let r = host_rows(hs.drop_last(), favs, pick, depth);
        if picks(favs, hs.last(), pick) {
            r.push(pick_row(favs, hs.last(), pick, depth))
        } else {
            r
        }
    }
}

// ---------------------------------------------------------------------------
// Folders
// ---------------------------------------------------------------------------

/// `f` is written under `prefix` and goes deeper.
pub open spec fn extends(f: Seq<Seq<char>>, prefix: Seq<Seq<char>>) -> bool {
    f.len() > prefix.len() && f.take(prefix.len() as int) == prefix
}

/// The subfolders of `prefix`, each once, in the order the config first
/// mentions them.
pub open spec fn children(hs: Seq<HostView>, prefix: Seq<Seq<char>>) -> Seq<Seq<char>>
    decreases hs.len(),
{
    if hs.len() == 0 {
        seq![]
    } else {
        let c = children(hs.drop_last(), prefix);
        let f = hs.last().folder;
        if extends(f, prefix) && !c.contains(f[prefix.len() as int]) {
            c.push(f[prefix.len() as int])
        } else {
            c
        }
    }
}

/// The longest section path.
pub open spec fn deepest(hs: Seq<HostView>) -> nat
    decreases hs.len(),
{
    if hs.len() == 0 {
        0
    } else {
        let d = deepest(hs.drop_last());
        if hs.last().folder.len() > d {
            hs.last().folder.len()
        } else {
            d
        }
    }
}

pub open spec fn folder_id(path: Seq<Seq<char>>) -> Seq<char> {
    join(path, id_separator())
}

/// The rows of the subfolders of `prefix` at `depth`; `fuel` bounds the
/// nesting still to be walked.
pub open spec fn folder_rows(
    hs: Seq<HostView>,
    favs: Set<Seq<char>>,
    closed: Set<Seq<char>>,
    prefix: Seq<Seq<char>>,
    depth: nat,
    fuel: nat,
) -> Seq<RowView>
    decreases fuel, 0nat, 0nat,
{
    if fuel == 0 {
        seq![]
    } else {
        children_rows(hs, favs, closed, prefix, depth, (fuel - 1) as nat, children(hs, prefix))
    }
}

/// A folder row, then, unless it is collapsed, its subfolders and its own
/// hosts one level deeper.
pub open spec fn child_block(
    hs: Seq<HostView>,
    favs: Set<Seq<char>>,
    closed: Set<Seq<char>>,
    prefix: Seq<Seq<char>>,
    depth: nat,
    fuel: nat,
    child: Seq<char>,
) -> Seq<RowView>
    decreases fuel, 1nat, 0nat,
{
    let p = prefix.push(child);
    let id = folder_id(p);
    let c = closed.contains(id);
    seq![RowView::Folder { id, name: child, depth, collapsed: c }] + if c {
        seq![]
    } else {
        folder_rows(hs, favs, closed, p, depth + 1, fuel) + host_rows(hs, favs, Pick::InFolder(p), depth + 1)
    }
}

pub open spec fn children_rows(
    hs: Seq<HostView>,
    favs: Set<Seq<char>>,
    closed: Set<Seq<char>>,
    prefix: Seq<Seq<char>>,
    depth: nat,
    fuel: nat,
    cs: Seq<Seq<char>>,
) -> Seq<RowView>
    decreases fuel, 2nat, cs.len(),
{
    if cs.len() == 0 {
        seq![]
    } else {
        children_rows(hs, favs, closed, prefix, depth, fuel, cs.drop_last()) + child_block(
            hs,
            favs,
            closed,
            prefix,
            depth,
            fuel,
            cs.last(),
        )
    }
}

/// `★ Favorites` and a shortcut to each starred host, when there are any.
pub open spec fn favorites_section(hs: Seq<HostView>, favs: Set<Seq<char>>) -> Seq<RowView> {
    let starred = host_rows(hs, favs, Pick::Starred, 1);
    if starred.len() > 0 {
        seq![RowView::Section { label: favorites_label() }] + starred
    } else {
        seq![]
    }
}

/// The whole tree: `★ Favorites` when there are any, the folders, and
/// `Ungrouped` for hosts written above any heading, when there are any.
pub open spec fn tree_rows(hs: Seq<HostView>, favs: Set<Seq<char>>, closed: Set<Seq<char>>) -> Seq<RowView> {
    let loose = host_rows(hs, favs, Pick::InFolder(seq![]), 1);
    favorites_section(hs, favs) + folder_rows(hs, favs, closed, seq![], 0, deepest(hs) + 1) + (if loose.len() > 0 {
        seq![RowView::Section { label: ungrouped_label() }] + loose
    } else {
        seq![]
    })
}

/// The rows for a search query, or the tree when there is none.
pub open spec fn rows_for(
    hs: Seq<HostView>,
    favs: Set<Seq<char>>,
    closed: Set<Seq<char>>,
    search: Option<Seq<char>>,
) -> Seq<RowView> {
    match search {
        Some(q) => host_rows(hs, favs, Pick::Matching(q), 0),
        None => tree_rows(hs, favs, closed),
    }
}


/// Identity across a rebuild. Folders need one too, otherwise expanding a
/// folder would lose the cursor. The copy of a host under `★ Favorites` has
/// an identity of its own, distinct from the copy in its folder.
pub open spec fn row_key(r: RowView) -> Option<Seq<char>> {
    match r {
        RowView::Section { .. } => None,
        RowView::Folder { id, .. } => Some("f:"@ + id),
        RowView::Host { alias, shortcut, .. } => if shortcut {
            Some("\u{2605}:"@ + alias)
        } else {
            Some("h:"@ + alias)
        },
    }
}

pub open spec fn row_depth(r: RowView) -> nat {
    match r {
        RowView::Section { .. } => 0,
        RowView::Folder { depth, .. } => depth,
        RowView::Host { depth, .. } => depth,
    }
}

/// Section headers are labels, not targets.
pub open spec fn selectable(r: RowView) -> bool {
    !(r is Section)
}


/// The first position at or after `from` whose row has identity `k`.
pub open spec fn find_key(rows: Seq<RowView>, k: Seq<char>, from: int) -> Option<nat>
    decreases rows.len() - from,
{
    if from < 0 || from >= rows.len() {
        None
    } else if row_key(rows[from]) == Some(k) {
        Some(from as nat)
    } else {
        find_key(rows, k, from + 1)
    }
}

/// The cursor after stepping past section headers from `s` in direction
/// `step` (wrapping around), taking at most `n` steps.
pub open spec fn clamp(rows: Seq<RowView>, s: nat, step: int, n: nat) -> nat
    decreases n,
{
    if n == 0 || s >= rows.len() || selectable(rows[s as int]) {
        s
    } else {
        clamp(rows, ((s + step) % (rows.len() as int)) as nat, step, (n - 1) as nat)
    }
}

/// The cursor after a rebuild: on the row with the identity of the row it
/// was on, when there still is one, else at the top; then past any section
/// header.
pub open spec fn rebuilt_selection(old_rows: Seq<RowView>, old_selected: nat, rows: Seq<RowView>) -> nat {
    let start = if old_selected < old_rows.len() {
        match row_key(old_rows[old_selected as int]) {
            Some(k) => match find_key(rows, k, 0) {
                Some(i) => i,
                None => 0,
            },
            None => 0,
        }
    } else {
        0
    };
    clamp(rows, start, 1, rows.len())
}

/// The nearest folder above `i` (inclusive) that is shallower than `depth`,
/// unless a section header comes first.
pub open spec fn parent_above(rows: Seq<RowView>, i: int, depth: nat) -> Option<nat>
    decreases i + 1,
{
    if i < 0 || i >= rows.len() {
        None
    } else {
        match rows[i] {
            RowView::Section { .. } => None,
            RowView::Folder { depth: above, .. } => if above < depth {
                Some(i as nat)
            } else {
                parent_above(rows, i - 1, depth)
            },
            _ => parent_above(rows, i - 1, depth),
        }
    }
}

// ---------------------------------------------------------------------------
// Lemmas
// ---------------------------------------------------------------------------

pub proof fn lemma_deepest(hs: Seq<HostView>)
    ensures
        forall|i: int| 0 <= i < hs.len() ==> (#[trigger] hs[i]).folder.len() <= deepest(hs),
    decreases hs.len(),
{
    if hs.len() > 0 {
        lemma_deepest(hs.drop_last());
        assert forall|i: int| 0 <= i < hs.len() implies (#[trigger] hs[i]).folder.len() <= deepest(hs) by {
            if i < hs.len() - 1 {
                assert(hs[i] == hs.drop_last()[i]);
            }
        }
    }
}

/// Every subfolder comes from a host written under it.
pub proof fn lemma_children_witness(hs: Seq<HostView>, prefix: Seq<Seq<char>>)
    ensures
        forall|k: int|
            0 <= k < children(hs, prefix).len() ==> exists|i: int|
                0 <= i < hs.len() && extends(#[trigger] hs[i].folder, prefix) && hs[i].folder[prefix.len() as int]
                    == #[trigger] children(hs, prefix)[k],
        children(hs, prefix).no_duplicates(),
    decreases hs.len(),
{
    if hs.len() > 0 {
        let prev = hs.drop_last();
        lemma_children_witness(prev, prefix);
        let c = children(prev, prefix);
        assert forall|k: int| 0 <= k < children(hs, prefix).len() implies exists|i: int|
            0 <= i < hs.len() && extends(#[trigger] hs[i].folder, prefix) && hs[i].folder[prefix.len() as int]
                == #[trigger] children(hs, prefix)[k] by {
            if k < c.len() {
                let i = choose|i: int|
                    0 <= i < prev.len() && extends(#[trigger] prev[i].folder, prefix) && prev[i].folder[prefix.len() as int]
                        == #[trigger] c[k];
                assert(hs[i] == prev[i]);
                assert(children(hs, prefix)[k] == c[k]);
            } else {
                assert(hs[hs.len() - 1] == hs.last());
            }
        }
    }
}

/// Nothing lies below a prefix longer than every section path.
pub proof fn lemma_no_children_beyond(hs: Seq<HostView>, prefix: Seq<Seq<char>>)
    requires
        prefix.len() >= deepest(hs),
    ensures
        children(hs, prefix).len() == 0,
{
    lemma_deepest(hs);
    lemma_children_witness(hs, prefix);
    if children(hs, prefix).len() > 0 {
        let i = choose|i: int|
            0 <= i < hs.len() && extends(#[trigger] hs[i].folder, prefix) && hs[i].folder[prefix.len() as int]
                == #[trigger] children(hs, prefix)[0];
        assert(hs[i].folder.len() <= deepest(hs));
    }
}

/// Search matching is exactly "the lowered query's characters appear in the
/// lowered haystack in order": the greedy scan succeeds if and only if an
/// order-preserving embedding exists.
pub proof fn lemma_subseq_embeds(a: Seq<char>, b: Seq<char>)
    ensures
        subseq(a, b) <==> embeds(a, b),
    decreases b.len(),
{
    if a.len() == 0 {
        let f = |i: int| 0int;
        assert(is_embedding(f, a, b));
    } else if b.len() == 0 {
        if embeds(a, b) {
            let f = choose|f: spec_fn(int) -> int| #[trigger] is_embedding(f, a, b);
            assert(0 <= f(0) < b.len());
        }
    } else {
        let a1 = a.drop_first();
        let b1 = b.drop_first();
        if a[0] == b[0] {
            lemma_subseq_embeds(a1, b1);
            if subseq(a1, b1) {
                let g = choose|g: spec_fn(int) -> int| #[trigger] is_embedding(g, a1, b1);
                let f = |i: int| if i == 0 { 0 } else { g(i - 1) + 1 };
                assert forall|i: int| 0 <= i < a.len() implies 0 <= #[trigger] f(i) < b.len() && b[f(i)] == a[i] by {
                    if i > 0 {
                        assert(0 <= g(i - 1) < b1.len());
                        assert(b1[g(i - 1)] == a1[i - 1]);
                    }
                }
                assert forall|i: int, j: int| 0 <= i < j < a.len() implies #[trigger] f(i) < #[trigger] f(j) by {
                    if i > 0 {
                        assert(g(i - 1) < g(j - 1));
                    } else {
                        assert(0 <= g(j - 1));
                    }
                }
                assert(is_embedding(f, a, b));
            }
            if embeds(a, b) {
                let f = choose|f: spec_fn(int) -> int| #[trigger] is_embedding(f, a, b);
                let g = |i: int| f(i + 1) - 1;
                assert forall|i: int| 0 <= i < a1.len() implies 0 <= #[trigger] g(i) < b1.len() && b1[g(i)] == a1[i] by {
                    assert(f(0) < f(i + 1));
                    assert(0 <= f(0));
                    assert(b[f(i + 1)] == a[i + 1]);
                }
                assert forall|i: int, j: int| 0 <= i < j < a1.len() implies #[trigger] g(i) < #[trigger] g(j) by {
                    assert(f(i + 1) < f(j + 1));
                }
                assert(is_embedding(g, a1, b1));
            }
        } else {
            lemma_subseq_embeds(a, b1);
            if subseq(a, b1) {
                let g = choose|g: spec_fn(int) -> int| #[trigger] is_embedding(g, a, b1);
                let f = |i: int| g(i) + 1;
                assert forall|i: int| 0 <= i < a.len() implies 0 <= #[trigger] f(i) < b.len() && b[f(i)] == a[i] by {
                    assert(b1[g(i)] == a[i]);
                }
                assert forall|i: int, j: int| 0 <= i < j < a.len() implies #[trigger] f(i) < #[trigger] f(j) by {
                    assert(g(i) < g(j));
                }
                assert(is_embedding(f, a, b));
            }
            if embeds(a, b) {
                let f = choose|f: spec_fn(int) -> int| #[trigger] is_embedding(f, a, b);
                let g = |i: int| f(i) - 1;
                assert(f(0) != 0) by {
                    if f(0) == 0 {
                        assert(b[f(0)] == a[0]);
                    }
                }
                assert forall|i: int| 0 <= i < a.len() implies 0 <= #[trigger] g(i) < b1.len() && b1[g(i)] == a[i] by {
                    if i > 0 {
                        assert(f(0) < f(i));
                    }
                    assert(0 <= f(0));
                    assert(b[f(i)] == a[i]);
                }
                assert forall|i: int, j: int| 0 <= i < j < a.len() implies #[trigger] g(i) < #[trigger] g(j) by {
                    assert(f(i) < f(j));
                }
                assert(is_embedding(g, a, b1));
            }
        }
    }
}

/// An empty query finds every host.
pub proof fn lemma_empty_query_matches(haystack: Seq<char>)
    ensures
        fuzzy(Seq::<char>::empty(), haystack),
{
    assert(lower_all(Seq::<char>::empty()) =~= Seq::<char>::empty());
}

/// The cursor stays on a row: stepping from a row position lands on a row
/// position.
pub proof fn lemma_clamp_in_range(rows: Seq<RowView>, s: nat, step: int, n: nat)
    requires
        s < rows.len(),
    ensures
        clamp(rows, s, step, n) < rows.len(),
    decreases n,
{
    if n > 0 && !selectable(rows[s as int]) {
        let m = rows.len() as int;
        let next = (s + step) % m;
        assert(0 <= next < m) by {
            vstd::arithmetic::div_mod::lemma_mod_bound(s + step, m);
        }
        lemma_clamp_in_range(rows, next as nat, step, (n - 1) as nat);
    }
}

/// The position `k` steps of `step` away from `s`, wrapping around.
pub open spec fn stepped(s: int, step: int, k: int, m: int) -> int {
    (s + k * step) % m
}

proof fn lemma_clamp_walk(rows: Seq<RowView>, s: nat, step: int, n: nat, s0: int, k0: int)
    requires
        rows.len() > 0,
        s < rows.len(),
        step == 1 || step == -1,
        s == stepped(s0, step, k0, rows.len() as int),
        k0 >= 0,
        forall|k: int| 0 <= k < k0 ==> !selectable(#[trigger] rows[stepped(s0, step, k, rows.len() as int)]),
    ensures
        selectable(rows[clamp(rows, s, step, n) as int]) || forall|k: int|
            0 <= k < k0 + n ==> !selectable(#[trigger] rows[stepped(s0, step, k, rows.len() as int)]),
    decreases n,
{
    let m = rows.len() as int;
    if n > 0 && !selectable(rows[s as int]) {
        let next = (s + step) % m;
        assert(next == stepped(s0, step, k0 + 1, m)) by {
            let x = s0 + k0 * step;
            vstd::arithmetic::div_mod::lemma_add_mod_noop_right(step, x, m);
            assert(step + x == s0 + (k0 + 1) * step) by (nonlinear_arith)
                requires
                    x == s0 + k0 * step,
            ;
        }
        assert(0 <= next < m) by {
            vstd::arithmetic::div_mod::lemma_mod_bound(s + step, m);
        }
        lemma_clamp_walk(rows, next as nat, step, (n - 1) as nat, s0, k0 + 1);
    }
}

/// Section headers are labels, not targets: when the rows hold any
/// selectable row, stepping from a row position in either direction ends on
/// a selectable row.
pub proof fn lemma_clamp_selectable(rows: Seq<RowView>, s: nat, step: int, t: int)
    requires
        s < rows.len(),
        step == 1 || step == -1,
        0 <= t < rows.len(),
        selectable(rows[t]),
    ensures
        selectable(rows[clamp(rows, s, step, rows.len()) as int]),
{
    let m = rows.len() as int;
    assert(s == stepped(s as int, step, 0, m)) by {
        vstd::arithmetic::div_mod::lemma_small_mod(s, m as nat);
    }
    lemma_clamp_walk(rows, s, step, rows.len(), s as int, 0);
    if !selectable(rows[clamp(rows, s, step, rows.len()) as int]) {
        // Some number of steps below `m` reaches `t`.
        let k = if step == 1 {
            (t - s) % m
        } else {
            (s - t) % m
        };
        assert(0 <= k < m) by {
            vstd::arithmetic::div_mod::lemma_mod_bound(t - s, m);
            vstd::arithmetic::div_mod::lemma_mod_bound(s - t, m);
        }
        assert(stepped(s as int, step, k, m) == t) by {
            vstd::arithmetic::div_mod::lemma_small_mod(s, m as nat);
            vstd::arithmetic::div_mod::lemma_small_mod(t as nat, m as nat);
            if step == 1 {
                vstd::arithmetic::div_mod::lemma_add_mod_noop_right(s as int, t - s, m);
                assert(s + k * step == s + k);
            } else {
                vstd::arithmetic::div_mod::lemma_sub_mod_noop(s as int, s - t, m);
                assert(s + k * step == s - k);
            }
        }
        assert(!selectable(rows[stepped(s as int, step, k, m)]));
    }
}

pub proof fn lemma_find_key(rows: Seq<RowView>, k: Seq<char>, from: int)
    ensures
        find_key(rows, k, from) matches Some(i) ==> from <= i < rows.len() && row_key(rows[i as int]) == Some(k),
    decreases rows.len() - from,
{
    if 0 <= from < rows.len() && row_key(rows[from]) != Some(k) {
        lemma_find_key(rows, k, from + 1);
    }
}

/// Where the row the cursor was on is after a rebuild, if it is still there.
pub open spec fn kept_position(old_rows: Seq<RowView>, old_selected: nat, rows: Seq<RowView>) -> Option<nat> {
    if old_selected < old_rows.len() {
        match row_key(old_rows[old_selected as int]) {
            Some(k) => find_key(rows, k, 0),
            None => None,
        }
    } else {
        None
    }
}

/// A rebuild keeps the cursor on a row: on the row with the identity of the
/// row it was on, when that row is still there and selectable, and in any
/// case on a selectable row when there is one.
pub proof fn lemma_rebuilt_cursor(old_rows: Seq<RowView>, old_selected: nat, rows: Seq<RowView>)
    ensures
        rows.len() > 0 ==> rebuilt_selection(old_rows, old_selected, rows) < rows.len(),
        (exists|t: int| 0 <= t < rows.len() && selectable(#[trigger] rows[t])) ==> selectable(
            rows[rebuilt_selection(old_rows, old_selected, rows) as int],
        ),
        kept_position(old_rows, old_selected, rows) is Some && selectable(
            rows[kept_position(old_rows, old_selected, rows)->0 as int],
        ) ==> rebuilt_selection(old_rows, old_selected, rows) == kept_position(old_rows, old_selected, rows)->0,
{
    let start = if old_selected < old_rows.len() {
        match row_key(old_rows[old_selected as int]) {
            Some(k) => {
                lemma_find_key(rows, k, 0);
                match find_key(rows, k, 0) {
                    Some(i) => i,
                    None => 0,
                }
            },
            None => 0,
        }
    } else {
        0
    };
    if rows.len() > 0 {
        lemma_clamp_in_range(rows, start, 1, rows.len());
        if exists|t: int| 0 <= t < rows.len() && selectable(#[trigger] rows[t]) {
            let t = choose|t: int| 0 <= t < rows.len() && selectable(#[trigger] rows[t]);
            lemma_clamp_selectable(rows, start, 1, t);
        }
    }
}


/// A row with its star mark cleared.
pub open spec fn unstar(r: RowView) -> RowView {
    match r {
        RowView::Host { alias, depth, shortcut, context, note, .. } => RowView::Host {
            alias,
            depth,
            favorite: false,
            shortcut,
            context,
            note,
        },
        _ => r,
    }
}

pub open spec fn unstarred(rs: Seq<RowView>) -> Seq<RowView> {
    rs.map_values(|r: RowView| unstar(r))
}

proof fn lemma_unstarred_concat(a: Seq<RowView>, b: Seq<RowView>)
    ensures
        unstarred(a + b) == unstarred(a) + unstarred(b),
{
    assert(unstarred(a + b) =~= unstarred(a) + unstarred(b));
}

proof fn lemma_host_rows_ignore_stars(hs: Seq<HostView>, f1: Set<Seq<char>>, f2: Set<Seq<char>>, pick: Pick, depth: nat)
    requires
        !(pick is Starred),
    ensures
        unstarred(host_rows(hs, f1, pick, depth)) == unstarred(host_rows(hs, f2, pick, depth)),
    decreases hs.len(),
{
    if hs.len() > 0 {
        lemma_host_rows_ignore_stars(hs.drop_last(), f1, f2, pick, depth);
        let r1 = host_rows(hs.drop_last(), f1, pick, depth);
        let r2 = host_rows(hs.drop_last(), f2, pick, depth);
        if picks(f1, hs.last(), pick) {
            let x1 = pick_row(f1, hs.last(), pick, depth);
            let x2 = pick_row(f2, hs.last(), pick, depth);
            assert(unstarred(r1.push(x1)) =~= unstarred(r1).push(unstar(x1)));
            assert(unstarred(r2.push(x2)) =~= unstarred(r2).push(unstar(x2)));
        }
    }
}

proof fn lemma_folder_rows_ignore_stars(
    hs: Seq<HostView>,
    f1: Set<Seq<char>>,
    f2: Set<Seq<char>>,
    closed: Set<Seq<char>>,
    prefix: Seq<Seq<char>>,
    depth: nat,
    fuel: nat,
)
    ensures
        unstarred(folder_rows(hs, f1, closed, prefix, depth, fuel)) == unstarred(
            folder_rows(hs, f2, closed, prefix, depth, fuel),
        ),
    decreases fuel, 0nat, 0nat,
{
    if fuel > 0 {
        lemma_children_rows_ignore_stars(hs, f1, f2, closed, prefix, depth, (fuel - 1) as nat, children(hs, prefix));
    }
}

proof fn lemma_child_block_ignores_stars(
    hs: Seq<HostView>,
    f1: Set<Seq<char>>,
    f2: Set<Seq<char>>,
    closed: Set<Seq<char>>,
    prefix: Seq<Seq<char>>,
    depth: nat,
    fuel: nat,
    child: Seq<char>,
)
    ensures
        unstarred(child_block(hs, f1, closed, prefix, depth, fuel, child)) == unstarred(
            child_block(hs, f2, closed, prefix, depth, fuel, child),
        ),
    decreases fuel, 1nat, 0nat,
{
    let p = prefix.push(child);
    let id = folder_id(p);
    let head = seq![RowView::Folder { id, name: child, depth, collapsed: closed.contains(id) }];
    if closed.contains(id) {
        lemma_unstarred_concat(head, seq![]);
    } else {
        lemma_folder_rows_ignore_stars(hs, f1, f2, closed, p, depth + 1, fuel);
        lemma_host_rows_ignore_stars(hs, f1, f2, Pick::InFolder(p), depth + 1);
        let a1 = folder_rows(hs, f1, closed, p, depth + 1, fuel);
        let a2 = folder_rows(hs, f2, closed, p, depth + 1, fuel);
        let b1 = host_rows(hs, f1, Pick::InFolder(p), depth + 1);
        let b2 = host_rows(hs, f2, Pick::InFolder(p), depth + 1);
        lemma_unstarred_concat(a1, b1);
        lemma_unstarred_concat(a2, b2);
        lemma_unstarred_concat(head, a1 + b1);
        lemma_unstarred_concat(head, a2 + b2);
    }
}

proof fn lemma_children_rows_ignore_stars(
    hs: Seq<HostView>,
    f1: Set<Seq<char>>,
    f2: Set<Seq<char>>,
    closed: Set<Seq<char>>,
    prefix: Seq<Seq<char>>,
    depth: nat,
    fuel: nat,
    cs: Seq<Seq<char>>,
)
    ensures
        unstarred(children_rows(hs, f1, closed, prefix, depth, fuel, cs)) == unstarred(
            children_rows(hs, f2, closed, prefix, depth, fuel, cs),
        ),
    decreases fuel, 2nat, cs.len(),
{
    if cs.len() > 0 {
        lemma_children_rows_ignore_stars(hs, f1, f2, closed, prefix, depth, fuel, cs.drop_last());
        lemma_child_block_ignores_stars(hs, f1, f2, closed, prefix, depth, fuel, cs.last());
        lemma_unstarred_concat(
            children_rows(hs, f1, closed, prefix, depth, fuel, cs.drop_last()),
            child_block(hs, f1, closed, prefix, depth, fuel, cs.last()),
        );
        lemma_unstarred_concat(
            children_rows(hs, f2, closed, prefix, depth, fuel, cs.drop_last()),
            child_block(hs, f2, closed, prefix, depth, fuel, cs.last()),
        );
    }
}

proof fn lemma_nothing_starred(hs: Seq<HostView>, depth: nat)
    ensures
        host_rows(hs, Set::<Seq<char>>::empty(), Pick::Starred, depth).len() == 0,
    decreases hs.len(),
{
    if hs.len() > 0 {
        lemma_nothing_starred(hs.drop_last(), depth);
    }
}

/// A favorite is a shortcut: the host keeps its place in the tree. Below the
/// `★ Favorites` section the tree is the one drawn with nothing starred, but
/// for the star marks.
pub proof fn lemma_favorites_keep_place(hs: Seq<HostView>, favs: Set<Seq<char>>, closed: Set<Seq<char>>)
    ensures
        tree_rows(hs, favs, closed) == favorites_section(hs, favs) + tree_rows(hs, favs, closed).skip(
            favorites_section(hs, favs).len() as int,
        ),
        unstarred(tree_rows(hs, favs, closed).skip(favorites_section(hs, favs).len() as int)) == unstarred(
            tree_rows(hs, Set::<Seq<char>>::empty(), closed),
        ),
{
    let none = Set::<Seq<char>>::empty();
    let fd = deepest(hs) + 1;
    let t = tree_rows(hs, favs, closed);
    let head = favorites_section(hs, favs);
    let a1 = folder_rows(hs, favs, closed, seq![], 0, fd);
    let a2 = folder_rows(hs, none, closed, seq![], 0, fd);
    let l1 = host_rows(hs, favs, Pick::InFolder(seq![]), 1);
    let l2 = host_rows(hs, none, Pick::InFolder(seq![]), 1);
    let u1 = if l1.len() > 0 {
        seq![RowView::Section { label: ungrouped_label() }] + l1
    } else {
        seq![]
    };
    let u2 = if l2.len() > 0 {
        seq![RowView::Section { label: ungrouped_label() }] + l2
    } else {
        seq![]
    };
    lemma_nothing_starred(hs, 1);
    assert(favorites_section(hs, none) =~= Seq::<RowView>::empty());
    assert(t =~= head + (a1 + u1));
    assert(t.skip(head.len() as int) =~= a1 + u1);
    assert(tree_rows(hs, none, closed) =~= a2 + u2);
    lemma_folder_rows_ignore_stars(hs, favs, none, closed, seq![], 0, fd);
    lemma_host_rows_ignore_stars(hs, favs, none, Pick::InFolder(seq![]), 1);
    lemma_unstarred_concat(a1, u1);
    lemma_unstarred_concat(a2, u2);
    assert(l1.len() == unstarred(l1).len());
    assert(l2.len() == unstarred(l2).len());
    if l1.len() > 0 {
        let sec = seq![RowView::Section { label: ungrouped_label() }];
        lemma_unstarred_concat(sec, l1);
        lemma_unstarred_concat(sec, l2);
    }
}


/// The rows of the `★ Favorites` section are its header and shortcuts.
proof fn lemma_favorites_section_shortcuts(hs: Seq<HostView>, favs: Set<Seq<char>>)
    ensures
        forall|i: int|
            0 <= i < favorites_section(hs, favs).len() ==> (#[trigger] favorites_section(hs, favs)[i] is Section
                || favorites_section(hs, favs)[i] matches RowView::Host { shortcut: true, .. }),
{
    lemma_starred_rows_shortcuts(hs, favs, 1);
    let starred = host_rows(hs, favs, Pick::Starred, 1);
    if starred.len() > 0 {
        let f = favorites_section(hs, favs);
        assert forall|i: int| 0 <= i < f.len() implies (#[trigger] f[i] is Section || f[i] matches RowView::Host {
            shortcut: true,
            ..
        }) by {
            if i > 0 {
                assert(f[i] == starred[i - 1]);
            }
        }
    }
}

proof fn lemma_starred_rows_shortcuts(hs: Seq<HostView>, favs: Set<Seq<char>>, depth: nat)
    ensures
        forall|i: int|
            0 <= i < host_rows(hs, favs, Pick::Starred, depth).len() ==> (#[trigger] host_rows(
                hs,
                favs,
                Pick::Starred,
                depth,
            )[i] matches RowView::Host { shortcut: true, .. }),
    decreases hs.len(),
{
    if hs.len() > 0 {
        lemma_starred_rows_shortcuts(hs.drop_last(), favs, depth);
    }
}

/// A row's identity does not depend on its star mark.
proof fn lemma_unstar_key(r: RowView)
    ensures
        row_key(unstar(r)) == row_key(r),
{
}

/// The rows of the tree or of a search, whatever is starred, hold a row with
/// the identity of any host row that is not a favorites shortcut.
pub proof fn lemma_stars_keep_host_rows(
    hs: Seq<HostView>,
    f1: Set<Seq<char>>,
    f2: Set<Seq<char>>,
    closed: Set<Seq<char>>,
    search: Option<Seq<char>>,
    i: int,
)
    requires
        0 <= i < rows_for(hs, f1, closed, search).len(),
        rows_for(hs, f1, closed, search)[i] matches RowView::Host { shortcut: false, .. },
    ensures
        exists|j: int|
            0 <= j < rows_for(hs, f2, closed, search).len() && #[trigger] row_key(rows_for(hs, f2, closed, search)[j])
                == row_key(rows_for(hs, f1, closed, search)[i]),
{
    let r1 = rows_for(hs, f1, closed, search);
    let r2 = rows_for(hs, f2, closed, search);
    match search {
        Some(q) => {
            lemma_host_rows_ignore_stars(hs, f1, f2, Pick::Matching(q), 0);
            assert(unstarred(r1) == unstarred(r2));
            assert(unstarred(r1).len() == r1.len());
            assert(unstarred(r2).len() == r2.len());
            assert(unstarred(r1)[i] == unstar(r1[i]));
            assert(unstarred(r2)[i] == unstar(r2[i]));
            lemma_unstar_key(r1[i]);
            lemma_unstar_key(r2[i]);
            assert(row_key(r2[i]) == row_key(r1[i]));
        },
        None => {
            let none = Set::<Seq<char>>::empty();
            lemma_favorites_keep_place(hs, f1, closed);
            lemma_favorites_keep_place(hs, f2, closed);
            lemma_favorites_section_shortcuts(hs, f1);
            let n1 = favorites_section(hs, f1).len() as int;
            let n2 = favorites_section(hs, f2).len() as int;
            if i < n1 {
                assert(r1[i] == favorites_section(hs, f1)[i]);
            }
            let rest1 = r1.skip(n1);
            let rest2 = r2.skip(n2);
            assert(unstarred(rest1) == unstarred(rest2));
            let k = i - n1;
            assert(rest1[k] == r1[i]);
            assert(unstarred(rest1)[k] == unstar(rest1[k]));
            assert(unstarred(rest2).len() == rest2.len());
            assert(unstarred(rest2)[k] == unstar(rest2[k]));
            lemma_unstar_key(rest1[k]);
            lemma_unstar_key(rest2[k]);
            assert(r2[n2 + k] == rest2[k]);
            assert(row_key(r2[n2 + k]) == row_key(r1[i]));
        },
    }
}

/// When a row with identity `k` lies at or after `from`, one is found.
pub proof fn lemma_find_key_found(rows: Seq<RowView>, k: Seq<char>, from: int, j: int)
    requires
        0 <= from <= j < rows.len(),
        row_key(rows[j]) == Some(k),
    ensures
        find_key(rows, k, from) is Some,
    decreases j - from,
{
    if row_key(rows[from]) != Some(k) {
        lemma_find_key_found(rows, k, from + 1, j);
    }
}

/// The identity of a host row in its folder, or among search results,
/// belongs to no other row.
pub proof fn lemma_host_key(r: RowView, alias: Seq<char>)
    requires
        row_key(r) == Some("h:"@ + alias),
    ensures
        r matches RowView::Host { alias: a, shortcut: false, .. } && a == alias,
{
    reveal_strlit("h:");
    reveal_strlit("f:");
    reveal_strlit("\u{2605}:");
    let k = "h:"@ + alias;
    match r {
        RowView::Section { .. } => {},
        RowView::Folder { id, .. } => {
            assert(("f:"@ + id)[0] == 'f');
            assert(k[0] == 'h');
        },
        RowView::Host { alias: a, shortcut, .. } => {
            if shortcut {
                assert(("\u{2605}:"@ + a)[0] == '\u{2605}');
                assert(k[0] == 'h');
            } else {
                assert(("h:"@ + a).skip(2) =~= a);
                assert(k.skip(2) =~= alias);
            }
        },
    }
}

/// Starring or unstarring changes no row's place but the shortcuts': a
/// rebuild after it leaves the cursor on the host row it was on, unless that
/// row was a shortcut.
pub proof fn lemma_stars_keep_cursor(
    hs: Seq<HostView>,
    f1: Set<Seq<char>>,
    f2: Set<Seq<char>>,
    closed: Set<Seq<char>>,
    search: Option<Seq<char>>,
    s: nat,
)
    requires
        s < rows_for(hs, f1, closed, search).len(),
        rows_for(hs, f1, closed, search)[s as int] matches RowView::Host { shortcut: false, .. },
    ensures
        ({
            let r2 = rows_for(hs, f2, closed, search);
            let t = rebuilt_selection(rows_for(hs, f1, closed, search), s, r2);
            &&& t < r2.len()
            &&& r2[t as int] matches RowView::Host { alias: a, shortcut: false, .. }
            &&& a == rows_for(hs, f1, closed, search)[s as int]->Host_alias
        }),
{
    let r1 = rows_for(hs, f1, closed, search);
    let r2 = rows_for(hs, f2, closed, search);
    let alias = r1[s as int]->Host_alias;
    let k = "h:"@ + alias;
    assert(row_key(r1[s as int]) == Some(k));
    lemma_stars_keep_host_rows(hs, f1, f2, closed, search, s as int);
    let j = choose|j: int| 0 <= j < r2.len() && #[trigger] row_key(r2[j]) == row_key(r1[s as int]);
    lemma_find_key_found(r2, k, 0, j);
    lemma_find_key(r2, k, 0);
    let i = find_key(r2, k, 0)->0;
    lemma_host_key(r2[i as int], alias);
}


/// The cursor stays settled on a row: within the rows when there are any,
/// and on a selectable row when there is one.
pub open spec fn placed(rows: Seq<RowView>, s: nat) -> bool {
    &&& rows.len() > 0 ==> s < rows.len()
    &&& (exists|t: int| 0 <= t < rows.len() && selectable(#[trigger] rows[t])) ==> s < rows.len() && selectable(
        rows[s as int],
    )
}

/// Stepping out lands on a folder row above.
pub proof fn lemma_parent_above(rows: Seq<RowView>, i: int, depth: nat)
    ensures
        parent_above(rows, i, depth) matches Some(k) ==> k <= i && k < rows.len() && rows[k as int] is Folder,
    decreases i + 1,
{
    if 0 <= i < rows.len() {
        lemma_parent_above(rows, i - 1, depth);
    }
}

/// A rebuild leaves the cursor placed.
pub proof fn lemma_rebuilt_placed(old_rows: Seq<RowView>, old_selected: nat, rows: Seq<RowView>)
    ensures
        placed(rows, rebuilt_selection(old_rows, old_selected, rows)),
{
    lemma_rebuilt_cursor(old_rows, old_selected, rows);
}

/// Stepping from a row position past section headers leaves the cursor
/// placed.
pub proof fn lemma_clamp_placed(rows: Seq<RowView>, s: nat, step: int)
    requires
        s < rows.len(),
        step == 1 || step == -1,
    ensures
        placed(rows, clamp(rows, s, step, rows.len())),
{
    lemma_clamp_in_range(rows, s, step, rows.len());
    if exists|t: int| 0 <= t < rows.len() && selectable(#[trigger] rows[t]) {
        let t = choose|t: int| 0 <= t < rows.len() && selectable(#[trigger] rows[t]);
        lemma_clamp_selectable(rows, s, step, t);
    }
}


// ---------------------------------------------------------------------------
// Laws of search matching
// ---------------------------------------------------------------------------

proof fn lemma_lower_all_concat(a: Seq<char>, b: Seq<char>)
    ensures
        lower_all(a + b) == lower_all(a) + lower_all(b),
    decreases b.len(),
{
    if b.len() == 0 {
        assert(a + b =~= a);
        assert(lower_all(a) + lower_all(b) =~= lower_all(a));
    } else {
        lemma_lower_all_concat(a, b.drop_last());
        assert((a + b).drop_last() =~= a + b.drop_last());
        assert((a + b).last() == b.last());
        assert(lower_all(a + b) =~= lower_all(a) + lower_all(b));
    }
}

proof fn lemma_subseq_self(a: Seq<char>)
    ensures
        subseq(a, a),
{
    let f = |i: int| i;
    assert(is_embedding(f, a, a));
    lemma_subseq_embeds(a, a);
}

proof fn lemma_subseq_prefix(a: Seq<char>, x: Seq<char>, b: Seq<char>)
    requires
        subseq(a + x, b),
    ensures
        subseq(a, b),
{
    lemma_subseq_embeds(a + x, b);
    let f = choose|f: spec_fn(int) -> int| #[trigger] is_embedding(f, a + x, b);
    assert forall|i: int| 0 <= i < a.len() implies 0 <= #[trigger] f(i) < b.len() && b[f(i)] == a[i] by {
        assert((a + x)[i] == a[i]);
    }
    assert(is_embedding(f, a, b));
    lemma_subseq_embeds(a, b);
}

proof fn lemma_subseq_wider(a: Seq<char>, b: Seq<char>, s: Seq<char>)
    requires
        subseq(a, b),
    ensures
        subseq(a, s + b),
        subseq(a, b + s),
{
    lemma_subseq_embeds(a, b);
    let f = choose|f: spec_fn(int) -> int| #[trigger] is_embedding(f, a, b);
    let g = |i: int| f(i) + s.len();
    assert forall|i: int| 0 <= i < a.len() implies 0 <= #[trigger] g(i) < (s + b).len() && (s + b)[g(i)] == a[i] by {
        assert(b[f(i)] == a[i]);
    }
    assert forall|i: int, j: int| 0 <= i < j < a.len() implies #[trigger] g(i) < #[trigger] g(j) by {
        assert(f(i) < f(j));
    }
    assert(is_embedding(g, a, s + b));
    assert forall|i: int| 0 <= i < a.len() implies 0 <= #[trigger] f(i) < (b + s).len() && (b + s)[f(i)] == a[i] by {
        assert(b[f(i)] == a[i]);
    }
    assert(is_embedding(f, a, b + s));
    lemma_subseq_embeds(a, s + b);
    lemma_subseq_embeds(a, b + s);
}

/// A query finds itself.
pub proof fn lemma_query_finds_itself(q: Seq<char>)
    ensures
        fuzzy(q, q),
{
    lemma_subseq_self(lower_all(q));
}

/// Dropping the last character of a query never loses a match.
pub proof fn lemma_shorter_query_matches(q: Seq<char>, c: char, h: Seq<char>)
    requires
        fuzzy(q.push(c), h),
    ensures
        fuzzy(q, h),
{
    assert(q.push(c).drop_last() =~= q);
    lemma_subseq_prefix(lower_all(q), lower_of(c), lower_all(h));
}

/// A longer haystack, on either side, still matches.
pub proof fn lemma_longer_haystack_matches(q: Seq<char>, h: Seq<char>, s: Seq<char>)
    requires
        fuzzy(q, h),
    ensures
        fuzzy(q, s + h),
        fuzzy(q, h + s),
{
    lemma_lower_all_concat(s, h);
    lemma_lower_all_concat(h, s);
    lemma_subseq_wider(lower_all(q), lower_all(h), lower_all(s));
}

pub open spec fn ascii_upper_all(s: Seq<char>) -> Seq<char> {
    s.map_values(|c: char| ascii_upper(c))
}

pub open spec fn ascii_lower_all(s: Seq<char>) -> Seq<char> {
    s.map_values(|c: char| ascii_lower(c))
}

proof fn lemma_lower_ignores_ascii_case(s: Seq<char>)
    ensures
        lower_all(ascii_upper_all(s)) == lower_all(s),
        lower_all(ascii_lower_all(s)) == lower_all(s),
    decreases s.len(),
{
    if s.len() > 0 {
        let c = s.last();
        lemma_lower_ignores_ascii_case(s.drop_last());
        assert(ascii_upper_all(s).drop_last() =~= ascii_upper_all(s.drop_last()));
        assert(ascii_lower_all(s).drop_last() =~= ascii_lower_all(s.drop_last()));
        assert(ascii_upper_all(s).last() == ascii_upper(c));
        assert(ascii_lower_all(s).last() == ascii_lower(c));
        assert(lower_of(ascii_upper(c)) == lower_of(c));
        assert(lower_of(ascii_lower(c)) == lower_of(c));
    }
}

/// Matching ignores ASCII case: upper-casing the query or lower-casing the
/// haystack changes nothing.
pub proof fn lemma_match_ignores_ascii_case(q: Seq<char>, h: Seq<char>)
    ensures
        fuzzy(ascii_upper_all(q), ascii_lower_all(h)) == fuzzy(q, h),
{
    lemma_lower_ignores_ascii_case(q);
    lemma_lower_ignores_ascii_case(h);
}


/// What search looks at, read back from a search row: alias, folder path
/// and note, joined by spaces.
pub open spec fn row_haystack(r: RowView) -> Seq<char> {
    match r {
        RowView::Host { alias, context, note, .. } => join(seq![alias, note_text(context), note_text(note)], seq![' ']),
        _ => seq![],
    }
}

/// The host rows of `rows` that `q` still finds, in order.
pub open spec fn still_matching(rows: Seq<RowView>, q: Seq<char>) -> Seq<RowView>
    decreases rows.len(),
{
    if rows.len() == 0 {
        seq![]
    } else if rows.last() is Host && fuzzy(q, row_haystack(rows.last())) {
        still_matching(rows.drop_last(), q).push(rows.last())
    } else {
        still_matching(rows.drop_last(), q)
    }
}

/// Typing narrows a search: the rows for the longer query are exactly the
/// rows of the shorter one that the longer query still finds.
pub proof fn lemma_typing_narrows(hs: Seq<HostView>, favs: Set<Seq<char>>, q: Seq<char>, c: char)
    ensures
        host_rows(hs, favs, Pick::Matching(q.push(c)), 0) == still_matching(
            host_rows(hs, favs, Pick::Matching(q), 0),
            q.push(c),
        ),
    decreases hs.len(),
{
    if hs.len() > 0 {
        let h = hs.last();
        lemma_typing_narrows(hs.drop_last(), favs, q, c);
        let old = host_rows(hs.drop_last(), favs, Pick::Matching(q), 0);
        let row = pick_row(favs, h, Pick::Matching(q), 0);
        assert(row_haystack(row) == haystack(h)) by {
            if h.folder.len() == 0 {
                assert(join(h.folder, path_separator()) =~= Seq::<char>::empty());
            }
        }
        if fuzzy(q.push(c), haystack(h)) {
            lemma_shorter_query_matches(q, c, haystack(h));
            assert(old.push(row).drop_last() =~= old);
        } else if fuzzy(q, haystack(h)) {
            assert(old.push(row).drop_last() =~= old);
        }
    }
}


// ---------------------------------------------------------------------------
// There is always a row to rest on
// ---------------------------------------------------------------------------

pub proof fn lemma_host_rows_are_hosts(hs: Seq<HostView>, favs: Set<Seq<char>>, pick: Pick, depth: nat)
    ensures
        forall|i: int| 0 <= i < host_rows(hs, favs, pick, depth).len() ==> #[trigger] host_rows(hs, favs, pick, depth)[i] is Host,
    decreases hs.len(),
{
    if hs.len() > 0 {
        lemma_host_rows_are_hosts(hs.drop_last(), favs, pick, depth);
    }
}

proof fn lemma_host_rows_found(hs: Seq<HostView>, favs: Set<Seq<char>>, p: Seq<Seq<char>>, depth: nat, i: int)
    requires
        0 <= i < hs.len(),
        hs[i].folder == p,
    ensures
        host_rows(hs, favs, Pick::InFolder(p), depth).len() > 0,
    decreases hs.len(),
{
    if i < hs.len() - 1 {
        assert(hs.drop_last()[i] == hs[i]);
        lemma_host_rows_found(hs.drop_last(), favs, p, depth, i);
    }
}

proof fn lemma_children_found(hs: Seq<HostView>, p: Seq<Seq<char>>, i: int)
    requires
        0 <= i < hs.len(),
        extends(hs[i].folder, p),
    ensures
        children(hs, p).len() > 0,
    decreases hs.len(),
{
    if i < hs.len() - 1 {
        assert(hs.drop_last()[i] == hs[i]);
        lemma_children_found(hs.drop_last(), p, i);
    }
}

proof fn lemma_children_rows_folder(
    hs: Seq<HostView>,
    favs: Set<Seq<char>>,
    closed: Set<Seq<char>>,
    prefix: Seq<Seq<char>>,
    depth: nat,
    fuel: nat,
    cs: Seq<Seq<char>>,
)
    requires
        cs.len() > 0,
    ensures
        ({
            let rows = children_rows(hs, favs, closed, prefix, depth, fuel, cs);
            let at = children_rows(hs, favs, closed, prefix, depth, fuel, cs.drop_last()).len() as int;
            0 <= at < rows.len() && rows[at] is Folder
        }),
{
    let before = children_rows(hs, favs, closed, prefix, depth, fuel, cs.drop_last());
    let block = child_block(hs, favs, closed, prefix, depth, fuel, cs.last());
    assert(block.len() > 0 && block[0] is Folder);
    assert((before + block)[before.len() as int] == block[0]);
}

/// Whenever there are rows, one of them is not a section header.
pub proof fn lemma_rows_have_target(
    hs: Seq<HostView>,
    favs: Set<Seq<char>>,
    closed: Set<Seq<char>>,
    search: Option<Seq<char>>,
)
    ensures
        rows_for(hs, favs, closed, search).len() > 0 ==> exists|t: int|
            0 <= t < rows_for(hs, favs, closed, search).len() && selectable(
                #[trigger] rows_for(hs, favs, closed, search)[t],
            ),
{
    let rows = rows_for(hs, favs, closed, search);
    if rows.len() > 0 {
        match search {
            Some(q) => {
                lemma_host_rows_are_hosts(hs, favs, Pick::Matching(q), 0);
                assert(selectable(rows[0]));
            },
            None => {
                let fav = favorites_section(hs, favs);
                let fd = deepest(hs) + 1;
                let folders = folder_rows(hs, favs, closed, seq![], 0, fd);
                let loose = host_rows(hs, favs, Pick::InFolder(seq![]), 1);
                let ung = if loose.len() > 0 {
                    seq![RowView::Section { label: ungrouped_label() }] + loose
                } else {
                    seq![]
                };
                assert(rows =~= fav + folders + ung);
                if fav.len() > 0 {
                    let starred = host_rows(hs, favs, Pick::Starred, 1);
                    lemma_host_rows_are_hosts(hs, favs, Pick::Starred, 1);
                    assert(fav[1] == starred[0]);
                    assert(rows[1] == fav[1]);
                    assert(selectable(rows[1]));
                } else if folders.len() > 0 {
                    let cs = children(hs, seq![]);
                    if cs.len() == 0 {
                        assert(folders =~= Seq::<RowView>::empty());
                    }
                    lemma_children_rows_folder(hs, favs, closed, seq![], 0, (fd - 1) as nat, cs);
                    let at = children_rows(hs, favs, closed, seq![], 0, (fd - 1) as nat, cs.drop_last()).len() as int;
                    assert(rows[at] == folders[at]);
                    assert(selectable(rows[at]));
                } else {
                    lemma_host_rows_are_hosts(hs, favs, Pick::InFolder(seq![]), 1);
                    assert(rows[1] == ung[1]);
                    assert(ung[1] == loose[0]);
                    assert(selectable(rows[1]));
                }
            },
        }
    }
}

/// The tree is empty exactly when there are no hosts.
pub proof fn lemma_tree_empty_iff_no_hosts(hs: Seq<HostView>, favs: Set<Seq<char>>, closed: Set<Seq<char>>)
    ensures
        tree_rows(hs, favs, closed).len() == 0 <==> hs.len() == 0,
{
    let fd = deepest(hs) + 1;
    let rows = tree_rows(hs, favs, closed);
    let fav = favorites_section(hs, favs);
    let folders = folder_rows(hs, favs, closed, seq![], 0, fd);
    let loose = host_rows(hs, favs, Pick::InFolder(seq![]), 1);
    let ung = if loose.len() > 0 {
        seq![RowView::Section { label: ungrouped_label() }] + loose
    } else {
        seq![]
    };
    assert(rows =~= fav + folders + ung);
    if hs.len() == 0 {
        assert(children(hs, seq![]) =~= Seq::<Seq<char>>::empty());
        assert(folders =~= Seq::<RowView>::empty());
    } else {
        let h = hs[0];
        if h.folder.len() == 0 {
            assert(h.folder =~= Seq::<Seq<char>>::empty());
            lemma_host_rows_found(hs, favs, seq![], 1, 0);
        } else {
            assert(h.folder.take(0) =~= Seq::<Seq<char>>::empty());
            lemma_children_found(hs, seq![], 0);
            lemma_children_rows_folder(hs, favs, closed, seq![], 0, (fd - 1) as nat, children(hs, seq![]));
        }
    }
}


// ---------------------------------------------------------------------------
// Folder ids
// ---------------------------------------------------------------------------

/// No piece holds `c`.
pub open spec fn pieces_free_of(parts: Seq<Seq<char>>, c: char) -> bool {
    forall|i: int, j: int| 0 <= i < parts.len() && 0 <= j < parts[i].len() ==> #[trigger] parts[i][j] != c
}

proof fn lemma_join_front(a: Seq<Seq<char>>, sep: Seq<char>)
    requires
        a.len() > 1,
    ensures
        join(a, sep) == a[0] + sep + join(a.drop_first(), sep),
    decreases a.len(),
{
    if a.len() == 2 {
        assert(a.drop_last().len() == 1);
        assert(a.drop_first().len() == 1);
        assert(join(a.drop_first(), sep) == a[1]);
        assert(join(a.drop_last(), sep) == a[0]);
        assert(join(a, sep) =~= a[0] + sep + join(a.drop_first(), sep));
    } else {
        lemma_join_front(a.drop_last(), sep);
        assert(a.drop_last().drop_first() =~= a.drop_first().drop_last());
        assert(a.drop_first().last() == a.last());
        assert(join(a, sep) =~= a[0] + sep + join(a.drop_first(), sep));
    }
}

proof fn lemma_find_absent(x: Seq<char>, c: char)
    requires
        forall|j: int| 0 <= j < x.len() ==> #[trigger] x[j] != c,
    ensures
        find(x, c) == x.len(),
    decreases x.len(),
{
    if x.len() > 0 {
        lemma_find_absent(x.drop_first(), c);
    }
}

proof fn lemma_find_after(x: Seq<char>, c: char, y: Seq<char>)
    requires
        forall|j: int| 0 <= j < x.len() ==> #[trigger] x[j] != c,
    ensures
        find(x + seq![c] + y, c) == x.len(),
    decreases x.len(),
{
    let s = x + seq![c] + y;
    if x.len() == 0 {
        assert(s[0] == c);
    } else {
        assert(s.drop_first() =~= x.drop_first() + seq![c] + y);
        lemma_find_after(x.drop_first(), c, y);
    }
}

proof fn lemma_split_join(a: Seq<Seq<char>>, c: char)
    requires
        a.len() > 0,
        pieces_free_of(a, c),
    ensures
        split(join(a, seq![c]), c) == a,
    decreases a.len(),
{
    if a.len() == 1 {
        assert(forall|j: int| 0 <= j < a[0].len() ==> #[trigger] a[0][j] != c);
        lemma_find_absent(a[0], c);
        assert(split(a[0], c) =~= seq![a[0]]);
    } else {
        lemma_join_front(a, seq![c]);
        let rest = join(a.drop_first(), seq![c]);
        assert(forall|j: int| 0 <= j < a[0].len() ==> #[trigger] a[0][j] != c);
        lemma_find_after(a[0], c, rest);
        let s = a[0] + seq![c] + rest;
        assert(s.take(a[0].len() as int) =~= a[0]);
        assert(s.skip(a[0].len() + 1int) =~= rest);
        assert forall|i: int, j: int| 0 <= i < a.drop_first().len() && 0 <= j < a.drop_first()[i].len() implies #[trigger] a.drop_first()[i][j] != c by {
            assert(a.drop_first()[i] == a[i + 1]);
        }
        lemma_split_join(a.drop_first(), c);
        assert(a =~= seq![a[0]] + a.drop_first());
    }
}

/// Folder ids tell folders apart: two section paths with pieces free of the
/// separator `U+0001` have the same id exactly when they are the same path.
pub proof fn lemma_folder_id_injective(p1: Seq<Seq<char>>, p2: Seq<Seq<char>>)
    requires
        p1.len() > 0,
        p2.len() > 0,
        pieces_free_of(p1, '\u{1}'),
        pieces_free_of(p2, '\u{1}'),
    ensures
        folder_id(p1) == folder_id(p2) <==> p1 == p2,
{
    reveal_strlit("\u{1}");
    assert(id_separator() =~= seq!['\u{1}']);
    lemma_split_join(p1, '\u{1}');
    lemma_split_join(p2, '\u{1}');
}


proof fn lemma_children_contains(hs: Seq<HostView>, p: Seq<Seq<char>>, i: int)
    requires
        0 <= i < hs.len(),
        extends(hs[i].folder, p),
    ensures
        children(hs, p).contains(hs[i].folder[p.len() as int]),
    decreases hs.len(),
{
    let prev = children(hs.drop_last(), p);
    if i < hs.len() - 1 {
        assert(hs.drop_last()[i] == hs[i]);
        lemma_children_contains(hs.drop_last(), p, i);
        let k = choose|k: int| 0 <= k < prev.len() && prev[k] == hs[i].folder[p.len() as int];
        if children(hs, p) != prev {
            assert(children(hs, p)[k] == prev[k]);
        }
    } else {
        let x = hs[i].folder[p.len() as int];
        if prev.contains(x) {
            let k = choose|k: int| 0 <= k < prev.len() && prev[k] == x;
            if children(hs, p) != prev {
                assert(children(hs, p)[k] == prev[k]);
            }
        } else {
            assert(children(hs, p)[prev.len() as int] == x);
        }
    }
}

proof fn lemma_children_rows_block(
    hs: Seq<HostView>,
    favs: Set<Seq<char>>,
    closed: Set<Seq<char>>,
    prefix: Seq<Seq<char>>,
    depth: nat,
    fuel: nat,
    cs: Seq<Seq<char>>,
    k: int,
) -> (off: int)
    requires
        0 <= k < cs.len(),
    ensures
        0 <= off,
        off + child_block(hs, favs, closed, prefix, depth, fuel, cs[k]).len() <= children_rows(
            hs,
            favs,
            closed,
            prefix,
            depth,
            fuel,
            cs,
        ).len(),
        forall|j: int|
            0 <= j < child_block(hs, favs, closed, prefix, depth, fuel, cs[k]).len() ==> children_rows(
                hs,
                favs,
                closed,
                prefix,
                depth,
                fuel,
                cs,
            )[off + j] == #[trigger] child_block(hs, favs, closed, prefix, depth, fuel, cs[k])[j],
    decreases cs.len(),
{
    let before = children_rows(hs, favs, closed, prefix, depth, fuel, cs.drop_last());
    let last = child_block(hs, favs, closed, prefix, depth, fuel, cs.last());
    if k == cs.len() - 1 {
        before.len() as int
    } else {
        assert(cs.drop_last()[k] == cs[k]);
        lemma_children_rows_block(hs, favs, closed, prefix, depth, fuel, cs.drop_last(), k)
    }
}

proof fn lemma_folder_row_present(
    hs: Seq<HostView>,
    favs: Set<Seq<char>>,
    prefix: Seq<Seq<char>>,
    depth: nat,
    fuel: nat,
    i: int,
) -> (j: int)
    requires
        0 <= i < hs.len(),
        extends(hs[i].folder, prefix),
        fuel >= hs[i].folder.len() - prefix.len(),
    ensures
        0 <= j < folder_rows(hs, favs, Set::<Seq<char>>::empty(), prefix, depth, fuel).len(),
        folder_rows(hs, favs, Set::<Seq<char>>::empty(), prefix, depth, fuel)[j] matches RowView::Folder {
            id,
            depth: d,
            ..
        } && id == folder_id(hs[i].folder) && d == depth + hs[i].folder.len() - prefix.len() - 1,
    decreases fuel,
{
    let closed = Set::<Seq<char>>::empty();
    let f = hs[i].folder;
    let cs = children(hs, prefix);
    let c = f[prefix.len() as int];
    lemma_children_contains(hs, prefix, i);
    let k = choose|k: int| 0 <= k < cs.len() && cs[k] == c;
    let off = lemma_children_rows_block(hs, favs, closed, prefix, depth, (fuel - 1) as nat, cs, k);
    let p = prefix.push(c);
    let block = child_block(hs, favs, closed, prefix, depth, (fuel - 1) as nat, c);
    assert(block[0] == RowView::Folder { id: folder_id(p), name: c, depth, collapsed: false });
    if f.len() == prefix.len() + 1 {
        assert(f =~= p) by {
            assert(f.take(prefix.len() as int) == prefix);
            assert forall|x: int| 0 <= x < prefix.len() implies f[x] == prefix[x] by {
                assert(f.take(prefix.len() as int)[x] == f[x]);
            }
        }
        off
    } else {
        assert(f.take(p.len() as int) =~= p) by {
            assert(f.take(prefix.len() as int) == prefix);
            assert forall|x: int| 0 <= x < prefix.len() implies f[x] == prefix[x] by {
                assert(f.take(prefix.len() as int)[x] == f[x]);
            }
        }
        let inner = folder_rows(hs, favs, closed, p, depth + 1, (fuel - 1) as nat);
        let j2 = lemma_folder_row_present(hs, favs, p, depth + 1, (fuel - 1) as nat, i);
        assert(block[1 + j2] == inner[j2]);
        off + 1 + j2
    }
}

/// With nothing collapsed, every host written under a section path has the
/// folder row of that path in the tree, one level above the host, and its
/// id is the host's [`folder_id`].
pub proof fn lemma_folder_row_in_tree(hs: Seq<HostView>, favs: Set<Seq<char>>, i: int)
    requires
        0 <= i < hs.len(),
        hs[i].folder.len() > 0,
    ensures
        exists|j: int|
            0 <= j < tree_rows(hs, favs, Set::<Seq<char>>::empty()).len() && (#[trigger] tree_rows(
                hs,
                favs,
                Set::<Seq<char>>::empty(),
            )[j] matches RowView::Folder { id, depth, .. } && id == folder_id(hs[i].folder) && depth
                == hs[i].folder.len() - 1),
{
    let closed = Set::<Seq<char>>::empty();
    let fd = deepest(hs) + 1;
    lemma_deepest(hs);
    assert(hs[i].folder.len() <= deepest(hs));
    assert(hs[i].folder.take(0) =~= Seq::<Seq<char>>::empty());
    let j = lemma_folder_row_present(hs, favs, seq![], 0, fd, i);
    let rows = tree_rows(hs, favs, closed);
    let fav = favorites_section(hs, favs);
    let folders = folder_rows(hs, favs, closed, seq![], 0, fd);
    let loose = host_rows(hs, favs, Pick::InFolder(seq![]), 1);
    let ung = if loose.len() > 0 {
        seq![RowView::Section { label: ungrouped_label() }] + loose
    } else {
        seq![]
    };
    assert(rows =~= fav + folders + ung);
    assert(rows[fav.len() + j] == folders[j]);
}


// ---------------------------------------------------------------------------
// Moving down and back up
// ---------------------------------------------------------------------------

/// How many steps of `step` from `s`, counting from `k`, reach a row that is
/// not a section header (`m` when none does within the rows).
pub open spec fn steps_to_stop(rows: Seq<RowView>, s: int, step: int, k: int) -> int
    decreases rows.len() - k,
{
    if k >= rows.len() {
        rows.len() as int
    } else if selectable(rows[stepped(s, step, k, rows.len() as int)]) {
        k
    } else {
        steps_to_stop(rows, s, step, k + 1)
    }
}

proof fn lemma_steps_to_stop(rows: Seq<RowView>, s: int, step: int, k: int)
    requires
        0 <= k <= rows.len(),
    ensures
        k <= steps_to_stop(rows, s, step, k) <= rows.len(),
        forall|j: int| k <= j < steps_to_stop(rows, s, step, k) ==> !selectable(
            #[trigger] rows[stepped(s, step, j, rows.len() as int)],
        ),
        steps_to_stop(rows, s, step, k) < rows.len() ==> selectable(
            rows[stepped(s, step, steps_to_stop(rows, s, step, k), rows.len() as int)],
        ),
    decreases rows.len() - k,
{
    if k < rows.len() && !selectable(rows[stepped(s, step, k, rows.len() as int)]) {
        lemma_steps_to_stop(rows, s, step, k + 1);
    }
}

proof fn lemma_stepped_next(s0: int, step: int, k0: int, m: int)
    requires
        m > 0,
    ensures
        (stepped(s0, step, k0, m) + step) % m == stepped(s0, step, k0 + 1, m),
{
    let x = s0 + k0 * step;
    vstd::arithmetic::div_mod::lemma_add_mod_noop_right(step, x, m);
    assert(step + x == s0 + (k0 + 1) * step) by (nonlinear_arith)
        requires
            x == s0 + k0 * step,
    ;
}

/// Stepping past section headers stops at the first row along the way that
/// is not one.
proof fn lemma_clamp_lands(rows: Seq<RowView>, s: nat, step: int, n: nat, s0: int, k0: int, stop: int)
    requires
        rows.len() > 0,
        s < rows.len(),
        s == stepped(s0, step, k0, rows.len() as int),
        k0 <= stop < k0 + n,
        forall|j: int| k0 <= j < stop ==> !selectable(#[trigger] rows[stepped(s0, step, j, rows.len() as int)]),
        selectable(rows[stepped(s0, step, stop, rows.len() as int)]),
    ensures
        clamp(rows, s, step, n) == stepped(s0, step, stop, rows.len() as int),
    decreases n,
{
    let m = rows.len() as int;
    if stop > k0 {
        assert(!selectable(rows[stepped(s0, step, k0, m)]));
        lemma_stepped_next(s0, step, k0, m);
        let next = (s + step) % m;
        assert(0 <= next < m) by {
            vstd::arithmetic::div_mod::lemma_mod_bound(s + step, m);
        }
        lemma_clamp_lands(rows, next as nat, step, (n - 1) as nat, s0, k0 + 1, stop);
    }
}

/// Moving down a row and back up returns to the row the cursor was on: the
/// first move stops at the next row that is not a section header (wrapping
/// around), with only headers between, and the second walks back over them.
pub proof fn lemma_down_then_up(rows: Seq<RowView>, s0: nat)
    requires
        s0 < rows.len(),
        selectable(rows[s0 as int]),
    ensures
        ({
            let m = rows.len() as int;
            let down = clamp(rows, ((s0 as int + 1) % m) as nat, 1, rows.len());
            let k = steps_to_stop(rows, s0 as int, 1, 1);
            &&& 1 <= k <= m
            &&& down == (s0 as int + k) % m
            &&& selectable(rows[down as int])
            &&& forall|j: int| 1 <= j < k ==> !selectable(#[trigger] rows[(s0 as int + j) % m])
            &&& clamp(rows, ((down - 1) % m) as nat, -1, rows.len()) == s0
        }),
{
    let m = rows.len() as int;
    let s = s0 as int;
    lemma_steps_to_stop(rows, s, 1, 1);
    let k = steps_to_stop(rows, s, 1, 1);
    assert forall|j: int| #![trigger stepped(s, 1, j, m)] true implies stepped(s, 1, j, m) == (s + j) % m by {
        assert(s + j * 1 == s + j);
    }
    assert(stepped(s, 1, m, m) == s) by {
        vstd::arithmetic::div_mod::lemma_mod_add_multiples_vanish(s, m);
        vstd::arithmetic::div_mod::lemma_small_mod(s0, m as nat);
    }
    assert(selectable(rows[stepped(s, 1, k, m)]));
    assert(stepped(s, 1, 1, m) == (s + 1) % m);
    assert(0 <= (s + 1) % m < m) by {
        vstd::arithmetic::div_mod::lemma_mod_bound(s + 1, m);
    }
    lemma_clamp_lands(rows, ((s + 1) % m) as nat, 1, rows.len(), s, 1, k);
    let down = (s + k) % m;
    assert(0 <= down < m) by {
        vstd::arithmetic::div_mod::lemma_mod_bound(s + k, m);
    }
    // Walking back from `down` visits the same rows in reverse.
    assert forall|j: int| 0 <= j <= k implies #[trigger] stepped(down, -1, j, m) == stepped(s, 1, k - j, m) by {
        assert(down + j * -1 == down - j);
        assert(s + (k - j) * 1 == s + k - j);
        if j < m {
            vstd::arithmetic::div_mod::lemma_sub_mod_noop(s + k, j, m);
            vstd::arithmetic::div_mod::lemma_small_mod(j as nat, m as nat);
        } else {
            vstd::arithmetic::div_mod::lemma_mod_add_multiples_vanish(s, m);
            vstd::arithmetic::div_mod::lemma_mod_add_multiples_vanish(s - m, m);
            vstd::arithmetic::div_mod::lemma_small_mod(s0, m as nat);
            assert(down == s);
        }
    }
    assert forall|j: int| 1 <= j < k implies !selectable(#[trigger] rows[stepped(down, -1, j, m)]) by {
        assert(stepped(down, -1, j, m) == stepped(s, 1, k - j, m));
    }
    assert(stepped(down, -1, k, m) == stepped(s, 1, 0, m));
    assert(stepped(s, 1, 0, m) == s) by {
        vstd::arithmetic::div_mod::lemma_small_mod(s0, m as nat);
    }
    assert(stepped(down, -1, 1, m) == (down - 1) % m);
    assert(0 <= (down - 1) % m < m) by {
        vstd::arithmetic::div_mod::lemma_mod_bound(down - 1, m);
    }
    lemma_clamp_lands(rows, ((down - 1) % m) as nat, -1, rows.len(), down, 1, k);
    assert(clamp(rows, ((s0 as int + 1) % m) as nat, 1, rows.len()) == down);
    assert(selectable(rows[down as int]));
    assert forall|j: int| 1 <= j < k implies !selectable(#[trigger] rows[(s0 as int + j) % m]) by {
        assert(stepped(s, 1, j, m) == (s + j) % m);
    }
    assert(clamp(rows, ((down - 1) % m) as nat, -1, rows.len()) == s0);
}


// ---------------------------------------------------------------------------
// Star marks
// ---------------------------------------------------------------------------

/// Every host row is marked as a favorite exactly when its alias is starred.
pub open spec fn marks_right(rows: Seq<RowView>, favs: Set<Seq<char>>) -> bool {
    forall|i: int|
        0 <= i < rows.len() && (#[trigger] rows[i]) is Host ==> rows[i]->Host_favorite == favs.contains(
            rows[i]->Host_alias,
        )
}

proof fn lemma_marks_concat(a: Seq<RowView>, b: Seq<RowView>, favs: Set<Seq<char>>)
    requires
        marks_right(a, favs),
        marks_right(b, favs),
    ensures
        marks_right(a + b, favs),
{
    assert forall|i: int| 0 <= i < (a + b).len() && (#[trigger] (a + b)[i]) is Host implies (a + b)[i]->Host_favorite
        == favs.contains((a + b)[i]->Host_alias) by {
        if i < a.len() {
            assert((a + b)[i] == a[i]);
        } else {
            assert((a + b)[i] == b[i - a.len()]);
        }
    }
}

proof fn lemma_host_rows_marks(hs: Seq<HostView>, favs: Set<Seq<char>>, pick: Pick, depth: nat)
    ensures
        marks_right(host_rows(hs, favs, pick, depth), favs),
    decreases hs.len(),
{
    if hs.len() > 0 {
        lemma_host_rows_marks(hs.drop_last(), favs, pick, depth);
        let r = host_rows(hs.drop_last(), favs, pick, depth);
        if picks(favs, hs.last(), pick) {
            lemma_marks_concat(r, seq![pick_row(favs, hs.last(), pick, depth)], favs);
            assert(r.push(pick_row(favs, hs.last(), pick, depth)) =~= r + seq![pick_row(favs, hs.last(), pick, depth)]);
        }
    }
}

proof fn lemma_folder_rows_marks(
    hs: Seq<HostView>,
    favs: Set<Seq<char>>,
    closed: Set<Seq<char>>,
    prefix: Seq<Seq<char>>,
    depth: nat,
    fuel: nat,
)
    ensures
        marks_right(folder_rows(hs, favs, closed, prefix, depth, fuel), favs),
    decreases fuel, 0nat, 0nat,
{
    if fuel > 0 {
        lemma_children_rows_marks(hs, favs, closed, prefix, depth, (fuel - 1) as nat, children(hs, prefix));
    }
}

proof fn lemma_child_block_marks(
    hs: Seq<HostView>,
    favs: Set<Seq<char>>,
    closed: Set<Seq<char>>,
    prefix: Seq<Seq<char>>,
    depth: nat,
    fuel: nat,
    child: Seq<char>,
)
    ensures
        marks_right(child_block(hs, favs, closed, prefix, depth, fuel, child), favs),
    decreases fuel, 1nat, 0nat,
{
    let p = prefix.push(child);
    let id = folder_id(p);
    let head = seq![RowView::Folder { id, name: child, depth, collapsed: closed.contains(id) }];
    if closed.contains(id) {
        lemma_marks_concat(head, seq![], favs);
    } else {
        lemma_folder_rows_marks(hs, favs, closed, p, depth + 1, fuel);
        lemma_host_rows_marks(hs, favs, Pick::InFolder(p), depth + 1);
        let a = folder_rows(hs, favs, closed, p, depth + 1, fuel);
        let b = host_rows(hs, favs, Pick::InFolder(p), depth + 1);
        lemma_marks_concat(a, b, favs);
        lemma_marks_concat(head, a + b, favs);
    }
}

proof fn lemma_children_rows_marks(
    hs: Seq<HostView>,
    favs: Set<Seq<char>>,
    closed: Set<Seq<char>>,
    prefix: Seq<Seq<char>>,
    depth: nat,
    fuel: nat,
    cs: Seq<Seq<char>>,
)
    ensures
        marks_right(children_rows(hs, favs, closed, prefix, depth, fuel, cs), favs),
    decreases fuel, 2nat, cs.len(),
{
    if cs.len() > 0 {
        lemma_children_rows_marks(hs, favs, closed, prefix, depth, fuel, cs.drop_last());
        lemma_child_block_marks(hs, favs, closed, prefix, depth, fuel, cs.last());
        lemma_marks_concat(
            children_rows(hs, favs, closed, prefix, depth, fuel, cs.drop_last()),
            child_block(hs, favs, closed, prefix, depth, fuel, cs.last()),
            favs,
        );
    }
}

/// Every host row the picker shows carries the star exactly when its alias
/// is starred.
pub proof fn lemma_rows_marks(hs: Seq<HostView>, favs: Set<Seq<char>>, closed: Set<Seq<char>>, search: Option<Seq<char>>)
    ensures
        marks_right(rows_for(hs, favs, closed, search), favs),
{
    match search {
        Some(q) => lemma_host_rows_marks(hs, favs, Pick::Matching(q), 0),
        None => {
            let fd = deepest(hs) + 1;
            let fav = favorites_section(hs, favs);
            let folders = folder_rows(hs, favs, closed, seq![], 0, fd);
            let loose = host_rows(hs, favs, Pick::InFolder(seq![]), 1);
            let sec = seq![RowView::Section { label: ungrouped_label() }];
            let ung = if loose.len() > 0 {
                sec + loose
            } else {
                seq![]
            };
            let starred = host_rows(hs, favs, Pick::Starred, 1);
            lemma_host_rows_marks(hs, favs, Pick::Starred, 1);
            lemma_host_rows_marks(hs, favs, Pick::InFolder(seq![]), 1);
            lemma_folder_rows_marks(hs, favs, closed, seq![], 0, fd);
            let fsec = seq![RowView::Section { label: favorites_label() }];
            lemma_marks_concat(fsec, starred, favs);
            lemma_marks_concat(sec, loose, favs);
            lemma_marks_concat(Seq::<RowView>::empty(), Seq::<RowView>::empty(), favs);
            assert(marks_right(fav, favs)) by {
                if starred.len() == 0 {
                    assert(fav =~= Seq::<RowView>::empty());
                }
            }
            assert(marks_right(ung, favs)) by {
                if loose.len() == 0 {
                    assert(ung =~= Seq::<RowView>::empty());
                }
            }
            lemma_marks_concat(fav, folders, favs);
            lemma_marks_concat(fav + folders, ung, favs);
        },
    }
}


// ---------------------------------------------------------------------------
// A host has one place in the rows
// ---------------------------------------------------------------------------

/// The aliases of the host rows that are not favorites shortcuts, in order.
pub open spec fn plain(rows: Seq<RowView>) -> Seq<Seq<char>>
    decreases rows.len(),
{
    if rows.len() == 0 {
        seq![]
    } else {
        match rows.last() {
            RowView::Host { alias, shortcut: false, .. } => plain(rows.drop_last()).push(alias),
            _ => plain(rows.drop_last()),
        }
    }
}

/// `x` is the alias of a host of `hs` whose folder meets `cond`.
pub open spec fn drawn(x: Seq<char>, hs: Seq<HostView>, cond: spec_fn(Seq<Seq<char>>) -> bool) -> bool {
    exists|i: int| 0 <= i < hs.len() && #[trigger] hs[i].alias == x && cond(hs[i].folder)
}

/// Each of `xs` is [`drawn`] from `hs`.
pub open spec fn drawn_from(xs: Seq<Seq<char>>, hs: Seq<HostView>, cond: spec_fn(Seq<Seq<char>>) -> bool) -> bool {
    forall|k: int| 0 <= k < xs.len() ==> drawn(#[trigger] xs[k], hs, cond)
}

proof fn lemma_plain_concat(a: Seq<RowView>, b: Seq<RowView>)
    ensures
        plain(a + b) == plain(a) + plain(b),
    decreases b.len(),
{
    if b.len() == 0 {
        assert(a + b =~= a);
        assert(plain(a) + plain(b) =~= plain(a));
    } else {
        lemma_plain_concat(a, b.drop_last());
        assert((a + b).drop_last() =~= a + b.drop_last());
        assert((a + b).last() == b.last());
        assert(plain(a + b) =~= plain(a) + plain(b));
    }
}

/// Two runs of aliases drawn from hosts whose folders cannot meet both
/// conditions share no alias.
proof fn lemma_join_plain(
    x: Seq<Seq<char>>,
    y: Seq<Seq<char>>,
    hs: Seq<HostView>,
    c1: spec_fn(Seq<Seq<char>>) -> bool,
    c2: spec_fn(Seq<Seq<char>>) -> bool,
    c: spec_fn(Seq<Seq<char>>) -> bool,
)
    requires
        x.no_duplicates(),
        y.no_duplicates(),
        drawn_from(x, hs, c1),
        drawn_from(y, hs, c2),
        distinct_aliases(hs),
        forall|f: Seq<Seq<char>>| !(#[trigger] c1(f) && c2(f)),
        forall|f: Seq<Seq<char>>| #[trigger] c1(f) ==> c(f),
        forall|f: Seq<Seq<char>>| #[trigger] c2(f) ==> c(f),
    ensures
        (x + y).no_duplicates(),
        drawn_from(x + y, hs, c),
{
    let z = x + y;
    assert forall|k1: int, k2: int| 0 <= k1 < z.len() && 0 <= k2 < z.len() && k1 != k2 implies z[k1] != z[k2] by {
        if k1 < x.len() && k2 >= x.len() {
            assert(z[k1] == x[k1]);
            assert(z[k2] == y[k2 - x.len()]);
            let i1 = choose|i: int| 0 <= i < hs.len() && #[trigger] hs[i].alias == x[k1] && c1(hs[i].folder);
            let i2 = choose|i: int| 0 <= i < hs.len() && #[trigger] hs[i].alias == y[k2 - x.len()] && c2(hs[i].folder);
            if z[k1] == z[k2] {
                if i1 < i2 {
                    assert(hs[i1].alias != hs[i2].alias);
                } else if i2 < i1 {
                    assert(hs[i2].alias != hs[i1].alias);
                }
            }
        } else if k2 < x.len() && k1 >= x.len() {
            assert(z[k2] == x[k2]);
            assert(z[k1] == y[k1 - x.len()]);
            let i1 = choose|i: int| 0 <= i < hs.len() && #[trigger] hs[i].alias == x[k2] && c1(hs[i].folder);
            let i2 = choose|i: int| 0 <= i < hs.len() && #[trigger] hs[i].alias == y[k1 - x.len()] && c2(hs[i].folder);
            if z[k1] == z[k2] {
                if i1 < i2 {
                    assert(hs[i1].alias != hs[i2].alias);
                } else if i2 < i1 {
                    assert(hs[i2].alias != hs[i1].alias);
                }
            }
        } else if k1 < x.len() {
            assert(z[k1] == x[k1] && z[k2] == x[k2]);
        } else {
            assert(z[k1] == y[k1 - x.len()] && z[k2] == y[k2 - x.len()]);
        }
    }
    assert forall|k: int| 0 <= k < z.len() implies drawn(#[trigger] z[k], hs, c) by {
        if k < x.len() {
            assert(z[k] == x[k]);
            let i = choose|i: int| 0 <= i < hs.len() && #[trigger] hs[i].alias == x[k] && c1(hs[i].folder);
            assert(hs[i].alias == z[k] && c(hs[i].folder));
        } else {
            assert(z[k] == y[k - x.len()]);
            let i = choose|i: int| 0 <= i < hs.len() && #[trigger] hs[i].alias == y[k - x.len()] && c2(hs[i].folder);
            assert(hs[i].alias == z[k] && c(hs[i].folder));
        }
    }
    assert(drawn_from(z, hs, c));
}

proof fn lemma_plain_host_rows(hs: Seq<HostView>, favs: Set<Seq<char>>, pick: Pick, depth: nat)
    requires
        distinct_aliases(hs),
    ensures
        plain(host_rows(hs, favs, pick, depth)).no_duplicates(),
        drawn_from(plain(host_rows(hs, favs, pick, depth)), hs, |f: Seq<Seq<char>>| match pick {
            Pick::InFolder(p) => f == p,
            _ => true,
        }),
        pick is Starred ==> plain(host_rows(hs, favs, pick, depth)).len() == 0,
    decreases hs.len(),
{
    let cond = |f: Seq<Seq<char>>| match pick {
        Pick::InFolder(p) => f == p,
        _ => true,
    };
    if hs.len() > 0 {
        let prev = hs.drop_last();
        assert(distinct_aliases(prev)) by {
            assert forall|i: int, j: int| 0 <= i < j < prev.len() implies (#[trigger] prev[i]).alias != (#[trigger] prev[j]).alias by {
                assert(prev[i] == hs[i] && prev[j] == hs[j]);
            }
        }
        lemma_plain_host_rows(prev, favs, pick, depth);
        let r = host_rows(prev, favs, pick, depth);
        let xs = plain(r);
        assert forall|k: int| 0 <= k < xs.len() implies drawn(#[trigger] xs[k], hs, cond) by {
            let i = choose|i: int| 0 <= i < prev.len() && #[trigger] prev[i].alias == xs[k] && cond(prev[i].folder);
            assert(hs[i] == prev[i]);
        }
        if picks(favs, hs.last(), pick) {
            let row = pick_row(favs, hs.last(), pick, depth);
            assert(r.push(row).drop_last() =~= r);
            if !(pick is Starred) {
                let x = hs.last().alias;
                assert(plain(r.push(row)) == xs.push(x));
                assert forall|k: int| 0 <= k < xs.len() implies xs[k] != x by {
                    let i = choose|i: int| 0 <= i < prev.len() && #[trigger] prev[i].alias == xs[k] && cond(prev[i].folder);
                    assert(hs[i] == prev[i]);
                    assert(hs[i].alias != hs[hs.len() - 1].alias);
                }
                assert forall|k: int| 0 <= k < xs.push(x).len() implies drawn(#[trigger] xs.push(x)[k], hs, cond) by {
                    if k < xs.len() {
                        assert(xs.push(x)[k] == xs[k]);
                    } else {
                        assert(hs[hs.len() - 1].alias == xs.push(x)[k]);
                        assert(cond(hs[hs.len() - 1].folder));
                    }
                }
            } else {
                assert(plain(r.push(row)) == xs);
            }
        }
    }
}


proof fn lemma_plain_single(r: RowView)
    ensures
        plain(seq![r]) == match r {
            RowView::Host { alias, shortcut: false, .. } => seq![alias],
            _ => Seq::<Seq<char>>::empty(),
        },
{
    assert(seq![r].drop_last() =~= Seq::<RowView>::empty());
    assert(plain(Seq::<RowView>::empty()) == Seq::<Seq<char>>::empty());
    assert(seq![r].last() == r);
    assert(Seq::<Seq<char>>::empty().push(r->Host_alias) =~= seq![r->Host_alias]);
}

proof fn lemma_drawn_weaken(
    xs: Seq<Seq<char>>,
    hs: Seq<HostView>,
    c1: spec_fn(Seq<Seq<char>>) -> bool,
    c2: spec_fn(Seq<Seq<char>>) -> bool,
)
    requires
        drawn_from(xs, hs, c1),
        forall|f: Seq<Seq<char>>| #[trigger] c1(f) ==> c2(f),
    ensures
        drawn_from(xs, hs, c2),
{
    assert forall|k: int| 0 <= k < xs.len() implies drawn(#[trigger] xs[k], hs, c2) by {
        assert(drawn(xs[k], hs, c1));
        let i = choose|i: int| 0 <= i < hs.len() && #[trigger] hs[i].alias == xs[k] && c1(hs[i].folder);
        assert(c2(hs[i].folder));
    }
}

/// `f` is `q` or lies below it.
pub open spec fn under(f: Seq<Seq<char>>, q: Seq<Seq<char>>) -> bool {
    f.len() >= q.len() && f.take(q.len() as int) == q
}

proof fn lemma_plain_folder_rows(
    hs: Seq<HostView>,
    favs: Set<Seq<char>>,
    closed: Set<Seq<char>>,
    prefix: Seq<Seq<char>>,
    depth: nat,
    fuel: nat,
)
    requires
        distinct_aliases(hs),
    ensures
        plain(folder_rows(hs, favs, closed, prefix, depth, fuel)).no_duplicates(),
        drawn_from(plain(folder_rows(hs, favs, closed, prefix, depth, fuel)), hs, |f: Seq<Seq<char>>| extends(f, prefix)),
    decreases fuel, 0nat, 0nat,
{
    if fuel > 0 {
        let cs = children(hs, prefix);
        lemma_children_witness(hs, prefix);
        lemma_plain_children_rows(hs, favs, closed, prefix, depth, (fuel - 1) as nat, cs);
        let c1 = |f: Seq<Seq<char>>| extends(f, prefix) && cs.contains(f[prefix.len() as int]);
        let c2 = |f: Seq<Seq<char>>| extends(f, prefix);
        lemma_drawn_weaken(plain(folder_rows(hs, favs, closed, prefix, depth, fuel)), hs, c1, c2);
    } else {
        assert(plain(folder_rows(hs, favs, closed, prefix, depth, fuel)) =~= Seq::<Seq<char>>::empty());
    }
}

proof fn lemma_plain_child_block(
    hs: Seq<HostView>,
    favs: Set<Seq<char>>,
    closed: Set<Seq<char>>,
    prefix: Seq<Seq<char>>,
    depth: nat,
    fuel: nat,
    child: Seq<char>,
)
    requires
        distinct_aliases(hs),
    ensures
        plain(child_block(hs, favs, closed, prefix, depth, fuel, child)).no_duplicates(),
        drawn_from(
            plain(child_block(hs, favs, closed, prefix, depth, fuel, child)),
            hs,
            |f: Seq<Seq<char>>| under(f, prefix.push(child)),
        ),
    decreases fuel, 1nat, 0nat,
{
    let p = prefix.push(child);
    let id = folder_id(p);
    let head = seq![RowView::Folder { id, name: child, depth, collapsed: closed.contains(id) }];
    let c = |f: Seq<Seq<char>>| under(f, p);
    lemma_plain_single(head[0]);
    assert(head =~= seq![head[0]]);
    if closed.contains(id) {
        assert(child_block(hs, favs, closed, prefix, depth, fuel, child) =~= head);
    } else {
        lemma_plain_folder_rows(hs, favs, closed, p, depth + 1, fuel);
        lemma_plain_host_rows(hs, favs, Pick::InFolder(p), depth + 1);
        let a = folder_rows(hs, favs, closed, p, depth + 1, fuel);
        let b = host_rows(hs, favs, Pick::InFolder(p), depth + 1);
        let c1 = |f: Seq<Seq<char>>| extends(f, p);
        let c2 = |f: Seq<Seq<char>>|
            match Pick::InFolder(p) {
                Pick::InFolder(q) => f == q,
                _ => true,
            };
        assert forall|f: Seq<Seq<char>>| #[trigger] c1(f) implies c(f) by {}
        assert forall|f: Seq<Seq<char>>| #[trigger] c2(f) implies c(f) by {
            assert(f.take(p.len() as int) =~= f);
        }
        lemma_join_plain(plain(a), plain(b), hs, c1, c2, c);
        lemma_plain_concat(a, b);
        lemma_plain_concat(head, a + b);
        assert(child_block(hs, favs, closed, prefix, depth, fuel, child) == head + (a + b));
        assert(plain(head) + plain(a + b) =~= plain(a + b));
    }
}

proof fn lemma_plain_children_rows(
    hs: Seq<HostView>,
    favs: Set<Seq<char>>,
    closed: Set<Seq<char>>,
    prefix: Seq<Seq<char>>,
    depth: nat,
    fuel: nat,
    cs: Seq<Seq<char>>,
)
    requires
        distinct_aliases(hs),
        cs.no_duplicates(),
    ensures
        plain(children_rows(hs, favs, closed, prefix, depth, fuel, cs)).no_duplicates(),
        drawn_from(
            plain(children_rows(hs, favs, closed, prefix, depth, fuel, cs)),
            hs,
            |f: Seq<Seq<char>>| extends(f, prefix) && cs.contains(f[prefix.len() as int]),
        ),
    decreases fuel, 2nat, cs.len(),
{
    let c = |f: Seq<Seq<char>>| extends(f, prefix) && cs.contains(f[prefix.len() as int]);
    if cs.len() == 0 {
        assert(plain(children_rows(hs, favs, closed, prefix, depth, fuel, cs)) =~= Seq::<Seq<char>>::empty());
    } else {
        let init = cs.drop_last();
        let last = cs.last();
        assert(init.no_duplicates());
        lemma_plain_children_rows(hs, favs, closed, prefix, depth, fuel, init);
        lemma_plain_child_block(hs, favs, closed, prefix, depth, fuel, last);
        let a = children_rows(hs, favs, closed, prefix, depth, fuel, init);
        let b = child_block(hs, favs, closed, prefix, depth, fuel, last);
        let c1 = |f: Seq<Seq<char>>| extends(f, prefix) && init.contains(f[prefix.len() as int]);
        let c2 = |f: Seq<Seq<char>>| under(f, prefix.push(last));
        assert forall|f: Seq<Seq<char>>| #[trigger] c2(f) implies extends(f, prefix) && f[prefix.len() as int] == last by {
            let q = prefix.push(last);
            assert(f.take(q.len() as int)[prefix.len() as int] == f[prefix.len() as int]);
            assert(f.take(prefix.len() as int) =~= f.take(q.len() as int).take(prefix.len() as int));
            assert(q.take(prefix.len() as int) =~= prefix);
        }
        assert forall|f: Seq<Seq<char>>| !(#[trigger] c1(f) && c2(f)) by {
            if c1(f) && c2(f) {
                let k = choose|k: int| 0 <= k < init.len() && init[k] == f[prefix.len() as int];
                assert(cs[k] == cs[cs.len() - 1]);
            }
        }
        assert forall|f: Seq<Seq<char>>| #[trigger] c1(f) implies c(f) by {
            if c1(f) {
                let k = choose|k: int| 0 <= k < init.len() && init[k] == f[prefix.len() as int];
                assert(cs[k] == init[k]);
            }
        }
        assert forall|f: Seq<Seq<char>>| #[trigger] c2(f) implies c(f) by {
            assert(cs[cs.len() - 1] == last);
        }
        lemma_join_plain(plain(a), plain(b), hs, c1, c2, c);
        lemma_plain_concat(a, b);
    }
}

/// With aliases distinct, each host has at most one row in the rows the
/// picker shows, not counting its favorites shortcut.
pub proof fn lemma_plain_rows_unique(
    hs: Seq<HostView>,
    favs: Set<Seq<char>>,
    closed: Set<Seq<char>>,
    search: Option<Seq<char>>,
)
    requires
        distinct_aliases(hs),
    ensures
        plain(rows_for(hs, favs, closed, search)).no_duplicates(),
{
    match search {
        Some(q) => lemma_plain_host_rows(hs, favs, Pick::Matching(q), 0),
        None => {
            let fd = deepest(hs) + 1;
            let fav = favorites_section(hs, favs);
            let folders = folder_rows(hs, favs, closed, seq![], 0, fd);
            let loose = host_rows(hs, favs, Pick::InFolder(seq![]), 1);
            let sec = seq![RowView::Section { label: ungrouped_label() }];
            let ung = if loose.len() > 0 {
                sec + loose
            } else {
                seq![]
            };
            let starred = host_rows(hs, favs, Pick::Starred, 1);
            lemma_plain_host_rows(hs, favs, Pick::Starred, 1);
            lemma_plain_host_rows(hs, favs, Pick::InFolder(seq![]), 1);
            lemma_plain_folder_rows(hs, favs, closed, seq![], 0, fd);
            let fsec = seq![RowView::Section { label: favorites_label() }];
            lemma_plain_single(fsec[0]);
            lemma_plain_single(sec[0]);
            assert(fsec =~= seq![fsec[0]]);
            assert(sec =~= seq![sec[0]]);
            lemma_plain_concat(fsec, starred);
            lemma_plain_concat(sec, loose);
            assert(plain(fav) =~= Seq::<Seq<char>>::empty());
            assert(plain(ung) =~= plain(loose));
            lemma_plain_concat(fav, folders);
            lemma_plain_concat(fav + folders, ung);
            let c1 = |f: Seq<Seq<char>>| extends(f, Seq::<Seq<char>>::empty());
            let c2 = |f: Seq<Seq<char>>|
                match Pick::InFolder(Seq::<Seq<char>>::empty()) {
                    Pick::InFolder(p) => f == p,
                    _ => true,
                };
            let c = |f: Seq<Seq<char>>| true;
            lemma_join_plain(plain(folders), plain(loose), hs, c1, c2, c);
            assert(tree_rows(hs, favs, closed) == fav + folders + ung);
            assert(plain(fav + folders + ung) =~= plain(folders) + plain(loose));
        },
    }
}

proof fn lemma_plain_position(rows: Seq<RowView>, i: int)
    requires
        0 <= i < rows.len(),
        rows[i] matches RowView::Host { shortcut: false, .. },
    ensures
        plain(rows.take(i)).len() < plain(rows).len(),
        plain(rows)[plain(rows.take(i)).len() as int] == rows[i]->Host_alias,
        plain(rows.take(i + 1)).len() == plain(rows.take(i)).len() + 1,
{
    let a = rows.take(i);
    let b = rows.skip(i + 1);
    let mid = seq![rows[i]];
    assert(rows =~= a + mid + b);
    lemma_plain_single(rows[i]);
    lemma_plain_concat(a, mid);
    lemma_plain_concat(a + mid, b);
    assert(rows.take(i + 1) =~= a + mid);
}

proof fn lemma_plain_grows(rows: Seq<RowView>, i: int, j: int)
    requires
        0 <= i <= j <= rows.len(),
    ensures
        plain(rows.take(i)).len() <= plain(rows.take(j)).len(),
    decreases j - i,
{
    if i < j {
        lemma_plain_grows(rows, i, j - 1);
        assert(rows.take(j).drop_last() =~= rows.take(j - 1));
    }
}

/// When no alias has two plain rows, a host's plain row is the only one.
pub proof fn lemma_one_place(rows: Seq<RowView>, i: int, j: int)
    requires
        plain(rows).no_duplicates(),
        0 <= i < rows.len(),
        0 <= j < rows.len(),
        rows[i] matches RowView::Host { shortcut: false, .. },
        rows[j] matches RowView::Host { shortcut: false, .. },
        rows[i]->Host_alias == rows[j]->Host_alias,
    ensures
        i == j,
{
    if i != j {
        let (lo, hi) = if i < j { (i, j) } else { (j, i) };
        lemma_plain_position(rows, lo);
        lemma_plain_position(rows, hi);
        lemma_plain_grows(rows, lo + 1, hi);
    }
}


// ---------------------------------------------------------------------------
// A folder row survives a toggle
// ---------------------------------------------------------------------------

/// `c1` and `c2` collapse the same folders, but perhaps `x`.
pub open spec fn agree_except(c1: Set<Seq<char>>, c2: Set<Seq<char>>, x: Seq<char>) -> bool {
    forall|id: Seq<char>| id != x ==> (#[trigger] c1.contains(id) <==> c2.contains(id))
}

/// A deeper path has a longer id.
proof fn lemma_join_longer(q: Seq<Seq<char>>, k: int)
    requires
        1 <= k < q.len(),
    ensures
        folder_id(q.take(k)).len() < folder_id(q).len(),
    decreases q.len() - k,
{
    let d = q.drop_last();
    assert(d.take(k) =~= q.take(k));
    if k < q.len() - 1 {
        lemma_join_longer(d, k);
    }
    assert(q.take(q.len() - 1) =~= d);
}

proof fn lemma_under_extends(q: Seq<Seq<char>>, prefix: Seq<Seq<char>>, c: Seq<char>)
    requires
        under(q, prefix.push(c)),
    ensures
        extends(q, prefix),
        q[prefix.len() as int] == c,
{
    let p = prefix.push(c);
    assert(q.take(p.len() as int)[prefix.len() as int] == q[prefix.len() as int]);
    assert(q.take(prefix.len() as int) =~= q.take(p.len() as int).take(prefix.len() as int));
    assert(p.take(prefix.len() as int) =~= prefix);
}

proof fn lemma_persist_folder_rows(
    hs: Seq<HostView>,
    favs: Set<Seq<char>>,
    c1: Set<Seq<char>>,
    c2: Set<Seq<char>>,
    prefix: Seq<Seq<char>>,
    depth: nat,
    fuel: nat,
    j: int,
)
    requires
        0 <= j < folder_rows(hs, favs, c1, prefix, depth, fuel).len(),
        folder_rows(hs, favs, c1, prefix, depth, fuel)[j] is Folder,
        agree_except(c1, c2, folder_rows(hs, favs, c1, prefix, depth, fuel)[j]->Folder_id),
    ensures
        exists|q: Seq<Seq<char>>|
            extends(q, prefix) && #[trigger] folder_id(q) == folder_rows(hs, favs, c1, prefix, depth, fuel)[j]->Folder_id,
        exists|j2: int|
            0 <= j2 < folder_rows(hs, favs, c2, prefix, depth, fuel).len() && #[trigger] folder_rows(
                hs,
                favs,
                c2,
                prefix,
                depth,
                fuel,
            )[j2] is Folder && folder_rows(hs, favs, c2, prefix, depth, fuel)[j2]->Folder_id == folder_rows(
                hs,
                favs,
                c1,
                prefix,
                depth,
                fuel,
            )[j]->Folder_id,
    decreases fuel, 0nat, 0nat,
{
    lemma_persist_children_rows(hs, favs, c1, c2, prefix, depth, (fuel - 1) as nat, children(hs, prefix), j);
    let r2 = children_rows(hs, favs, c2, prefix, depth, (fuel - 1) as nat, children(hs, prefix));
    let x = folder_rows(hs, favs, c1, prefix, depth, fuel)[j]->Folder_id;
    let j2 = choose|j2: int| 0 <= j2 < r2.len() && #[trigger] r2[j2] is Folder && r2[j2]->Folder_id == x;
    assert(folder_rows(hs, favs, c2, prefix, depth, fuel)[j2] == r2[j2]);
}

proof fn lemma_persist_child_block(
    hs: Seq<HostView>,
    favs: Set<Seq<char>>,
    c1: Set<Seq<char>>,
    c2: Set<Seq<char>>,
    prefix: Seq<Seq<char>>,
    depth: nat,
    fuel: nat,
    child: Seq<char>,
    j: int,
)
    requires
        0 <= j < child_block(hs, favs, c1, prefix, depth, fuel, child).len(),
        child_block(hs, favs, c1, prefix, depth, fuel, child)[j] is Folder,
        agree_except(c1, c2, child_block(hs, favs, c1, prefix, depth, fuel, child)[j]->Folder_id),
    ensures
        exists|q: Seq<Seq<char>>|
            under(q, prefix.push(child)) && #[trigger] folder_id(q) == child_block(
                hs,
                favs,
                c1,
                prefix,
                depth,
                fuel,
                child,
            )[j]->Folder_id,
        exists|j2: int|
            0 <= j2 < child_block(hs, favs, c2, prefix, depth, fuel, child).len() && #[trigger] child_block(
                hs,
                favs,
                c2,
                prefix,
                depth,
                fuel,
                child,
            )[j2] is Folder && child_block(hs, favs, c2, prefix, depth, fuel, child)[j2]->Folder_id
                == child_block(hs, favs, c1, prefix, depth, fuel, child)[j]->Folder_id,
    decreases fuel, 1nat, 0nat,
{
    let p = prefix.push(child);
    let y = folder_id(p);
    let b1 = child_block(hs, favs, c1, prefix, depth, fuel, child);
    let b2 = child_block(hs, favs, c2, prefix, depth, fuel, child);
    let x = b1[j]->Folder_id;
    assert(p.take(p.len() as int) =~= p);
    if j == 0 {
        assert(under(p, p) && folder_id(p) == x);
        assert(b2[0] is Folder && b2[0]->Folder_id == x);
    } else {
        assert(!c1.contains(y));
        let f1 = folder_rows(hs, favs, c1, p, depth + 1, fuel);
        let h1 = host_rows(hs, favs, Pick::InFolder(p), depth + 1);
        assert(b1 == seq![b1[0]] + (f1 + h1));
        lemma_host_rows_are_hosts(hs, favs, Pick::InFolder(p), depth + 1);
        if j - 1 >= f1.len() {
            assert(b1[j] == h1[j - 1 - f1.len()]);
        }
        assert(b1[j] == f1[j - 1]);
        lemma_persist_folder_rows(hs, favs, c1, c2, p, depth + 1, fuel, j - 1);
        let q = choose|q: Seq<Seq<char>>| extends(q, p) && #[trigger] folder_id(q) == x;
        lemma_join_longer(q, p.len() as int);
        assert(q.take(p.len() as int) == p);
        assert(y != x);
        assert(!c2.contains(y));
        assert(q.take(p.len() as int) == p);
        assert(under(q, p) && folder_id(q) == x);
        let f2 = folder_rows(hs, favs, c2, p, depth + 1, fuel);
        let h2 = host_rows(hs, favs, Pick::InFolder(p), depth + 1);
        assert(b2 == seq![b2[0]] + (f2 + h2));
        let j2 = choose|j2: int| 0 <= j2 < f2.len() && #[trigger] f2[j2] is Folder && f2[j2]->Folder_id == x;
        assert(b2[1 + j2] == f2[j2]);
    }
}

proof fn lemma_persist_children_rows(
    hs: Seq<HostView>,
    favs: Set<Seq<char>>,
    c1: Set<Seq<char>>,
    c2: Set<Seq<char>>,
    prefix: Seq<Seq<char>>,
    depth: nat,
    fuel: nat,
    cs: Seq<Seq<char>>,
    j: int,
)
    requires
        0 <= j < children_rows(hs, favs, c1, prefix, depth, fuel, cs).len(),
        children_rows(hs, favs, c1, prefix, depth, fuel, cs)[j] is Folder,
        agree_except(c1, c2, children_rows(hs, favs, c1, prefix, depth, fuel, cs)[j]->Folder_id),
    ensures
        exists|q: Seq<Seq<char>>|
            extends(q, prefix) && #[trigger] folder_id(q) == children_rows(hs, favs, c1, prefix, depth, fuel, cs)[j]->Folder_id,
        exists|j2: int|
            0 <= j2 < children_rows(hs, favs, c2, prefix, depth, fuel, cs).len() && #[trigger] children_rows(
                hs,
                favs,
                c2,
                prefix,
                depth,
                fuel,
                cs,
            )[j2] is Folder && children_rows(hs, favs, c2, prefix, depth, fuel, cs)[j2]->Folder_id
                == children_rows(hs, favs, c1, prefix, depth, fuel, cs)[j]->Folder_id,
    decreases fuel, 2nat, cs.len(),
{
    let r1 = children_rows(hs, favs, c1, prefix, depth, fuel, cs);
    let r2 = children_rows(hs, favs, c2, prefix, depth, fuel, cs);
    let x = r1[j]->Folder_id;
    let init = cs.drop_last();
    let i1 = children_rows(hs, favs, c1, prefix, depth, fuel, init);
    let i2 = children_rows(hs, favs, c2, prefix, depth, fuel, init);
    let b1 = child_block(hs, favs, c1, prefix, depth, fuel, cs.last());
    let b2 = child_block(hs, favs, c2, prefix, depth, fuel, cs.last());
    assert(r1 == i1 + b1);
    assert(r2 == i2 + b2);
    if j < i1.len() {
        assert(r1[j] == i1[j]);
        lemma_persist_children_rows(hs, favs, c1, c2, prefix, depth, fuel, init, j);
        let j2 = choose|j2: int| 0 <= j2 < i2.len() && #[trigger] i2[j2] is Folder && i2[j2]->Folder_id == x;
        assert(r2[j2] == i2[j2]);
    } else {
        let jb = j - i1.len();
        assert(r1[j] == b1[jb]);
        lemma_persist_child_block(hs, favs, c1, c2, prefix, depth, fuel, cs.last(), jb);
        let q = choose|q: Seq<Seq<char>>| under(q, prefix.push(cs.last())) && #[trigger] folder_id(q) == x;
        lemma_under_extends(q, prefix, cs.last());
        let j2 = choose|j2: int| 0 <= j2 < b2.len() && #[trigger] b2[j2] is Folder && b2[j2]->Folder_id == x;
        assert(r2[i2.len() + j2] == b2[j2]);
    }
}

/// Every folder row shows whether its folder is collapsed.
pub open spec fn flags_right(rows: Seq<RowView>, closed: Set<Seq<char>>) -> bool {
    forall|i: int|
        0 <= i < rows.len() && (#[trigger] rows[i]) is Folder ==> rows[i]->Folder_collapsed == closed.contains(
            rows[i]->Folder_id,
        )
}

proof fn lemma_flags_concat(a: Seq<RowView>, b: Seq<RowView>, closed: Set<Seq<char>>)
    requires
        flags_right(a, closed),
        flags_right(b, closed),
    ensures
        flags_right(a + b, closed),
{
    assert forall|i: int| 0 <= i < (a + b).len() && (#[trigger] (a + b)[i]) is Folder implies (a + b)[i]->Folder_collapsed
        == closed.contains((a + b)[i]->Folder_id) by {
        if i < a.len() {
            assert((a + b)[i] == a[i]);
        } else {
            assert((a + b)[i] == b[i - a.len()]);
        }
    }
}

proof fn lemma_flags_hosts(hs: Seq<HostView>, favs: Set<Seq<char>>, closed: Set<Seq<char>>, pick: Pick, depth: nat)
    ensures
        flags_right(host_rows(hs, favs, pick, depth), closed),
{
    lemma_host_rows_are_hosts(hs, favs, pick, depth);
}

proof fn lemma_flags_folder_rows(
    hs: Seq<HostView>,
    favs: Set<Seq<char>>,
    closed: Set<Seq<char>>,
    prefix: Seq<Seq<char>>,
    depth: nat,
    fuel: nat,
)
    ensures
        flags_right(folder_rows(hs, favs, closed, prefix, depth, fuel), closed),
    decreases fuel, 0nat, 0nat,
{
    if fuel > 0 {
        lemma_flags_children_rows(hs, favs, closed, prefix, depth, (fuel - 1) as nat, children(hs, prefix));
    }
}

proof fn lemma_flags_child_block(
    hs: Seq<HostView>,
    favs: Set<Seq<char>>,
    closed: Set<Seq<char>>,
    prefix: Seq<Seq<char>>,
    depth: nat,
    fuel: nat,
    child: Seq<char>,
)
    ensures
        flags_right(child_block(hs, favs, closed, prefix, depth, fuel, child), closed),
    decreases fuel, 1nat, 0nat,
{
    let p = prefix.push(child);
    let id = folder_id(p);
    let head = seq![RowView::Folder { id, name: child, depth, collapsed: closed.contains(id) }];
    assert(flags_right(head, closed));
    if closed.contains(id) {
        lemma_flags_concat(head, seq![], closed);
    } else {
        lemma_flags_folder_rows(hs, favs, closed, p, depth + 1, fuel);
        lemma_flags_hosts(hs, favs, closed, Pick::InFolder(p), depth + 1);
        let a = folder_rows(hs, favs, closed, p, depth + 1, fuel);
        let b = host_rows(hs, favs, Pick::InFolder(p), depth + 1);
        lemma_flags_concat(a, b, closed);
        lemma_flags_concat(head, a + b, closed);
    }
}

proof fn lemma_flags_children_rows(
    hs: Seq<HostView>,
    favs: Set<Seq<char>>,
    closed: Set<Seq<char>>,
    prefix: Seq<Seq<char>>,
    depth: nat,
    fuel: nat,
    cs: Seq<Seq<char>>,
)
    ensures
        flags_right(children_rows(hs, favs, closed, prefix, depth, fuel, cs), closed),
    decreases fuel, 2nat, cs.len(),
{
    if cs.len() > 0 {
        lemma_flags_children_rows(hs, favs, closed, prefix, depth, fuel, cs.drop_last());
        lemma_flags_child_block(hs, favs, closed, prefix, depth, fuel, cs.last());
        lemma_flags_concat(
            children_rows(hs, favs, closed, prefix, depth, fuel, cs.drop_last()),
            child_block(hs, favs, closed, prefix, depth, fuel, cs.last()),
            closed,
        );
    }
}

/// The identity of a folder row belongs to folder rows with that id alone.
pub proof fn lemma_folder_key(r: RowView, id: Seq<char>)
    requires
        row_key(r) == Some("f:"@ + id),
    ensures
        r matches RowView::Folder { id: x, .. } && x == id,
{
    reveal_strlit("h:");
    reveal_strlit("f:");
    reveal_strlit("\u{2605}:");
    let k = "f:"@ + id;
    match r {
        RowView::Section { .. } => {},
        RowView::Folder { id: x, .. } => {
            assert(("f:"@ + x).skip(2) =~= x);
            assert(k.skip(2) =~= id);
        },
        RowView::Host { alias: a, shortcut, .. } => {
            if shortcut {
                assert(("\u{2605}:"@ + a)[0] == '\u{2605}');
            } else {
                assert(("h:"@ + a)[0] == 'h');
            }
            assert(k[0] == 'f');
        },
    }
}

/// Collapsing or opening a folder keeps the tree's folder rows other than
/// its descendants: the folder's own row is still there, showing the new
/// state, and every folder row carries its folder's collapsed state.
pub proof fn lemma_toggle_keeps_folder_row(
    hs: Seq<HostView>,
    favs: Set<Seq<char>>,
    c1: Set<Seq<char>>,
    c2: Set<Seq<char>>,
    i: int,
)
    requires
        0 <= i < tree_rows(hs, favs, c1).len(),
        tree_rows(hs, favs, c1)[i] is Folder,
        agree_except(c1, c2, tree_rows(hs, favs, c1)[i]->Folder_id),
    ensures
        exists|j: int|
            0 <= j < tree_rows(hs, favs, c2).len() && #[trigger] tree_rows(hs, favs, c2)[j] is Folder && tree_rows(
                hs,
                favs,
                c2,
            )[j]->Folder_id == tree_rows(hs, favs, c1)[i]->Folder_id,
        flags_right(tree_rows(hs, favs, c1), c1),
        flags_right(tree_rows(hs, favs, c2), c2),
{
    let fd = deepest(hs) + 1;
    let fav = favorites_section(hs, favs);
    let loose = host_rows(hs, favs, Pick::InFolder(seq![]), 1);
    let sec = seq![RowView::Section { label: ungrouped_label() }];
    let ung = if loose.len() > 0 {
        sec + loose
    } else {
        seq![]
    };
    let f1 = folder_rows(hs, favs, c1, seq![], 0, fd);
    let f2 = folder_rows(hs, favs, c2, seq![], 0, fd);
    assert(tree_rows(hs, favs, c1) == fav + f1 + ung);
    assert(tree_rows(hs, favs, c2) == fav + f2 + ung);
    let starred = host_rows(hs, favs, Pick::Starred, 1);
    let fsec = seq![RowView::Section { label: favorites_label() }];
    lemma_host_rows_are_hosts(hs, favs, Pick::Starred, 1);
    lemma_host_rows_are_hosts(hs, favs, Pick::InFolder(seq![]), 1);
    lemma_flags_hosts(hs, favs, c1, Pick::Starred, 1);
    lemma_flags_hosts(hs, favs, c2, Pick::Starred, 1);
    lemma_flags_hosts(hs, favs, c1, Pick::InFolder(seq![]), 1);
    lemma_flags_hosts(hs, favs, c2, Pick::InFolder(seq![]), 1);
    assert(flags_right(fsec, c1) && flags_right(fsec, c2) && flags_right(sec, c1) && flags_right(sec, c2));
    lemma_flags_concat(fsec, starred, c1);
    lemma_flags_concat(fsec, starred, c2);
    lemma_flags_concat(sec, loose, c1);
    lemma_flags_concat(sec, loose, c2);
    assert(flags_right(fav, c1) && flags_right(fav, c2)) by {
        if starred.len() == 0 {
            assert(fav =~= Seq::<RowView>::empty());
        }
    }
    assert(flags_right(ung, c1) && flags_right(ung, c2)) by {
        if loose.len() == 0 {
            assert(ung =~= Seq::<RowView>::empty());
        }
    }
    lemma_flags_folder_rows(hs, favs, c1, seq![], 0, fd);
    lemma_flags_folder_rows(hs, favs, c2, seq![], 0, fd);
    lemma_flags_concat(fav, f1, c1);
    lemma_flags_concat(fav + f1, ung, c1);
    lemma_flags_concat(fav, f2, c2);
    lemma_flags_concat(fav + f2, ung, c2);
    let t1 = tree_rows(hs, favs, c1);
    if i < fav.len() {
        assert(t1[i] == fav[i]);
        if i > 0 {
            assert(fav[i] == starred[i - 1]);
        }
        assert(false);
    } else if i >= fav.len() + f1.len() {
        assert(t1[i] == ung[i - fav.len() - f1.len()]);
        let u = i - fav.len() - f1.len();
        if u > 0 {
            assert(ung[u] == loose[u - 1]);
        }
        assert(false);
    } else {
        assert(t1[i] == f1[i - fav.len()]);
        lemma_persist_folder_rows(hs, favs, c1, c2, seq![], 0, fd, i - fav.len());
        let x = t1[i]->Folder_id;
        let j2 = choose|j2: int| 0 <= j2 < f2.len() && #[trigger] f2[j2] is Folder && f2[j2]->Folder_id == x;
        assert(tree_rows(hs, favs, c2)[fav.len() + j2] == f2[j2]);
    }
}


// ---------------------------------------------------------------------------
// The folder a host sits in
// ---------------------------------------------------------------------------

/// No row is a section header, and every folder row is at least `d` deep.
pub open spec fn rows_below(rows: Seq<RowView>, d: nat) -> bool {
    forall|i: int|
        0 <= i < rows.len() ==> !((#[trigger] rows[i]) is Section) && (rows[i] is Folder ==> rows[i]->Folder_depth >= d)
}

proof fn lemma_below_concat(a: Seq<RowView>, b: Seq<RowView>, d: nat)
    requires
        rows_below(a, d),
        rows_below(b, d),
    ensures
        rows_below(a + b, d),
{
    assert forall|i: int| 0 <= i < (a + b).len() implies !((#[trigger] (a + b)[i]) is Section) && ((a + b)[i] is Folder
        ==> (a + b)[i]->Folder_depth >= d) by {
        if i < a.len() {
            assert((a + b)[i] == a[i]);
        } else {
            assert((a + b)[i] == b[i - a.len()]);
        }
    }
}

proof fn lemma_below_folder_rows(
    hs: Seq<HostView>,
    favs: Set<Seq<char>>,
    closed: Set<Seq<char>>,
    prefix: Seq<Seq<char>>,
    depth: nat,
    fuel: nat,
)
    ensures
        rows_below(folder_rows(hs, favs, closed, prefix, depth, fuel), depth),
    decreases fuel, 0nat, 0nat,
{
    if fuel > 0 {
        lemma_below_children_rows(hs, favs, closed, prefix, depth, (fuel - 1) as nat, children(hs, prefix));
    }
}

proof fn lemma_below_child_block(
    hs: Seq<HostView>,
    favs: Set<Seq<char>>,
    closed: Set<Seq<char>>,
    prefix: Seq<Seq<char>>,
    depth: nat,
    fuel: nat,
    child: Seq<char>,
)
    ensures
        rows_below(child_block(hs, favs, closed, prefix, depth, fuel, child), depth),
    decreases fuel, 1nat, 0nat,
{
    let p = prefix.push(child);
    let id = folder_id(p);
    let head = seq![RowView::Folder { id, name: child, depth, collapsed: closed.contains(id) }];
    assert(rows_below(head, depth));
    if closed.contains(id) {
        lemma_below_concat(head, seq![], depth);
    } else {
        lemma_below_folder_rows(hs, favs, closed, p, depth + 1, fuel);
        lemma_host_rows_are_hosts(hs, favs, Pick::InFolder(p), depth + 1);
        let a = folder_rows(hs, favs, closed, p, depth + 1, fuel);
        let b = host_rows(hs, favs, Pick::InFolder(p), depth + 1);
        assert(rows_below(a, depth));
        assert(rows_below(b, depth));
        lemma_below_concat(a, b, depth);
        lemma_below_concat(head, a + b, depth);
    }
}

proof fn lemma_below_children_rows(
    hs: Seq<HostView>,
    favs: Set<Seq<char>>,
    closed: Set<Seq<char>>,
    prefix: Seq<Seq<char>>,
    depth: nat,
    fuel: nat,
    cs: Seq<Seq<char>>,
)
    ensures
        rows_below(children_rows(hs, favs, closed, prefix, depth, fuel, cs), depth),
    decreases fuel, 2nat, cs.len(),
{
    if cs.len() > 0 {
        lemma_below_children_rows(hs, favs, closed, prefix, depth, fuel, cs.drop_last());
        lemma_below_child_block(hs, favs, closed, prefix, depth, fuel, cs.last());
        lemma_below_concat(
            children_rows(hs, favs, closed, prefix, depth, fuel, cs.drop_last()),
            child_block(hs, favs, closed, prefix, depth, fuel, cs.last()),
            depth,
        );
    }
}

/// The block of the folder `hs[i].folder` in the rows of the subfolders of
/// `prefix`, with nothing collapsed.
proof fn lemma_block_present(
    hs: Seq<HostView>,
    favs: Set<Seq<char>>,
    prefix: Seq<Seq<char>>,
    fuel: nat,
    i: int,
) -> (j: int)
    requires
        0 <= i < hs.len(),
        extends(hs[i].folder, prefix),
        fuel >= hs[i].folder.len() - prefix.len(),
    ensures
        ({
            let f = hs[i].folder;
            let rows = folder_rows(hs, favs, Set::<Seq<char>>::empty(), prefix, prefix.len(), fuel);
            let block = child_block(
                hs,
                favs,
                Set::<Seq<char>>::empty(),
                f.drop_last(),
                (f.len() - 1) as nat,
                (fuel - (f.len() - prefix.len())) as nat,
                f.last(),
            );
            &&& 0 <= j
            &&& j + block.len() <= rows.len()
            &&& forall|t: int| 0 <= t < block.len() ==> rows[j + t] == #[trigger] block[t]
        }),
    decreases fuel,
{
    let closed = Set::<Seq<char>>::empty();
    let f = hs[i].folder;
    let cs = children(hs, prefix);
    let c = f[prefix.len() as int];
    let depth = prefix.len();
    lemma_children_contains(hs, prefix, i);
    let k = choose|k: int| 0 <= k < cs.len() && cs[k] == c;
    let off = lemma_children_rows_block(hs, favs, closed, prefix, depth, (fuel - 1) as nat, cs, k);
    let p = prefix.push(c);
    let block = child_block(hs, favs, closed, prefix, depth, (fuel - 1) as nat, c);
    let rows = folder_rows(hs, favs, closed, prefix, depth, fuel);
    assert(f.take(prefix.len() as int) == prefix);
    assert forall|x: int| 0 <= x < prefix.len() implies f[x] == prefix[x] by {
        assert(f.take(prefix.len() as int)[x] == f[x]);
    }
    if f.len() == prefix.len() + 1 {
        assert(f.drop_last() =~= prefix);
        assert(f.last() == c);
        off
    } else {
        assert(f.take(p.len() as int) =~= p);
        let inner = folder_rows(hs, favs, closed, p, p.len(), (fuel - 1) as nat);
        let hr = host_rows(hs, favs, Pick::InFolder(p), depth + 1);
        assert(block == seq![block[0]] + (inner + hr));
        let j2 = lemma_block_present(hs, favs, p, (fuel - 1) as nat, i);
        let cb = child_block(
            hs,
            favs,
            closed,
            f.drop_last(),
            (f.len() - 1) as nat,
            (fuel - 1 - (f.len() - p.len())) as nat,
            f.last(),
        );
        assert forall|t: int| 0 <= t < cb.len() implies rows[off + 1 + j2 + t] == #[trigger] cb[t] by {
            assert(inner[j2 + t] == cb[t]);
            assert(block[1 + j2 + t] == inner[j2 + t]);
        }
        off + 1 + j2
    }
}

proof fn lemma_host_rows_contains(hs: Seq<HostView>, favs: Set<Seq<char>>, pick: Pick, depth: nat, i: int) -> (t: int)
    requires
        0 <= i < hs.len(),
        picks(favs, hs[i], pick),
    ensures
        0 <= t < host_rows(hs, favs, pick, depth).len(),
        host_rows(hs, favs, pick, depth)[t] == pick_row(favs, hs[i], pick, depth),
    decreases hs.len(),
{
    let prev = host_rows(hs.drop_last(), favs, pick, depth);
    if i == hs.len() - 1 {
        prev.len() as int
    } else {
        assert(hs.drop_last()[i] == hs[i]);
        let t = lemma_host_rows_contains(hs.drop_last(), favs, pick, depth, i);
        if picks(favs, hs.last(), pick) {
            assert(prev.push(pick_row(favs, hs.last(), pick, depth))[t] == prev[t]);
        }
        t
    }
}

proof fn lemma_parent_skip(rows: Seq<RowView>, k: int, h: int, d: nat)
    requires
        0 <= h <= k < rows.len(),
        rows[h] is Folder,
        rows[h]->Folder_depth < d,
        forall|m: int| h < m <= k ==> !((#[trigger] rows[m]) is Section) && (rows[m] is Folder ==> rows[m]->Folder_depth >= d),
    ensures
        parent_above(rows, k, d) == Some(h as nat),
    decreases k - h,
{
    if k > h {
        lemma_parent_skip(rows, k - 1, h, d);
    }
}

/// With nothing collapsed, and no alias written twice, a host's row sits
/// right under its folder's row: stepping out from the host (the nearest
/// shallower folder row above) reaches the row whose id is the host's folder
/// id, one level above the host.
pub proof fn lemma_host_sits_under_its_folder(hs: Seq<HostView>, favs: Set<Seq<char>>, i: int, r: int)
    requires
        distinct_aliases(hs),
        0 <= i < hs.len(),
        hs[i].folder.len() > 0,
        0 <= r < tree_rows(hs, favs, Set::<Seq<char>>::empty()).len(),
        tree_rows(hs, favs, Set::<Seq<char>>::empty())[r] matches RowView::Host { alias, shortcut: false, .. } && alias
            == hs[i].alias,
    ensures
        tree_rows(hs, favs, Set::<Seq<char>>::empty())[r]->Host_depth == hs[i].folder.len(),
        parent_above(tree_rows(hs, favs, Set::<Seq<char>>::empty()), r - 1, hs[i].folder.len()) matches Some(k) && tree_rows(
            hs,
            favs,
            Set::<Seq<char>>::empty(),
        )[k as int] matches RowView::Folder { id, depth, .. } && id == folder_id(hs[i].folder) && depth
            == hs[i].folder.len() - 1,
{
    let closed = Set::<Seq<char>>::empty();
    let f = hs[i].folder;
    let n = f.len();
    let fd = deepest(hs) + 1;
    lemma_deepest(hs);
    assert(f.len() <= deepest(hs));
    assert(f.take(0) =~= Seq::<Seq<char>>::empty());
    let j = lemma_block_present(hs, favs, seq![], fd, i);
    let q = f.drop_last();
    let fuel2 = (fd - n) as nat;
    let block = child_block(hs, favs, closed, q, (n - 1) as nat, fuel2, f.last());
    assert(q.push(f.last()) =~= f);
    let inner = folder_rows(hs, favs, closed, f, n, fuel2);
    let hr = host_rows(hs, favs, Pick::InFolder(f), n);
    assert(block == seq![block[0]] + (inner + hr));
    let t = lemma_host_rows_contains(hs, favs, Pick::InFolder(f), n, i);
    let fav = favorites_section(hs, favs);
    let folders = folder_rows(hs, favs, closed, seq![], 0, fd);
    let loose = host_rows(hs, favs, Pick::InFolder(seq![]), 1);
    let sec = seq![RowView::Section { label: ungrouped_label() }];
    let ung = if loose.len() > 0 {
        sec + loose
    } else {
        seq![]
    };
    let rows = tree_rows(hs, favs, closed);
    assert(rows == fav + folders + ung);
    let head = fav.len() + j;
    let pos = head + 1 + inner.len() + t;
    assert(rows[head] == folders[j]);
    assert(folders[j] == block[0]);
    assert(rows[pos] == folders[j + 1 + inner.len() + t]);
    assert(folders[j + 1 + inner.len() + t] == block[1 + inner.len() + t]);
    assert(block[1 + inner.len() + t] == hr[t]);
    // The host's row is the one at `pos`.
    lemma_plain_rows_unique(hs, favs, closed, None);
    lemma_one_place(rows, r, pos);
    // Between the folder row and the host's row there are only deeper rows.
    lemma_below_folder_rows(hs, favs, closed, f, n, fuel2);
    lemma_host_rows_are_hosts(hs, favs, Pick::InFolder(f), n);
    assert forall|m: int| head < m <= pos - 1 implies !((#[trigger] rows[m]) is Section) && (rows[m] is Folder
        ==> rows[m]->Folder_depth >= n) by {
        let b = m - head;
        assert(rows[m] == folders[j + b]);
        assert(folders[j + b] == block[b]);
        if b - 1 < inner.len() {
            assert(block[b] == inner[b - 1]);
        } else {
            assert(block[b] == hr[b - 1 - inner.len()]);
        }
    }
    lemma_parent_skip(rows, pos - 1, head, n);
}


// ---------------------------------------------------------------------------
// A folder has one row
// ---------------------------------------------------------------------------

/// The ids of the folder rows, in order.
pub open spec fn fids(rows: Seq<RowView>) -> Seq<Seq<char>>
    decreases rows.len(),
{
    if rows.len() == 0 {
        seq![]
    } else {
        match rows.last() {
            RowView::Folder { id, .. } => fids(rows.drop_last()).push(id),
            _ => fids(rows.drop_last()),
        }
    }
}

/// No host's section path has a piece holding the id separator `U+0001`.
pub open spec fn paths_free(hs: Seq<HostView>) -> bool {
    forall|i: int| 0 <= i < hs.len() ==> pieces_free_of(#[trigger] hs[i].folder, '\u{1}')
}

/// `x` is the id of a non-empty path free of the separator that meets `cond`.
pub open spec fn id_of(x: Seq<char>, cond: spec_fn(Seq<Seq<char>>) -> bool) -> bool {
    exists|q: Seq<Seq<char>>| q.len() > 0 && pieces_free_of(q, '\u{1}') && cond(q) && #[trigger] folder_id(q) == x
}

pub open spec fn ids_of(xs: Seq<Seq<char>>, cond: spec_fn(Seq<Seq<char>>) -> bool) -> bool {
    forall|k: int| 0 <= k < xs.len() ==> id_of(#[trigger] xs[k], cond)
}

proof fn lemma_fids_single(r: RowView)
    ensures
        fids(seq![r]) == match r {
            RowView::Folder { id, .. } => seq![id],
            _ => Seq::<Seq<char>>::empty(),
        },
{
    assert(seq![r].drop_last() =~= Seq::<RowView>::empty());
    assert(fids(Seq::<RowView>::empty()) == Seq::<Seq<char>>::empty());
    assert(seq![r].last() == r);
    assert(Seq::<Seq<char>>::empty().push(r->Folder_id) =~= seq![r->Folder_id]);
}

proof fn lemma_fids_concat(a: Seq<RowView>, b: Seq<RowView>)
    ensures
        fids(a + b) == fids(a) + fids(b),
    decreases b.len(),
{
    if b.len() == 0 {
        assert(a + b =~= a);
        assert(fids(a) + fids(b) =~= fids(a));
    } else {
        lemma_fids_concat(a, b.drop_last());
        assert((a + b).drop_last() =~= a + b.drop_last());
        assert((a + b).last() == b.last());
        assert(fids(a + b) =~= fids(a) + fids(b));
    }
}

proof fn lemma_fids_hosts(hs: Seq<HostView>, favs: Set<Seq<char>>, pick: Pick, depth: nat)
    ensures
        fids(host_rows(hs, favs, pick, depth)) == Seq::<Seq<char>>::empty(),
    decreases hs.len(),
{
    if hs.len() > 0 {
        lemma_fids_hosts(hs.drop_last(), favs, pick, depth);
        let r = host_rows(hs.drop_last(), favs, pick, depth);
        if picks(favs, hs.last(), pick) {
            assert(r.push(pick_row(favs, hs.last(), pick, depth)).drop_last() =~= r);
        }
    }
}

proof fn lemma_join_ids(
    x: Seq<Seq<char>>,
    y: Seq<Seq<char>>,
    c1: spec_fn(Seq<Seq<char>>) -> bool,
    c2: spec_fn(Seq<Seq<char>>) -> bool,
    c: spec_fn(Seq<Seq<char>>) -> bool,
)
    requires
        x.no_duplicates(),
        y.no_duplicates(),
        ids_of(x, c1),
        ids_of(y, c2),
        forall|q: Seq<Seq<char>>| !(#[trigger] c1(q) && c2(q)),
        forall|q: Seq<Seq<char>>| #[trigger] c1(q) ==> c(q),
        forall|q: Seq<Seq<char>>| #[trigger] c2(q) ==> c(q),
    ensures
        (x + y).no_duplicates(),
        ids_of(x + y, c),
{
    let z = x + y;
    assert forall|k1: int, k2: int| 0 <= k1 < x.len() && 0 <= k2 < y.len() implies x[k1] != y[k2] by {
        assert(id_of(x[k1], c1));
        assert(id_of(y[k2], c2));
        let q1 = choose|q: Seq<Seq<char>>| q.len() > 0 && pieces_free_of(q, '\u{1}') && c1(q) && #[trigger] folder_id(q) == x[k1];
        let q2 = choose|q: Seq<Seq<char>>| q.len() > 0 && pieces_free_of(q, '\u{1}') && c2(q) && #[trigger] folder_id(q) == y[k2];
        if x[k1] == y[k2] {
            lemma_folder_id_injective(q1, q2);
        }
    }
    assert forall|k1: int, k2: int| 0 <= k1 < z.len() && 0 <= k2 < z.len() && k1 != k2 implies z[k1] != z[k2] by {
        if k1 < x.len() && k2 >= x.len() {
            assert(z[k1] == x[k1] && z[k2] == y[k2 - x.len()]);
        } else if k2 < x.len() && k1 >= x.len() {
            assert(z[k2] == x[k2] && z[k1] == y[k1 - x.len()]);
        } else if k1 < x.len() {
            assert(z[k1] == x[k1] && z[k2] == x[k2]);
        } else {
            assert(z[k1] == y[k1 - x.len()] && z[k2] == y[k2 - x.len()]);
        }
    }
    assert forall|k: int| 0 <= k < z.len() implies id_of(#[trigger] z[k], c) by {
        if k < x.len() {
            assert(z[k] == x[k]);
            assert(id_of(x[k], c1));
            let q = choose|q: Seq<Seq<char>>| q.len() > 0 && pieces_free_of(q, '\u{1}') && c1(q) && #[trigger] folder_id(q) == x[k];
            assert(c(q));
        } else {
            assert(z[k] == y[k - x.len()]);
            assert(id_of(y[k - x.len()], c2));
            let q = choose|q: Seq<Seq<char>>| q.len() > 0 && pieces_free_of(q, '\u{1}') && c2(q) && #[trigger] folder_id(q) == y[k - x.len()];
            assert(c(q));
        }
    }
}

proof fn lemma_ids_weaken(xs: Seq<Seq<char>>, c1: spec_fn(Seq<Seq<char>>) -> bool, c2: spec_fn(Seq<Seq<char>>) -> bool)
    requires
        ids_of(xs, c1),
        forall|q: Seq<Seq<char>>| #[trigger] c1(q) ==> c2(q),
    ensures
        ids_of(xs, c2),
{
    assert forall|k: int| 0 <= k < xs.len() implies id_of(#[trigger] xs[k], c2) by {
        assert(id_of(xs[k], c1));
        let q = choose|q: Seq<Seq<char>>| q.len() > 0 && pieces_free_of(q, '\u{1}') && c1(q) && #[trigger] folder_id(q) == xs[k];
        assert(c2(q));
    }
}

/// A child of `prefix` extends it by a piece of some host's path.
proof fn lemma_child_free(hs: Seq<HostView>, prefix: Seq<Seq<char>>, k: int)
    requires
        paths_free(hs),
        0 <= k < children(hs, prefix).len(),
    ensures
        pieces_free_of(prefix.push(children(hs, prefix)[k]), '\u{1}'),
{
    lemma_children_witness(hs, prefix);
    let i = choose|i: int|
        0 <= i < hs.len() && extends(#[trigger] hs[i].folder, prefix) && hs[i].folder[prefix.len() as int]
            == #[trigger] children(hs, prefix)[k];
    let f = hs[i].folder;
    let p = prefix.push(children(hs, prefix)[k]);
    assert(pieces_free_of(f, '\u{1}'));
    assert(p =~= f.take(prefix.len() + 1int)) by {
        assert forall|x: int| 0 <= x < prefix.len() implies p[x] == f[x] by {
            assert(f.take(prefix.len() as int)[x] == f[x]);
        }
    }
    assert forall|a: int, b: int| 0 <= a < p.len() && 0 <= b < p[a].len() implies #[trigger] p[a][b] != '\u{1}' by {
        assert(p[a] == f[a]);
    }
}

proof fn lemma_fids_folder_rows(
    hs: Seq<HostView>,
    favs: Set<Seq<char>>,
    closed: Set<Seq<char>>,
    prefix: Seq<Seq<char>>,
    depth: nat,
    fuel: nat,
)
    requires
        paths_free(hs),
    ensures
        fids(folder_rows(hs, favs, closed, prefix, depth, fuel)).no_duplicates(),
        ids_of(fids(folder_rows(hs, favs, closed, prefix, depth, fuel)), |q: Seq<Seq<char>>| extends(q, prefix)),
    decreases fuel, 0nat, 0nat,
{
    if fuel > 0 {
        let cs = children(hs, prefix);
        lemma_children_witness(hs, prefix);
        assert forall|k: int| 0 <= k < cs.len() implies pieces_free_of(#[trigger] prefix.push(cs[k]), '\u{1}') by {
            lemma_child_free(hs, prefix, k);
        }
        lemma_fids_children_rows(hs, favs, closed, prefix, depth, (fuel - 1) as nat, cs);
        let c1 = |q: Seq<Seq<char>>| extends(q, prefix) && cs.contains(q[prefix.len() as int]);
        let c2 = |q: Seq<Seq<char>>| extends(q, prefix);
        lemma_ids_weaken(fids(folder_rows(hs, favs, closed, prefix, depth, fuel)), c1, c2);
    } else {
        assert(fids(folder_rows(hs, favs, closed, prefix, depth, fuel)) =~= Seq::<Seq<char>>::empty());
    }
}

proof fn lemma_fids_child_block(
    hs: Seq<HostView>,
    favs: Set<Seq<char>>,
    closed: Set<Seq<char>>,
    prefix: Seq<Seq<char>>,
    depth: nat,
    fuel: nat,
    child: Seq<char>,
)
    requires
        paths_free(hs),
        pieces_free_of(prefix.push(child), '\u{1}'),
    ensures
        fids(child_block(hs, favs, closed, prefix, depth, fuel, child)).no_duplicates(),
        ids_of(fids(child_block(hs, favs, closed, prefix, depth, fuel, child)), |q: Seq<Seq<char>>| under(q, prefix.push(child))),
    decreases fuel, 1nat, 0nat,
{
    let p = prefix.push(child);
    let id = folder_id(p);
    let head = seq![RowView::Folder { id, name: child, depth, collapsed: closed.contains(id) }];
    let c = |q: Seq<Seq<char>>| under(q, p);
    lemma_fids_single(head[0]);
    assert(head =~= seq![head[0]]);
    assert(p.take(p.len() as int) =~= p);
    let ch = |q: Seq<Seq<char>>| q == p;
    assert(ids_of(fids(head), ch)) by {
        assert(fids(head) == seq![id]);
        assert forall|k: int| 0 <= k < fids(head).len() implies id_of(#[trigger] fids(head)[k], ch) by {
            assert(p.len() > 0 && pieces_free_of(p, '\u{1}') && ch(p) && folder_id(p) == fids(head)[k]);
        }
    }
    assert forall|q: Seq<Seq<char>>| #[trigger] ch(q) implies c(q) by {}
    if closed.contains(id) {
        assert(child_block(hs, favs, closed, prefix, depth, fuel, child) =~= head);
        lemma_ids_weaken(fids(head), ch, c);
    } else {
        lemma_fids_folder_rows(hs, favs, closed, p, depth + 1, fuel);
        lemma_fids_hosts(hs, favs, Pick::InFolder(p), depth + 1);
        let a = folder_rows(hs, favs, closed, p, depth + 1, fuel);
        let b = host_rows(hs, favs, Pick::InFolder(p), depth + 1);
        lemma_fids_concat(a, b);
        assert(fids(a + b) =~= fids(a));
        let c1 = |q: Seq<Seq<char>>| extends(q, p);
        assert forall|q: Seq<Seq<char>>| !(#[trigger] ch(q) && c1(q)) by {}
        assert forall|q: Seq<Seq<char>>| #[trigger] c1(q) implies c(q) by {}
        lemma_join_ids(fids(head), fids(a + b), ch, c1, c);
        lemma_fids_concat(head, a + b);
        assert(child_block(hs, favs, closed, prefix, depth, fuel, child) == head + (a + b));
    }
}

proof fn lemma_fids_children_rows(
    hs: Seq<HostView>,
    favs: Set<Seq<char>>,
    closed: Set<Seq<char>>,
    prefix: Seq<Seq<char>>,
    depth: nat,
    fuel: nat,
    cs: Seq<Seq<char>>,
)
    requires
        paths_free(hs),
        cs.no_duplicates(),
        forall|k: int| 0 <= k < cs.len() ==> pieces_free_of(#[trigger] prefix.push(cs[k]), '\u{1}'),
    ensures
        fids(children_rows(hs, favs, closed, prefix, depth, fuel, cs)).no_duplicates(),
        ids_of(
            fids(children_rows(hs, favs, closed, prefix, depth, fuel, cs)),
            |q: Seq<Seq<char>>| extends(q, prefix) && cs.contains(q[prefix.len() as int]),
        ),
    decreases fuel, 2nat, cs.len(),
{
    let c = |q: Seq<Seq<char>>| extends(q, prefix) && cs.contains(q[prefix.len() as int]);
    if cs.len() == 0 {
        assert(fids(children_rows(hs, favs, closed, prefix, depth, fuel, cs)) =~= Seq::<Seq<char>>::empty());
    } else {
        let init = cs.drop_last();
        let last = cs.last();
        assert(init.no_duplicates());
        assert forall|k: int| 0 <= k < init.len() implies pieces_free_of(#[trigger] prefix.push(init[k]), '\u{1}') by {
            assert(init[k] == cs[k]);
        }
        assert(pieces_free_of(prefix.push(cs[cs.len() - 1]), '\u{1}'));
        lemma_fids_children_rows(hs, favs, closed, prefix, depth, fuel, init);
        lemma_fids_child_block(hs, favs, closed, prefix, depth, fuel, last);
        let a = children_rows(hs, favs, closed, prefix, depth, fuel, init);
        let b = child_block(hs, favs, closed, prefix, depth, fuel, last);
        let c1 = |q: Seq<Seq<char>>| extends(q, prefix) && init.contains(q[prefix.len() as int]);
        let c2 = |q: Seq<Seq<char>>| under(q, prefix.push(last));
        assert forall|q: Seq<Seq<char>>| #[trigger] c2(q) implies extends(q, prefix) && q[prefix.len() as int] == last by {
            lemma_under_extends(q, prefix, last);
        }
        assert forall|q: Seq<Seq<char>>| !(#[trigger] c1(q) && c2(q)) by {
            if c1(q) && c2(q) {
                let k = choose|k: int| 0 <= k < init.len() && init[k] == q[prefix.len() as int];
                assert(cs[k] == cs[cs.len() - 1]);
            }
        }
        assert forall|q: Seq<Seq<char>>| #[trigger] c1(q) implies c(q) by {
            if c1(q) {
                let k = choose|k: int| 0 <= k < init.len() && init[k] == q[prefix.len() as int];
                assert(cs[k] == init[k]);
            }
        }
        assert forall|q: Seq<Seq<char>>| #[trigger] c2(q) implies c(q) by {
            assert(cs[cs.len() - 1] == last);
        }
        lemma_join_ids(fids(a), fids(b), c1, c2, c);
        lemma_fids_concat(a, b);
    }
}

/// When no section path holds the separator, each folder of the tree has
/// one row.
pub proof fn lemma_folder_rows_unique(hs: Seq<HostView>, favs: Set<Seq<char>>, closed: Set<Seq<char>>)
    requires
        paths_free(hs),
    ensures
        fids(tree_rows(hs, favs, closed)).no_duplicates(),
{
    let fd = deepest(hs) + 1;
    let fav = favorites_section(hs, favs);
    let folders = folder_rows(hs, favs, closed, seq![], 0, fd);
    let loose = host_rows(hs, favs, Pick::InFolder(seq![]), 1);
    let sec = seq![RowView::Section { label: ungrouped_label() }];
    let ung = if loose.len() > 0 {
        sec + loose
    } else {
        seq![]
    };
    let starred = host_rows(hs, favs, Pick::Starred, 1);
    let fsec = seq![RowView::Section { label: favorites_label() }];
    lemma_fids_hosts(hs, favs, Pick::Starred, 1);
    lemma_fids_hosts(hs, favs, Pick::InFolder(seq![]), 1);
    lemma_fids_single(fsec[0]);
    lemma_fids_single(sec[0]);
    assert(fsec =~= seq![fsec[0]]);
    assert(sec =~= seq![sec[0]]);
    lemma_fids_concat(fsec, starred);
    lemma_fids_concat(sec, loose);
    assert(fids(fav) =~= Seq::<Seq<char>>::empty());
    assert(fids(ung) =~= Seq::<Seq<char>>::empty());
    lemma_fids_folder_rows(hs, favs, closed, seq![], 0, fd);
    lemma_fids_concat(fav, folders);
    lemma_fids_concat(fav + folders, ung);
    assert(tree_rows(hs, favs, closed) == fav + folders + ung);
    assert(fids(fav + folders + ung) =~= fids(folders));
}

proof fn lemma_fids_position(rows: Seq<RowView>, i: int)
    requires
        0 <= i < rows.len(),
        rows[i] is Folder,
    ensures
        fids(rows.take(i)).len() < fids(rows).len(),
        fids(rows)[fids(rows.take(i)).len() as int] == rows[i]->Folder_id,
        fids(rows.take(i + 1)).len() == fids(rows.take(i)).len() + 1,
{
    let a = rows.take(i);
    let b = rows.skip(i + 1);
    let mid = seq![rows[i]];
    assert(rows =~= a + mid + b);
    lemma_fids_single(rows[i]);
    lemma_fids_concat(a, mid);
    lemma_fids_concat(a + mid, b);
    assert(rows.take(i + 1) =~= a + mid);
}

proof fn lemma_fids_grows(rows: Seq<RowView>, i: int, j: int)
    requires
        0 <= i <= j <= rows.len(),
    ensures
        fids(rows.take(i)).len() <= fids(rows.take(j)).len(),
    decreases j - i,
{
    if i < j {
        lemma_fids_grows(rows, i, j - 1);
        assert(rows.take(j).drop_last() =~= rows.take(j - 1));
    }
}

/// When no folder id occurs twice, two folder rows with one id are one row.
pub proof fn lemma_one_folder_row(rows: Seq<RowView>, i: int, j: int)
    requires
        fids(rows).no_duplicates(),
        0 <= i < rows.len(),
        0 <= j < rows.len(),
        rows[i] is Folder,
        rows[j] is Folder,
        rows[i]->Folder_id == rows[j]->Folder_id,
    ensures
        i == j,
{
    if i != j {
        let (lo, hi) = if i < j { (i, j) } else { (j, i) };
        lemma_fids_position(rows, lo);
        lemma_fids_position(rows, hi);
        lemma_fids_grows(rows, lo + 1, hi);
    }
}


// ---------------------------------------------------------------------------
// A host row carries its host's note
// ---------------------------------------------------------------------------

/// `r` shows a host of `hs`: its alias and its note.
pub open spec fn shows_host(r: RowView, hs: Seq<HostView>) -> bool {
    exists|k: int| 0 <= k < hs.len() && #[trigger] hs[k].alias == r->Host_alias && r->Host_note == hs[k].note
}

/// Every host row shows a host of `hs`, note included.
pub open spec fn shows_notes(rows: Seq<RowView>, hs: Seq<HostView>) -> bool {
    forall|i: int| 0 <= i < rows.len() && (#[trigger] rows[i]) is Host ==> shows_host(rows[i], hs)
}

proof fn lemma_notes_concat(a: Seq<RowView>, b: Seq<RowView>, hs: Seq<HostView>)
    requires
        shows_notes(a, hs),
        shows_notes(b, hs),
    ensures
        shows_notes(a + b, hs),
{
    assert forall|i: int| 0 <= i < (a + b).len() && (#[trigger] (a + b)[i]) is Host implies shows_host((a + b)[i], hs) by {
        if i < a.len() {
            assert((a + b)[i] == a[i]);
        } else {
            assert((a + b)[i] == b[i - a.len()]);
        }
    }
}

proof fn lemma_notes_host_rows(hs: Seq<HostView>, sub: Seq<HostView>, favs: Set<Seq<char>>, pick: Pick, depth: nat)
    requires
        forall|k: int| 0 <= k < sub.len() ==> hs.contains(#[trigger] sub[k]),
    ensures
        shows_notes(host_rows(sub, favs, pick, depth), hs),
    decreases sub.len(),
{
    if sub.len() > 0 {
        let prev = sub.drop_last();
        assert forall|k: int| 0 <= k < prev.len() implies hs.contains(#[trigger] prev[k]) by {
            assert(prev[k] == sub[k]);
        }
        lemma_notes_host_rows(hs, prev, favs, pick, depth);
        let r = host_rows(prev, favs, pick, depth);
        if picks(favs, sub.last(), pick) {
            let row = pick_row(favs, sub.last(), pick, depth);
            assert(hs.contains(sub[sub.len() - 1]));
            let k = choose|k: int| 0 <= k < hs.len() && hs[k] == sub[sub.len() - 1];
            assert(hs[k].alias == row->Host_alias && row->Host_note == hs[k].note);
            assert(shows_notes(seq![row], hs));
            lemma_notes_concat(r, seq![row], hs);
            assert(r.push(row) =~= r + seq![row]);
        }
    }
}

proof fn lemma_notes_folder_rows(
    hs: Seq<HostView>,
    favs: Set<Seq<char>>,
    closed: Set<Seq<char>>,
    prefix: Seq<Seq<char>>,
    depth: nat,
    fuel: nat,
)
    ensures
        shows_notes(folder_rows(hs, favs, closed, prefix, depth, fuel), hs),
    decreases fuel, 0nat, 0nat,
{
    if fuel > 0 {
        lemma_notes_children_rows(hs, favs, closed, prefix, depth, (fuel - 1) as nat, children(hs, prefix));
    }
}

proof fn lemma_notes_child_block(
    hs: Seq<HostView>,
    favs: Set<Seq<char>>,
    closed: Set<Seq<char>>,
    prefix: Seq<Seq<char>>,
    depth: nat,
    fuel: nat,
    child: Seq<char>,
)
    ensures
        shows_notes(child_block(hs, favs, closed, prefix, depth, fuel, child), hs),
    decreases fuel, 1nat, 0nat,
{
    let p = prefix.push(child);
    let id = folder_id(p);
    let head = seq![RowView::Folder { id, name: child, depth, collapsed: closed.contains(id) }];
    assert(shows_notes(head, hs));
    if closed.contains(id) {
        lemma_notes_concat(head, seq![], hs);
    } else {
        lemma_notes_folder_rows(hs, favs, closed, p, depth + 1, fuel);
        lemma_notes_host_rows(hs, hs, favs, Pick::InFolder(p), depth + 1);
        let a = folder_rows(hs, favs, closed, p, depth + 1, fuel);
        let b = host_rows(hs, favs, Pick::InFolder(p), depth + 1);
        lemma_notes_concat(a, b, hs);
        lemma_notes_concat(head, a + b, hs);
    }
}

proof fn lemma_notes_children_rows(
    hs: Seq<HostView>,
    favs: Set<Seq<char>>,
    closed: Set<Seq<char>>,
    prefix: Seq<Seq<char>>,
    depth: nat,
    fuel: nat,
    cs: Seq<Seq<char>>,
)
    ensures
        shows_notes(children_rows(hs, favs, closed, prefix, depth, fuel, cs), hs),
    decreases fuel, 2nat, cs.len(),
{
    if cs.len() > 0 {
        lemma_notes_children_rows(hs, favs, closed, prefix, depth, fuel, cs.drop_last());
        lemma_notes_child_block(hs, favs, closed, prefix, depth, fuel, cs.last());
        lemma_notes_concat(
            children_rows(hs, favs, closed, prefix, depth, fuel, cs.drop_last()),
            child_block(hs, favs, closed, prefix, depth, fuel, cs.last()),
            hs,
        );
    }
}

/// Every host row the picker shows, in the tree, under `★ Favorites` or
/// among search results, carries the note of a host with its alias; when no
/// alias is written twice, the note of the host with that alias.
pub proof fn lemma_rows_carry_notes(
    hs: Seq<HostView>,
    favs: Set<Seq<char>>,
    closed: Set<Seq<char>>,
    search: Option<Seq<char>>,
)
    ensures
        shows_notes(rows_for(hs, favs, closed, search), hs),
        distinct_aliases(hs) ==> forall|i: int, k: int|
            0 <= i < rows_for(hs, favs, closed, search).len() && (#[trigger] rows_for(hs, favs, closed, search)[i]) is Host
                && 0 <= k < hs.len() && #[trigger] hs[k].alias == rows_for(hs, favs, closed, search)[i]->Host_alias
                ==> rows_for(hs, favs, closed, search)[i]->Host_note == hs[k].note,
{
    let rows = rows_for(hs, favs, closed, search);
    assert forall|k: int| 0 <= k < hs.len() implies hs.contains(#[trigger] hs[k]) by {}
    match search {
        Some(q) => lemma_notes_host_rows(hs, hs, favs, Pick::Matching(q), 0),
        None => {
            let fd = deepest(hs) + 1;
            let fav = favorites_section(hs, favs);
            let folders = folder_rows(hs, favs, closed, seq![], 0, fd);
            let loose = host_rows(hs, favs, Pick::InFolder(seq![]), 1);
            let sec = seq![RowView::Section { label: ungrouped_label() }];
            let ung = if loose.len() > 0 {
                sec + loose
            } else {
                seq![]
            };
            let starred = host_rows(hs, favs, Pick::Starred, 1);
            let fsec = seq![RowView::Section { label: favorites_label() }];
            lemma_notes_host_rows(hs, hs, favs, Pick::Starred, 1);
            lemma_notes_host_rows(hs, hs, favs, Pick::InFolder(seq![]), 1);
            lemma_notes_folder_rows(hs, favs, closed, seq![], 0, fd);
            assert(shows_notes(fsec, hs) && shows_notes(sec, hs));
            lemma_notes_concat(fsec, starred, hs);
            lemma_notes_concat(sec, loose, hs);
            assert(shows_notes(fav, hs)) by {
                if starred.len() == 0 {
                    assert(fav =~= Seq::<RowView>::empty());
                }
            }
            assert(shows_notes(ung, hs)) by {
                if loose.len() == 0 {
                    assert(ung =~= Seq::<RowView>::empty());
                }
            }
            lemma_notes_concat(fav, folders, hs);
            lemma_notes_concat(fav + folders, ung, hs);
            assert(rows == fav + folders + ung);
        },
    }
    if distinct_aliases(hs) {
        assert forall|i: int, k: int|
            0 <= i < rows.len() && (#[trigger] rows[i]) is Host && 0 <= k < hs.len() && #[trigger] hs[k].alias
                == rows[i]->Host_alias implies rows[i]->Host_note == hs[k].note by {
            assert(shows_host(rows[i], hs));
            let m = choose|m: int| 0 <= m < hs.len() && #[trigger] hs[m].alias == rows[i]->Host_alias && rows[i]->Host_note == hs[m].note;
            if m < k {
                assert(hs[m].alias != hs[k].alias);
            } else if k < m {
                assert(hs[k].alias != hs[m].alias);
            }
        }
    }
}

} // verus!
