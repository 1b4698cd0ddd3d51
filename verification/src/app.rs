//! Picker state: the flattened tree, navigation, search and favorites.
//!
//! Rows are rebuilt from the parsed ssh config on every change rather than kept
//! in sync incrementally; the list is small and one source of truth is cheaper
//! to reason about than a diff.

use vstd::prelude::*;
use crate::names::Names;
use crate::ssh_config::{clone_opt, host_views, opt_view, Host, HostView};
use crate::text::{chars_of, join, join_strings, lower_all, lowered, string_views};
use crate::tree::{
    children, children_rows, child_block, clamp, context, deepest, extends, favorites_label, find_key,
    folder_rows, fuzzy, haystack, host_row, host_rows, lemma_children_witness, lemma_clamp_placed,
    lemma_deepest, lemma_no_children_beyond, lemma_parent_above, lemma_rebuilt_placed, note_text,
    parent_above, placed, rebuilt_selection, row_depth, row_key, rows_for, selectable, subseq, tree_rows,
    ungrouped_label, Pick, RowView,
};

verus! {

pub enum Row {
    /// `★ Favorites` and `Ungrouped`: not real sections, so not collapsible.
    Section { label: String },
    Folder { id: String, name: String, depth: usize, collapsed: bool },
    Host {
        alias: String,
        depth: usize,
        favorite: bool,
        /// True for the copy under ★ Favorites. The same host appears twice, so
        /// the two rows must not share an identity.
        shortcut: bool,
        /// Shown when searching, where the tree position is not visible.
        context: Option<String>,
        note: Option<String>,
    },
}

impl View for Row {
    type V = RowView;

    open spec fn view(&self) -> RowView {
        match self {
            Row::Section { label } => RowView::Section { label: label@ },
            Row::Folder { id, name, depth, collapsed } => RowView::Folder {
                id: id@,
                name: name@,
                depth: *depth as nat,
                collapsed: *collapsed,
            },
            Row::Host { alias, depth, favorite, shortcut, context, note } => RowView::Host {
                alias: alias@,
                depth: *depth as nat,
                favorite: *favorite,
                shortcut: *shortcut,
                context: opt_view(*context),
                note: opt_view(*note),
            },
        }
    }
}

/// The mathematical values of a run of rows.
pub open spec fn row_views(rs: Seq<Row>) -> Seq<RowView> {
    rs.map_values(|r: Row| r@)
}

impl Row {
    pub fn alias(&self) -> (out: Option<&str>)
        ensures
            match self@ {
                RowView::Host { alias, .. } => out is Some && out.unwrap()@ == alias,
                _ => out is None,
            },
    {
        match self {
            Row::Host { alias, .. } => Some(alias.as_str()),
            _ => None,
        }
    }

    /// Identity across a rebuild (see [`row_key`]).
    pub fn key(&self) -> (out: Option<String>)
        ensures
            opt_view(out) == row_key(self@),
    {
        match self {
            Row::Section { .. } => None,
            Row::Folder { id, .. } => {
                let mut k = String::from_str("f:");
                k.append(id.as_str());
                Some(k)
            },
            Row::Host { alias, shortcut, .. } => {
                let mut k = if *shortcut {
                    String::from_str("\u{2605}:")
                } else {
                    String::from_str("h:")
                };
                k.append(alias.as_str());
                Some(k)
            },
        }
    }

    pub fn depth(&self) -> (out: usize)
        ensures
            out as nat == row_depth(self@),
    {
        match self {
            Row::Section { .. } => 0,
            Row::Folder { depth, .. } => *depth,
            Row::Host { depth, .. } => *depth,
        }
    }

    pub fn selectable(&self) -> (out: bool)
        ensures
            out == selectable(self@),
    {
        match self {
            Row::Section { .. } => false,
            _ => true,
        }
    }
}

/// Subsequence match, case-insensitive: `dkp` finds `dokku-prod`. No ranking:
/// the list is short enough that ordering by tree position reads better than
/// by score.
pub fn fuzzy_match(query: &str, haystack: &str) -> (out: bool)
    ensures
        out == fuzzy(query@, haystack@),
{
    let q = lowered(&chars_of(query));
    let h = lowered(&chars_of(haystack));
    let mut i: usize = 0;
    let mut j: usize = 0;
    assert(q@.skip(0) =~= q@);
    assert(h@.skip(0) =~= h@);
    while i < q.len()
        invariant
            i <= q.len(),
            j <= h.len(),
            q@ == lower_all(query@),
            h@ == lower_all(haystack@),
            subseq(q@.skip(i as int), h@.skip(j as int)) == subseq(q@, h@),
        decreases q.len() - i,
    {
        while j < h.len() && h[j] != q[i]
            invariant
                i < q.len(),
                j <= h.len(),
                subseq(q@.skip(i as int), h@.skip(j as int)) == subseq(q@, h@),
            decreases h.len() - j,
        {
            assert(h@.skip(j as int).drop_first() =~= h@.skip(j + 1));
            j = j + 1;
        }
        if j == h.len() {
            assert(h@.skip(j as int) =~= Seq::<char>::empty());
            assert(q@.skip(i as int).len() > 0);
            assert(!subseq(q@.skip(i as int), h@.skip(j as int)));
            return false;
        }
        assert(h@.skip(j as int).drop_first() =~= h@.skip(j + 1));
        assert(q@.skip(i as int).drop_first() =~= q@.skip(i + 1));
        i = i + 1;
        j = j + 1;
    }
    true
}

fn strings_equal(a: &Vec<String>, b: &Vec<String>) -> (out: bool)
    ensures
        out == (string_views(a@) == string_views(b@)),
{
    if a.len() != b.len() {
        assert(string_views(a@).len() != string_views(b@).len());
        return false;
    }
    let mut i: usize = 0;
    while i < a.len()
        invariant
            i <= a.len() == b.len(),
            forall|j: int| 0 <= j < i ==> (#[trigger] a@[j])@ == b@[j]@,
        decreases a.len() - i,
    {
        if a[i] != b[i] {
            assert(string_views(a@)[i as int] != string_views(b@)[i as int]);
            return false;
        }
        i = i + 1;
    }
    assert(string_views(a@) =~= string_views(b@));
    true
}

/// `f` is written under `prefix` and goes deeper.
fn extends_prefix(f: &Vec<String>, prefix: &Vec<String>) -> (out: bool)
    ensures
        out == extends(string_views(f@), string_views(prefix@)),
{
    if f.len() <= prefix.len() {
        return false;
    }
    let mut i: usize = 0;
    while i < prefix.len()
        invariant
            i <= prefix.len() < f.len(),
            forall|j: int| 0 <= j < i ==> (#[trigger] f@[j])@ == prefix@[j]@,
        decreases prefix.len() - i,
    {
        if f[i] != prefix[i] {
            assert(string_views(f@).take(prefix.len() as int)[i as int] != string_views(prefix@)[i as int]);
            return false;
        }
        i = i + 1;
    }
    assert(string_views(f@).take(prefix.len() as int) =~= string_views(prefix@));
    true
}

fn strings_contain(v: &Vec<String>, s: &String) -> (out: bool)
    ensures
        out == string_views(v@).contains(s@),
{
    let mut i: usize = 0;
    while i < v.len()
        invariant
            i <= v.len(),
            forall|j: int| 0 <= j < i ==> (#[trigger] v@[j])@ != s@,
        decreases v.len() - i,
    {
        if v[i] == *s {
            assert(string_views(v@)[i as int] == s@);
            return true;
        }
        i = i + 1;
    }
    proof {
        if string_views(v@).contains(s@) {
            let k = choose|k: int| 0 <= k < string_views(v@).len() && string_views(v@)[k] == s@;
            assert(v@[k]@ == s@);
        }
    }
    false
}

pub struct App {
    /// The hosts of the ssh config, in file order.
    pub hosts: Vec<Host>,
    /// Starred aliases.
    pub favorites: Names,
    /// Ids of collapsed folders.
    pub collapsed: Names,
    pub search: Option<String>,
    pub rows: Vec<Row>,
    pub selected: usize,
    pub status: Option<String>,
    pub help: bool,
    pub done: bool,
    /// Where favorites are saved; `None` when there is no plugin state dir.
    pub favorites_path: Option<String>,
    /// Where the ssh config is read from; `None` when there is no home dir.
    pub ssh_config_path: Option<String>,
}

impl App {
    /// The hosts, as mathematical values.
    pub open spec fn host_list(&self) -> Seq<HostView> {
        host_views(self.hosts@)
    }

    fn host_row_in(&self, host: &Host, depth: usize, context: Option<String>, shortcut: bool) -> (out: Row)
        ensures
            out@ == host_row(self.favorites@, host@, depth as nat, opt_view(context), shortcut),
    {
        Row::Host {
            alias: host.alias.clone(),
            depth,
            favorite: self.favorites.contains(host.alias.as_str()),
            shortcut,
            context,
            note: clone_opt(&host.note),
        }
    }

    /// Appends a row for each host picked by `pick` (favorites, or the hosts
    /// written exactly under `folder`).
    fn push_hosts(&self, starred: bool, folder: &Vec<String>, depth: usize, rows: &mut Vec<Row>)
        ensures
            row_views(final(rows)@) == row_views(old(rows)@) + host_rows(
                self.host_list(),
                self.favorites@,
                if starred {
                    Pick::Starred
                } else {
                    Pick::InFolder(string_views(folder@))
                },
                depth as nat,
            ),
    {
        let ghost pick = if starred {
            Pick::Starred
        } else {
            Pick::InFolder(string_views(folder@))
        };
        let ghost start = row_views(rows@);
        let mut i: usize = 0;
        while i < self.hosts.len()
            invariant
                i <= self.hosts.len(),
                pick == (if starred {
                    Pick::Starred
                } else {
                    Pick::InFolder(string_views(folder@))
                }),
                row_views(rows@) == start + host_rows(self.host_list().take(i as int), self.favorites@, pick, depth as nat),
            decreases self.hosts.len() - i,
        {
            let host = &self.hosts[i];
            assert(self.host_list().take(i + 1).drop_last() =~= self.host_list().take(i as int));
            assert(self.host_list().take(i + 1).last() == host@);
            let wanted = if starred {
                self.favorites.contains(host.alias.as_str())
            } else {
                strings_equal(&host.folder, folder)
            };
            if wanted {
                let ghost before = rows@;
                rows.push(self.host_row_in(host, depth, None, starred));
                assert(row_views(rows@) =~= row_views(before).push(rows@.last()@));
            }
            i = i + 1;
        }
        assert(self.host_list().take(self.hosts.len() as int) =~= self.host_list());
    }

    /// The subfolders of `prefix`, in the order the config first lists them.
    fn child_folders(&self, prefix: &Vec<String>) -> (out: Vec<String>)
        ensures
            string_views(out@) == children(self.host_list(), string_views(prefix@)),
    {
        let ghost p = string_views(prefix@);
        let mut out: Vec<String> = Vec::new();
        let mut i: usize = 0;
        while i < self.hosts.len()
            invariant
                i <= self.hosts.len(),
                p == string_views(prefix@),
                string_views(out@) == children(self.host_list().take(i as int), p),
            decreases self.hosts.len() - i,
        {
            let host = &self.hosts[i];
            assert(self.host_list().take(i + 1).drop_last() =~= self.host_list().take(i as int));
            assert(self.host_list().take(i + 1).last() == host@);
            if extends_prefix(&host.folder, prefix) {
                let child = &host.folder[prefix.len()];
                assert(host@.folder[p.len() as int] == child@);
                if !strings_contain(&out, child) {
                    let ghost before = out@;
                    out.push(child.clone());
                    assert(string_views(out@) =~= string_views(before).push(child@));
                }
            }
            i = i + 1;
        }
        assert(self.host_list().take(self.hosts.len() as int) =~= self.host_list());
        out
    }

    /// Appends the rows of the subfolders of `prefix` (see [`folder_rows`]).
    fn push_folders(&self, prefix: &mut Vec<String>, depth: usize, rows: &mut Vec<Row>, Ghost(fuel): Ghost<nat>)
        requires
            old(prefix)@.len() + fuel == deepest(self.host_list()) + 1,
            depth == old(prefix)@.len(),
        ensures
            string_views(final(prefix)@) == string_views(old(prefix)@),
            final(prefix)@.len() == old(prefix)@.len(),
            row_views(final(rows)@) == row_views(old(rows)@) + folder_rows(
                self.host_list(),
                self.favorites@,
                self.collapsed@,
                string_views(old(prefix)@),
                depth as nat,
                fuel,
            ),
        decreases fuel,
    {
        let ghost hs = self.host_list();
        let ghost p0 = string_views(prefix@);
        let ghost start = row_views(rows@);
        let kids = self.child_folders(prefix);
        proof {
            lemma_children_witness(hs, p0);
            lemma_deepest(hs);
            if fuel == 0 {
                lemma_no_children_beyond(hs, p0);
            }
        }
        let ghost cs = string_views(kids@);
        let mut k: usize = 0;
        while k < kids.len()
            invariant
                k <= kids.len(),
                cs == string_views(kids@),
                cs == children(hs, p0),
                hs == self.host_list(),
                fuel == 0 ==> kids.len() == 0,
                string_views(prefix@) == p0,
                prefix@.len() == p0.len(),
                depth == p0.len(),
                p0.len() + fuel == deepest(hs) + 1,
                fuel > 0 ==> row_views(rows@) == start + children_rows(
                    hs,
                    self.favorites@,
                    self.collapsed@,
                    p0,
                    depth as nat,
                    (fuel - 1) as nat,
                    cs.take(k as int),
                ),
                fuel == 0 ==> row_views(rows@) == start,
            decreases kids.len() - k,
        {
            let child = &kids[k];
            let ghost before = row_views(rows@);
            proof {
                lemma_children_witness(hs, p0);
                lemma_deepest(hs);
                let i = choose|i: int|
                    0 <= i < hs.len() && extends(#[trigger] hs[i].folder, p0) && hs[i].folder[p0.len() as int]
                        == #[trigger] children(hs, p0)[k as int];
                assert(hs[i].folder.len() <= deepest(hs));
            }
            prefix.push(child.clone());
            let inner_depth = prefix.len();
            let ghost p = string_views(prefix@);
            assert(p =~= p0.push(cs[k as int]));
            let id = join_strings(prefix, "\u{1}");
            proof {
                reveal_strlit("\u{1}");
                assert("\u{1}"@ =~= crate::ssh_config::id_separator());
            }
            let is_collapsed = self.collapsed.contains(id.as_str());
            rows.push(Row::Folder { id, name: child.clone(), depth, collapsed: is_collapsed });
            let ghost with_folder = row_views(rows@);
            assert(with_folder =~= before.push(rows@.last()@));
            if !is_collapsed {
                self.push_folders(prefix, inner_depth, rows, Ghost((fuel - 1) as nat));
                self.push_hosts(false, prefix, inner_depth, rows);
            }
            let ghost block = child_block(
                hs,
                self.favorites@,
                self.collapsed@,
                p0,
                depth as nat,
                (fuel - 1) as nat,
                cs[k as int],
            );
            assert(row_views(rows@) =~= before + block);
            let ghost mid = prefix@;
            prefix.pop();
            assert(string_views(mid) =~= p);
            assert(string_views(prefix@) =~= string_views(mid).drop_last());
            assert(string_views(prefix@) =~= p0);
            assert(cs.take(k + 1).drop_last() =~= cs.take(k as int));
            assert(cs.take(k + 1).last() == cs[k as int]);
            k = k + 1;
        }
        assert(cs.take(kids.len() as int) =~= cs);
    }

    /// The rows of the whole tree (see [`tree_rows`]).
    fn tree_rows(&self) -> (out: Vec<Row>)
        ensures
            row_views(out@) == tree_rows(self.host_list(), self.favorites@, self.collapsed@),
    {
        let ghost hs = self.host_list();
        let none: Vec<String> = Vec::new();
        let mut starred: Vec<Row> = Vec::new();
        self.push_hosts(true, &none, 1, &mut starred);
        let mut rows: Vec<Row> = Vec::new();
        if starred.len() > 0 {
            rows.push(Row::Section { label: String::from_str("\u{2605} Favorites") });
            rows.append(&mut starred);
        }
        let ghost head = row_views(rows@);
        assert(head =~= (if host_rows(hs, self.favorites@, Pick::Starred, 1).len() > 0 {
            seq![RowView::Section { label: favorites_label() }] + host_rows(hs, self.favorites@, Pick::Starred, 1)
        } else {
            seq![]
        }));
        let mut prefix: Vec<String> = Vec::new();
        self.push_folders(&mut prefix, 0, &mut rows, Ghost(deepest(hs) + 1));
        assert(string_views(none@) =~= Seq::<Seq<char>>::empty());
        assert(string_views(prefix@) =~= Seq::<Seq<char>>::empty());
        let mut loose: Vec<Row> = Vec::new();
        self.push_hosts(false, &none, 1, &mut loose);
        let ghost middle = row_views(rows@);
        if loose.len() > 0 {
            rows.push(Row::Section { label: String::from_str("Ungrouped") });
            let ghost with_label = rows@;
            rows.append(&mut loose);
            assert(row_views(rows@) =~= middle + (seq![RowView::Section { label: ungrouped_label() }]
                + host_rows(hs, self.favorites@, Pick::InFolder(seq![]), 1)));
        } else {
            assert(row_views(rows@) =~= middle + Seq::<RowView>::empty());
        }
        rows
    }

    /// The flat list of hosts a query finds.
    fn search_rows(&self, query: &String) -> (out: Vec<Row>)
        ensures
            row_views(out@) == host_rows(self.host_list(), self.favorites@, Pick::Matching(query@), 0),
    {
        let ghost pick = Pick::Matching(query@);
        let mut rows: Vec<Row> = Vec::new();
        let mut i: usize = 0;
        while i < self.hosts.len()
            invariant
                i <= self.hosts.len(),
                pick == Pick::Matching(query@),
                row_views(rows@) == host_rows(self.host_list().take(i as int), self.favorites@, pick, 0),
            decreases self.hosts.len() - i,
        {
            let host = &self.hosts[i];
            assert(self.host_list().take(i + 1).drop_last() =~= self.host_list().take(i as int));
            assert(self.host_list().take(i + 1).last() == host@);
            let path = host.folder_path();
            let mut pieces: Vec<String> = Vec::new();
            pieces.push(host.alias.clone());
            pieces.push(path.clone());
            let note = match &host.note {
                Some(n) => n.clone(),
                None => String::new(),
            };
            pieces.push(note);
            assert(string_views(pieces@) =~= seq![host@.alias, join(host@.folder, crate::ssh_config::path_separator()), note_text(host@.note)]);
            let hay = join_strings(&pieces, " ");
            proof {
                reveal_strlit(" ");
                assert(" "@ =~= seq![' ']);
            }
            if fuzzy_match(query.as_str(), hay.as_str()) {
                let ctx = if host.folder.len() > 0 {
                    Some(path)
                } else {
                    None
                };
                let ghost before = rows@;
                rows.push(self.host_row_in(host, 0, ctx, false));
                assert(row_views(rows@) =~= row_views(before).push(rows@.last()@));
            }
            i = i + 1;
        }
        assert(self.host_list().take(self.hosts.len() as int) =~= self.host_list());
        rows
    }
}

/// Everything but the rows and the cursor is as in `b`.
pub open spec fn same_settings(a: App, b: App) -> bool {
    &&& a.hosts@ == b.hosts@
    &&& a.favorites@ == b.favorites@
    &&& a.collapsed@ == b.collapsed@
    &&& a.search == b.search
    &&& a.status == b.status
    &&& a.help == b.help
    &&& a.done == b.done
    &&& a.favorites_path == b.favorites_path
    &&& a.ssh_config_path == b.ssh_config_path
}

/// The message shown when the config lists no host.
pub open spec fn no_hosts_message() -> Seq<char> {
    "no hosts found in ~/.ssh/config"@
}

/// The message shown when a favorite cannot be saved for want of a place.
pub open spec fn unsaved_message() -> Seq<char> {
    "no plugin state dir; favorites are not saved"@
}

impl App {
    /// The rows the current state calls for.
    pub open spec fn model_rows(&self) -> Seq<RowView> {
        rows_for(self.host_list(), self.favorites@, self.collapsed@, opt_view(self.search))
    }

    /// Hosts known, or, while searching, the hosts found.
    pub open spec fn host_count_spec(&self) -> nat {
        match self.search {
            Some(_) => self.rows@.len(),
            None => self.hosts@.len(),
        }
    }

    /// The rows, as mathematical values.
    pub open spec fn row_list(&self) -> Seq<RowView> {
        row_views(self.rows@)
    }

    /// A rebuild of `old`: the rows it calls for, the cursor kept on its row.
    pub open spec fn is_rebuild_of(&self, old: App) -> bool {
        &&& same_settings(*self, old)
        &&& self.row_list() == old.model_rows()
        &&& self.selected == rebuilt_selection(old.row_list(), old.selected as nat, old.model_rows())
    }

    /// A picker over `hosts` with `favorites` starred, nothing collapsed and no
    /// search, its rows built.
    pub fn new(
        hosts: Vec<Host>,
        favorites: Vec<String>,
        favorites_path: Option<String>,
        ssh_config_path: Option<String>,
    ) -> (out: App)
        ensures
            out.hosts@ == hosts@,
            out.favorites@ == string_views(favorites@).to_set(),
            out.collapsed@ == Set::<Seq<char>>::empty(),
            out.search is None,
            opt_view(out.status) == if hosts@.len() == 0 {
                Some(no_hosts_message())
            } else {
                None
            },
            !out.help,
            !out.done,
            out.favorites_path == favorites_path,
            out.ssh_config_path == ssh_config_path,
            out.row_list() == out.model_rows(),
            out.selected == rebuilt_selection(Seq::empty(), 0, out.model_rows()),
            out.settled(),
    {
        let mut app = App {
            hosts: Vec::new(),
            favorites: Names::new(),
            collapsed: Names::new(),
            search: None,
            rows: Vec::new(),
            selected: 0,
            status: None,
            help: false,
            done: false,
            favorites_path,
            ssh_config_path,
        };
        app.reload(hosts, favorites);
        app
    }

    /// Takes a fresh reading of the ssh config and the favorites list, and
    /// rebuilds the rows.
    pub fn reload(&mut self, hosts: Vec<Host>, favorites: Vec<String>)
        ensures
            final(self).hosts@ == hosts@,
            final(self).favorites@ == string_views(favorites@).to_set(),
            final(self).collapsed@ == old(self).collapsed@,
            final(self).search == old(self).search,
            opt_view(final(self).status) == if hosts@.len() == 0 {
                Some(no_hosts_message())
            } else {
                None
            },
            final(self).help == old(self).help,
            final(self).done == old(self).done,
            final(self).favorites_path == old(self).favorites_path,
            final(self).ssh_config_path == old(self).ssh_config_path,
            final(self).row_list() == final(self).model_rows(),
            final(self).selected == rebuilt_selection(old(self).row_list(), old(self).selected as nat, final(self).model_rows()),
            final(self).settled(),
    {
        self.hosts = hosts;
        self.favorites = Names::from_vec(favorites);
        self.status = if self.hosts.len() == 0 {
            Some(String::from_str("no hosts found in ~/.ssh/config"))
        } else {
            None
        };
        self.rebuild();
        proof {
            lemma_rebuilt_settled(*self, old(self).row_list(), old(self).selected as nat);
        }
    }

    fn position_of(&self, key: &String) -> (out: Option<usize>)
        ensures
            match out {
                Some(i) => find_key(self.row_list(), key@, 0) == Some(i as nat) && i < self.rows@.len(),
                None => find_key(self.row_list(), key@, 0) is None,
            },
    {
        let ghost rows = self.row_list();
        let mut i: usize = 0;
        while i < self.rows.len()
            invariant
                i <= self.rows.len(),
                rows == self.row_list(),
                find_key(rows, key@, i as int) == find_key(rows, key@, 0),
            decreases self.rows.len() - i,
        {
            let k = self.rows[i].key();
            assert(rows[i as int] == self.rows@[i as int]@);
            match k {
                Some(k) => {
                    if k == *key {
                        return Some(i);
                    }
                },
                None => {},
            }
            i = i + 1;
        }
        None
    }

    /// Section headers are labels, not targets: step past them.
    fn clamp_to_selectable(&mut self, direction: isize)
        ensures
            same_settings(*final(self), *old(self)),
            final(self).rows@ == old(self).rows@,
            final(self).selected == clamp(
                old(self).row_list(),
                old(self).selected as nat,
                if direction < 0 {
                    -1
                } else {
                    1
                },
                old(self).rows@.len(),
            ),
    {
        let ghost rows = self.row_list();
        let ghost step: int = if direction < 0 {
            -1
        } else {
            1
        };
        let n = self.rows.len();
        let mut k: usize = 0;
        while k < n
            invariant
                k <= n == self.rows@.len(),
                rows == self.row_list(),
                same_settings(*self, *old(self)),
                self.rows@ == old(self).rows@,
                step == (if direction < 0 {
                    -1int
                } else {
                    1int
                }),
                clamp(rows, self.selected as nat, step, (n - k) as nat) == clamp(
                    rows,
                    old(self).selected as nat,
                    step,
                    n as nat,
                ),
            decreases n - k,
        {
            if self.selected < n && !self.rows[self.selected].selectable() {
                assert(rows[self.selected as int] == self.rows@[self.selected as int]@);
                let next = if direction < 0 {
                    if self.selected == 0 {
                        n - 1
                    } else {
                        self.selected - 1
                    }
                } else {
                    if self.selected + 1 == n {
                        0
                    } else {
                        self.selected + 1
                    }
                };
                proof {
                    let m = n as int;
                    if direction < 0 && self.selected == 0 {
                        vstd::arithmetic::div_mod::lemma_mod_add_multiples_vanish(-1, m);
                        vstd::arithmetic::div_mod::lemma_small_mod((m - 1) as nat, m as nat);
                    } else if direction >= 0 && self.selected + 1 == n {
                        vstd::arithmetic::div_mod::lemma_mod_self_0(m);
                    } else {
                        vstd::arithmetic::div_mod::lemma_small_mod(next as nat, m as nat);
                    }
                }
                assert(next as int == ((self.selected + step) % (rows.len() as int)));
                self.selected = next;
            } else {
                if self.selected < n {
                    assert(rows[self.selected as int] == self.rows@[self.selected as int]@);
                }
                return;
            }
            k = k + 1;
        }
    }

    fn rebuild(&mut self)
        ensures
            final(self).is_rebuild_of(*old(self)),
    {
        let previous = if self.selected < self.rows.len() {
            self.rows[self.selected].key()
        } else {
            None
        };
        proof {
            if self.selected < self.rows.len() {
                assert(self.row_list()[self.selected as int] == self.rows@[self.selected as int]@);
            }
        }
        let rows = match &self.search {
            Some(q) => self.search_rows(q),
            None => self.tree_rows(),
        };
        self.rows = rows;
        self.selected = match previous {
            Some(k) => match self.position_of(&k) {
                Some(i) => i,
                None => 0,
            },
            None => 0,
        };
        self.clamp_to_selectable(1);
    }

    /// Hosts known, not rows drawn: favorites appear twice and a collapsed
    /// folder hides its own. While searching, the hosts found.
    pub fn host_count(&self) -> (n: usize)
        ensures
            n == self.host_count_spec(),
    {
        match self.search {
            Some(_) => self.rows.len(),
            None => self.hosts.len(),
        }
    }

    /// The alias of the host under the cursor.
    pub fn selected_alias(&self) -> (out: Option<&str>)
        ensures
            match out {
                Some(a) => self.selected < self.rows@.len() && self.row_list()[self.selected as int] is Host
                    && a@ == self.row_list()[self.selected as int]->alias,
                None => !(self.selected < self.rows@.len() && self.row_list()[self.selected as int] is Host),
            },
    {
        if self.selected < self.rows.len() {
            assert(self.row_list()[self.selected as int] == self.rows@[self.selected as int]@);
            self.rows[self.selected].alias()
        } else {
            None
        }
    }

    /// Moves the cursor by `delta` rows, wrapping around, and past any section
    /// header in the direction of travel.
    pub fn move_by(&mut self, delta: isize)
        requires
            old(self).rows@.len() <= isize::MAX,
            isize::MIN <= (old(self).selected as isize) + delta <= isize::MAX,
        ensures
            moved(*old(self), *final(self), delta),

    {
        if self.rows.len() == 0 {
            return;
        }
        let len = self.rows.len() as isize;
        let moved = (self.selected as isize) + delta;
        let wrapped = match moved.checked_rem_euclid(len) {
            Some(w) => w,
            None => {
                assert(false);
                0
            },
        };
        self.selected = wrapped as usize;
        let direction: isize = if delta < 0 {
            -1
        } else if delta == 0 {
            0
        } else {
            1
        };
        self.clamp_to_selectable(direction);
    }
}

/// The settings that only reloading changes are as in `b`.
pub open spec fn same_sources(a: App, b: App) -> bool {
    &&& a.hosts@ == b.hosts@
    &&& a.favorites_path == b.favorites_path
    &&& a.ssh_config_path == b.ssh_config_path
}

/// `a` is `b` unchanged.
pub open spec fn unchanged(a: App, b: App) -> bool {
    &&& same_settings(a, b)
    &&& a.rows@ == b.rows@
    &&& a.selected == b.selected
}

/// The identity of the folder row with id `id`.
pub open spec fn folder_key(id: Seq<char>) -> Seq<char> {
    "f:"@ + id
}

/// `new` is `old` with the cursor moved by `delta` rows, wrapping around,
/// then past any section header in the direction of travel.
pub open spec fn moved(old: App, new: App, delta: isize) -> bool {
    &&& (same_settings(new, old))
    &&& (new.rows@ == old.rows@)
    &&& (old.rows@.len() == 0 ==> new.selected == old.selected)
    &&& (old.rows@.len() > 0 ==> new.selected == clamp(
        old.row_list(),
        (((old.selected as isize) + delta) % (old.rows@.len() as int)) as nat,
        if delta < 0 {
            -1
        } else {
            1
        },
        old.rows@.len(),
    ))
}

/// Right arrow on a folder: a collapsed one is opened and the rows rebuilt;
/// the cursor then steps onto the folder's first row when the folder has one.
/// Anywhere else nothing changes.
pub open spec fn entered_folder(old: App, new: App) -> bool {
    &&& (!old.on_folder() ==> unchanged(new, old))
    &&& (old.on_folder() ==> {
        let r = old.current();
        let id = r->Folder_id;
        let depth = r->Folder_depth;
        let was_collapsed = r->Folder_collapsed;
        let rows = if was_collapsed {
            new.model_rows()
        } else {
            old.row_list()
        };
        let carried = if was_collapsed {
            rebuilt_selection(old.row_list(), old.selected as nat, rows)
        } else {
            old.selected as nat
        };
        &&& same_sources(new, old)
        &&& new.favorites@ == old.favorites@
        &&& new.collapsed@ == if was_collapsed {
            old.collapsed@.remove(id)
        } else {
            old.collapsed@
        }
        &&& new.search == old.search
        &&& new.status == old.status
        &&& new.help == old.help
        &&& new.done == old.done
        &&& new.row_list() == rows
        &&& new.selected == match find_key(rows, folder_key(id), 0) {
            Some(ix) => if ix + 1 < rows.len() && row_depth(rows[ix + 1int]) > depth {
                clamp(rows, ix + 1, 1, rows.len())
            } else {
                carried
            },
            None => carried,
        }
    })
}

/// Left arrow: an open folder is collapsed and the rows rebuilt; from any
/// other row the cursor steps out to the nearest shallower folder above,
/// unless a section header comes first.
pub open spec fn left_folder(old: App, new: App) -> bool {
    &&& (old.selected >= old.rows@.len() ==> unchanged(new, old))
    &&& (old.on_folder() && !old.current()->Folder_collapsed ==> {
        &&& same_sources(new, old)
        &&& new.favorites@ == old.favorites@
        &&& new.collapsed@ == old.collapsed@.insert(old.current()->Folder_id)
        &&& new.search == old.search
        &&& new.status == old.status
        &&& new.help == old.help
        &&& new.done == old.done
        &&& new.rebuilt_from(old)
    })
    &&& (old.selected < old.rows@.len() && !(old.on_folder()
        && !old.current()->Folder_collapsed) ==> {
        &&& same_settings(new, old)
        &&& new.rows@ == old.rows@
        &&& new.selected == match parent_above(
            old.row_list(),
            old.selected - 1,
            row_depth(old.current()),
        ) {
            Some(i) => i,
            None => old.selected as nat,
        }
    })
}

/// Space on a folder: it is collapsed if it was open and opened if it was
/// collapsed, and the rows rebuilt. Anywhere else nothing changes.
pub open spec fn toggled_folder(old: App, new: App) -> bool {
    &&& (!old.on_folder() ==> unchanged(new, old))
    &&& (old.on_folder() ==> {
        let id = old.current()->Folder_id;
        &&& same_sources(new, old)
        &&& new.favorites@ == old.favorites@
        &&& new.collapsed@ =~= if old.collapsed@.contains(id) {
            old.collapsed@.remove(id)
        } else {
            old.collapsed@.insert(id)
        }
        &&& new.search == old.search
        &&& new.status == old.status
        &&& new.help == old.help
        &&& new.done == old.done
        &&& new.rebuilt_from(old)
    })
}

/// `f` on a host: its alias is starred if it was not and unstarred if it
/// was, and the rows rebuilt; `save` says whether there is a place to write
/// the favorites, and without one the status line says so. Anywhere else
/// nothing changes and nothing is to be saved.
pub open spec fn toggled_favorite(old: App, new: App, save: bool) -> bool {
    &&& (!old.on_host() ==> unchanged(new, old) && !save)
    &&& (old.on_host() ==> {
        let alias = old.current()->Host_alias;
        &&& same_sources(new, old)
        &&& new.favorites@ =~= if old.favorites@.contains(alias) {
            old.favorites@.remove(alias)
        } else {
            old.favorites@.insert(alias)
        }
        &&& new.collapsed@ == old.collapsed@
        &&& new.search == old.search
        &&& save == old.favorites_path is Some
        &&& old.favorites_path is Some ==> new.status == old.status
        &&& old.favorites_path is None ==> opt_view(new.status) == Some(unsaved_message())
        &&& new.help == old.help
        &&& new.done == old.done
        &&& new.rebuilt_from(old)
    })
}

/// `/`: the search is set to an empty query and the rows rebuilt.
pub open spec fn search_started(old: App, new: App) -> bool {
    &&& (same_sources(new, old))
    &&& (new.favorites@ == old.favorites@)
    &&& (new.collapsed@ == old.collapsed@)
    &&& (opt_view(new.search) == Some(Seq::<char>::empty()))
    &&& (new.status == old.status)
    &&& (new.help == old.help)
    &&& (new.done == old.done)
    &&& (new.rebuilt_from(old))
}

/// Esc: the help closes if it is open; else a search is left and the rows
/// rebuilt; else the picker is done.
pub open spec fn cancelled(old: App, new: App) -> bool {
    &&& (old.help ==> same_sources(new, old) && new.favorites@
        == old.favorites@ && new.collapsed@ == old.collapsed@ && new.search
        == old.search && new.status == old.status && !new.help
        && new.done == old.done && new.rows@ == old.rows@
        && new.selected == old.selected)
    &&& (!old.help && old.search is Some ==> {
        &&& same_sources(new, old)
        &&& new.favorites@ == old.favorites@
        &&& new.collapsed@ == old.collapsed@
        &&& new.search is None
        &&& new.status == old.status
        &&& !new.help
        &&& new.done == old.done
        &&& new.rebuilt_from(old)
    })
    &&& (!old.help && old.search is None ==> {
        &&& same_sources(new, old)
        &&& new.favorites@ == old.favorites@
        &&& new.collapsed@ == old.collapsed@
        &&& new.search is None
        &&& new.status == old.status
        &&& !new.help
        &&& new.done
        &&& new.rows@ == old.rows@
        &&& new.selected == old.selected
    })
}

/// A typed character extends the query and the rows are rebuilt; without a
/// search nothing changes.
pub open spec fn search_pushed(old: App, new: App, c: char) -> bool {
    &&& (old.search is None ==> unchanged(new, old))
    &&& (old.search is Some ==> {
        &&& same_sources(new, old)
        &&& new.favorites@ == old.favorites@
        &&& new.collapsed@ == old.collapsed@
        &&& opt_view(new.search) == Some(old.search.unwrap()@.push(c))
        &&& new.status == old.status
        &&& new.help == old.help
        &&& new.done == old.done
        &&& new.rebuilt_from(old)
    })
}

/// Backspace drops the last character of the query, if any, and the rows
/// are rebuilt; without a search nothing changes.
pub open spec fn search_popped(old: App, new: App) -> bool {
    &&& (old.search is None ==> unchanged(new, old))
    &&& (old.search is Some ==> {
        let q = old.search.unwrap()@;
        &&& same_sources(new, old)
        &&& new.favorites@ == old.favorites@
        &&& new.collapsed@ == old.collapsed@
        &&& opt_view(new.search) == Some(
            if q.len() == 0 {
                q
            } else {
                q.drop_last()
            },
        )
        &&& new.status == old.status
        &&& new.help == old.help
        &&& new.done == old.done
        &&& new.rebuilt_from(old)
    })
}

impl App {
    /// The rows are those `self`'s own settings call for, and the cursor was
    /// carried over from `old` (see [`rebuilt_selection`]).
    pub open spec fn rebuilt_from(&self, old: App) -> bool {
        &&& self.row_list() == self.model_rows()
        &&& self.selected == rebuilt_selection(old.row_list(), old.selected as nat, self.model_rows())
    }

    /// The cursor is on a folder row.
    pub open spec fn on_folder(&self) -> bool {
        self.selected < self.rows@.len() && self.row_list()[self.selected as int] is Folder
    }

    /// The cursor is on a host row.
    pub open spec fn on_host(&self) -> bool {
        self.selected < self.rows@.len() && self.row_list()[self.selected as int] is Host
    }

    /// The row under the cursor.
    pub open spec fn current(&self) -> RowView {
        self.row_list()[self.selected as int]
    }

    /// Right arrow: open the folder under the cursor and step into it.
    pub fn enter_folder(&mut self)
        ensures
            entered_folder(*old(self), *final(self)),

    {
        if self.selected >= self.rows.len() {
            return;
        }
        assert(self.row_list()[self.selected as int] == self.rows@[self.selected as int]@);
        let (id, depth, was_collapsed) = match &self.rows[self.selected] {
            Row::Folder { id, depth, collapsed, .. } => (id.clone(), *depth, *collapsed),
            _ => {
                return;
            },
        };
        if was_collapsed {
            self.collapsed.remove(id.as_str());
            self.rebuild();
        }
        let mut key = String::from_str("f:");
        key.append(id.as_str());
        let index = match self.position_of(&key) {
            Some(i) => i,
            None => {
                return;
            },
        };
        let n = self.rows.len();
        if index + 1 < n && self.rows[index + 1].depth() > depth {
            assert(self.row_list()[index + 1] == self.rows@[index + 1]@);
            self.selected = index + 1;
            self.clamp_to_selectable(1);
        } else if index + 1 < n {
            assert(self.row_list()[index + 1] == self.rows@[index + 1]@);
        }
    }

    /// Left arrow: close an open folder, otherwise step out to the parent
    /// folder. A host under `★ Favorites` or `Ungrouped` has no parent folder:
    /// the search stops at the section header.
    pub fn leave_folder(&mut self)
        ensures
            left_folder(*old(self), *final(self)),

    {
        if self.selected >= self.rows.len() {
            return;
        }
        let ghost rows = self.row_list();
        assert(rows[self.selected as int] == self.rows@[self.selected as int]@);
        let open_id = match &self.rows[self.selected] {
            Row::Folder { id, collapsed, .. } => if !*collapsed {
                Some(id.clone())
            } else {
                None
            },
            _ => None,
        };
        if let Some(id) = open_id {
            self.collapsed.insert(id);
            self.rebuild();
            return;
        }
        let depth = self.rows[self.selected].depth();
        let mut index = self.selected;
        while index > 0
            invariant
                index <= self.selected < self.rows@.len(),
                rows == self.row_list(),
                self.selected == old(self).selected,
                same_settings(*self, *old(self)),
                self.rows@ == old(self).rows@,
                !(old(self).on_folder() && !old(self).current()->Folder_collapsed),
                depth as nat == row_depth(rows[self.selected as int]),
                parent_above(rows, index - 1, depth as nat) == parent_above(rows, self.selected - 1, depth as nat),
            decreases index,
        {
            index = index - 1;
            assert(rows[index as int] == self.rows@[index as int]@);
            match &self.rows[index] {
                Row::Section { .. } => {
                    return;
                },
                Row::Folder { depth: above, .. } => {
                    if *above < depth {
                        self.selected = index;
                        return;
                    }
                },
                _ => {},
            }
        }
    }

    /// Space: collapse an open folder, open a collapsed one.
    pub fn toggle_folder(&mut self)
        ensures
            toggled_folder(*old(self), *final(self)),

    {
        if self.selected >= self.rows.len() {
            return;
        }
        assert(self.row_list()[self.selected as int] == self.rows@[self.selected as int]@);
        let id = match &self.rows[self.selected] {
            Row::Folder { id, .. } => id.clone(),
            _ => {
                return;
            },
        };
        if !self.collapsed.remove(id.as_str()) {
            self.collapsed.insert(id);
        }
        self.rebuild();
    }

    /// `f`: star or unstar the host under the cursor. Returns whether the
    /// favorites list is to be written to [`App::favorites_path`]; with no
    /// place to write it, the status line says so instead.
    pub fn toggle_favorite(&mut self) -> (save: bool)
        ensures
            toggled_favorite(*old(self), *final(self), save),

    {
        let alias = match self.selected_alias() {
            Some(a) => String::from_str(a),
            None => {
                return false;
            },
        };
        if !self.favorites.remove(alias.as_str()) {
            self.favorites.insert(alias);
        }
        let save = match &self.favorites_path {
            Some(_) => true,
            None => {
                self.status = Some(String::from_str("no plugin state dir; favorites are not saved"));
                false
            },
        };
        self.rebuild();
        save
    }

    /// The starred aliases, each once, for writing out.
    pub fn favorites_list(&self) -> (out: Vec<String>)
        ensures
            string_views(out@) == self.favorites.members(),
            string_views(out@).to_set() == self.favorites@,
            string_views(out@).no_duplicates(),
    {
        self.favorites.to_vec()
    }

    /// The end of a connect: reaching a session closes the picker, which
    /// lands on the session's tab; an error (such as `ui_busy`) keeps the
    /// picker open and shows on the status line.
    pub fn connected(&mut self, outcome: Result<(), String>)
        ensures
            final(self).rows@ == old(self).rows@,
            final(self).selected == old(self).selected,
            same_sources(*final(self), *old(self)),
            final(self).favorites@ == old(self).favorites@,
            final(self).collapsed@ == old(self).collapsed@,
            final(self).search == old(self).search,
            final(self).help == old(self).help,
            match outcome {
                Ok(_) => final(self).done && final(self).status == old(self).status,
                Err(e) => final(self).done == old(self).done && opt_view(final(self).status) == Some(e@),
            },
            old(self).settled() ==> final(self).settled(),
    {
        match outcome {
            Ok(_) => {
                self.done = true;
            },
            Err(e) => {
                self.status = Some(e);
            },
        }
    }

    /// `/`: start an empty search.
    pub fn start_search(&mut self)
        ensures
            search_started(*old(self), *final(self)),

    {
        self.search = Some(String::new());
        self.rebuild();
    }

    /// Esc is two-stage: close the help, else leave search, and close the
    /// popup only when there is no search to leave.
    pub fn cancel(&mut self)
        ensures
            cancelled(*old(self), *final(self)),

    {
        if self.help {
            self.help = false;
        } else if self.search.is_some() {
            self.search = None;
            self.rebuild();
        } else {
            self.done = true;
        }
    }

    /// A character typed while searching extends the query.
    pub fn search_push(&mut self, c: char)
        ensures
            search_pushed(*old(self), *final(self), c),

    {
        let mut query = match &self.search {
            Some(q) => q.clone(),
            None => {
                return;
            },
        };
        query.push(c);
        self.search = Some(query);
        self.rebuild();
    }

    /// Backspace while searching drops the last character of the query.
    pub fn search_pop(&mut self)
        ensures
            search_popped(*old(self), *final(self)),

    {
        let mut query = match &self.search {
            Some(q) => q.clone(),
            None => {
                return;
            },
        };
        query.pop();
        self.search = Some(query);
        self.rebuild();
    }
}

/// The first row with identity `k`, when there is one.
pub open spec fn first_with_key(rows: Seq<RowView>, k: Seq<char>) -> nat {
    match find_key(rows, k, 0) {
        Some(i) => i,
        None => 0,
    }
}

/// A rebuild onto `rows` from a cursor on a row with identity `k` lands on
/// the first row of `rows` with that identity, when it is selectable.
proof fn lemma_rebuild_lands(old_rows: Seq<RowView>, s: nat, rows: Seq<RowView>, k: Seq<char>, j: int)
    requires
        s < old_rows.len(),
        row_key(old_rows[s as int]) == Some(k),
        0 <= j < rows.len(),
        row_key(rows[j]) == Some(k),
        forall|i: int| 0 <= i < rows.len() && row_key(#[trigger] rows[i]) == Some(k) ==> selectable(rows[i]),
    ensures
        rebuilt_selection(old_rows, s, rows) == first_with_key(rows, k),
        first_with_key(rows, k) < rows.len(),
        row_key(rows[first_with_key(rows, k) as int]) == Some(k),
{
    crate::tree::lemma_find_key_found(rows, k, 0, j);
    crate::tree::lemma_find_key(rows, k, 0);
    crate::tree::lemma_rebuilt_cursor(old_rows, s, rows);
}

/// Starring a host from its place in the tree (or among search results) and
/// starring it again leaves the favorites and the rows as they were, and the
/// cursor on the first row of that host: where it was, when the cursor was
/// on the first such row, which it always is when no two hosts share an
/// alias (as the host list never has two).
pub proof fn lemma_favorite_twice(a: App, b: App, c: App, s1: bool, s2: bool)
    requires
        toggled_favorite(a, b, s1),
        toggled_favorite(b, c, s2),
        a.row_list() == a.model_rows(),
        a.on_host(),
        !a.current()->Host_shortcut,
    ensures
        c.favorites@ == a.favorites@,
        c.row_list() == a.row_list(),
        c.selected == first_with_key(a.row_list(), "h:"@ + a.current()->Host_alias),
        a.selected == first_with_key(a.row_list(), "h:"@ + a.current()->Host_alias) ==> c.selected == a.selected,
        crate::ssh_config::distinct_aliases(a.host_list()) ==> c.selected == a.selected,
        c.on_host(),
        c.current()->Host_alias == a.current()->Host_alias,
{
    lemma_starring_keeps_cursor(a, b, s1);
    let x = a.current()->Host_alias;
    assert(c.favorites@ =~= a.favorites@);
    assert(c.row_list() == a.row_list());
    let k = "h:"@ + x;
    assert(row_key(b.current()) == Some(k));
    assert(row_key(a.row_list()[a.selected as int]) == Some(k));
    lemma_rebuild_lands(b.row_list(), b.selected as nat, a.row_list(), k, a.selected as int);
    let i = first_with_key(a.row_list(), k);
    crate::tree::lemma_host_key(a.row_list()[i as int], x);
    if crate::ssh_config::distinct_aliases(a.host_list()) {
        crate::tree::lemma_plain_rows_unique(a.host_list(), a.favorites@, a.collapsed@, opt_view(a.search));
        crate::tree::lemma_one_place(a.row_list(), i as int, a.selected as int);
    }
}

/// Toggling a folder and toggling it again leaves the collapsed folders and
/// the rows as they were, and the cursor on the first row of that folder:
/// where it was, when the cursor was on the first such row, which it always
/// is when no section path holds the id separator `U+0001`.
pub proof fn lemma_folder_twice(a: App, b: App, c: App)
    requires
        toggled_folder(a, b),
        toggled_folder(b, c),
        a.row_list() == a.model_rows(),
        a.on_folder(),
    ensures
        c.collapsed@ == a.collapsed@,
        c.row_list() == a.row_list(),
        c.selected == first_with_key(a.row_list(), folder_key(a.current()->Folder_id)),
        a.selected == first_with_key(a.row_list(), folder_key(a.current()->Folder_id)) ==> c.selected == a.selected,
        crate::tree::paths_free(a.host_list()) ==> c.selected == a.selected,
{
    lemma_toggled_folder_stays(a, b);
    let x = a.current()->Folder_id;
    assert(c.collapsed@ =~= a.collapsed@);
    assert(c.row_list() == a.row_list());
    let k = folder_key(x);
    assert(row_key(b.current()) == Some(k));
    assert(row_key(a.row_list()[a.selected as int]) == Some(k));
    assert forall|i: int| 0 <= i < a.row_list().len() && row_key(#[trigger] a.row_list()[i]) == Some(k) implies selectable(
        a.row_list()[i],
    ) by {}
    lemma_rebuild_lands(b.row_list(), b.selected as nat, a.row_list(), k, a.selected as int);
    if crate::tree::paths_free(a.host_list()) {
        match a.search {
            Some(q) => {
                crate::tree::lemma_host_rows_are_hosts(a.host_list(), a.favorites@, Pick::Matching(q@), 0);
                assert(a.row_list()[a.selected as int] is Host);
            },
            None => {},
        }
        crate::tree::lemma_folder_rows_unique(a.host_list(), a.favorites@, a.collapsed@);
        let i = first_with_key(a.row_list(), k);
        crate::tree::lemma_folder_key(a.row_list()[i as int], x);
        crate::tree::lemma_one_folder_row(a.row_list(), i as int, a.selected as int);
    }
}


/// Esc is two-stage: from a search, the first press leaves the search and
/// keeps the picker open; only the second closes it.
pub proof fn lemma_escape_leaves_search_first(a: App, b: App, c: App)
    requires
        cancelled(a, b),
        cancelled(b, c),
        !a.help,
        a.search is Some,
        !a.done,
    ensures
        !b.done,
        b.search is None,
        c.done,
{
}


/// Starring a host from its folder (or from the search results) keeps the
/// cursor on that host's row, now marked the other way: the `★ Favorites`
/// copy does not take it.
pub proof fn lemma_starring_keeps_cursor(a: App, b: App, save: bool)
    requires
        toggled_favorite(a, b, save),
        a.row_list() == a.model_rows(),
        a.on_host(),
        !a.current()->Host_shortcut,
    ensures
        b.on_host(),
        b.current()->Host_alias == a.current()->Host_alias,
        !b.current()->Host_shortcut,
        b.current()->Host_favorite == !a.current()->Host_favorite,
{
    crate::tree::lemma_rows_marks(a.host_list(), a.favorites@, a.collapsed@, opt_view(a.search));
    crate::tree::lemma_rows_marks(b.host_list(), b.favorites@, b.collapsed@, opt_view(b.search));
    assert(a.row_list()[a.selected as int] is Host);
    crate::tree::lemma_stars_keep_cursor(
        a.host_list(),
        a.favorites@,
        b.favorites@,
        a.collapsed@,
        opt_view(a.search),
        a.selected as nat,
    );
}


impl App {
    /// The rows are those the settings call for, and the cursor is placed on
    /// them (see [`placed`]).
    pub open spec fn settled(&self) -> bool {
        &&& self.row_list() == self.model_rows()
        &&& placed(self.row_list(), self.selected as nat)
    }
}

/// A picker just built, or just reloaded, is settled.
pub proof fn lemma_rebuilt_settled(a: App, old_rows: Seq<RowView>, old_selected: nat)
    requires
        a.row_list() == a.model_rows(),
        a.selected == rebuilt_selection(old_rows, old_selected, a.model_rows()),
    ensures
        a.settled(),
{
    lemma_rebuilt_placed(old_rows, old_selected, a.model_rows());
}

/// Settings that the rows do not depend on leave a settled picker settled.
pub proof fn lemma_same_rows_settled(a: App, b: App)
    requires
        a.settled(),
        b.hosts@ == a.hosts@,
        b.favorites@ == a.favorites@,
        b.collapsed@ == a.collapsed@,
        b.search == a.search,
        b.rows@ == a.rows@,
        b.selected == a.selected,
    ensures
        b.settled(),
{
}

/// Each change the picker makes keeps it settled: the rows always show the
/// current settings, and the cursor is always on a row, and never on a
/// section header while there is anything else to be on.
pub proof fn lemma_changes_keep_settled(a: App, b: App, delta: isize, c: char, save: bool)
    requires
        a.settled(),
        moved(a, b, delta) || entered_folder(a, b) || left_folder(a, b) || toggled_folder(a, b)
            || toggled_favorite(a, b, save) || search_started(a, b) || cancelled(a, b) || search_pushed(a, b, c)
            || search_popped(a, b),
    ensures
        b.settled(),
{
    if moved(a, b, delta) {
        if a.rows@.len() > 0 {
            let m = a.rows@.len() as int;
            let start = (((a.selected as isize) + delta) % m) as nat;
            assert(0 <= ((a.selected as isize) + delta) % m < m) by {
                vstd::arithmetic::div_mod::lemma_mod_bound((a.selected as isize) + delta, m);
            }
            lemma_clamp_placed(a.row_list(), start, if delta < 0 { -1 } else { 1 });
        }
    } else if entered_folder(a, b) {
        if a.on_folder() {
            let r = a.current();
            let was_collapsed = r->Folder_collapsed;
            let rows = b.row_list();
            if was_collapsed {
                lemma_rebuilt_placed(a.row_list(), a.selected as nat, rows);
            }
            match find_key(rows, folder_key(r->Folder_id), 0) {
                Some(ix) => {
                    if ix + 1 < rows.len() && crate::tree::row_depth(rows[ix + 1int]) > r->Folder_depth {
                        lemma_clamp_placed(rows, ix + 1, 1);
                    }
                },
                None => {},
            }
        }
    } else if left_folder(a, b) {
        if a.selected < a.rows@.len() && !(a.on_folder() && !a.current()->Folder_collapsed) {
            lemma_parent_above(a.row_list(), a.selected - 1, crate::tree::row_depth(a.current()));
        } else if a.selected < a.rows@.len() {
            lemma_rebuilt_placed(a.row_list(), a.selected as nat, b.row_list());
        }
    } else {
        lemma_rebuilt_placed(a.row_list(), a.selected as nat, b.model_rows());
    }
}


/// Typing narrows a search, never widens it: the rows after a character is
/// typed are the earlier rows that the longer query still finds.
pub proof fn lemma_search_push_narrows(a: App, b: App, c: char)
    requires
        search_pushed(a, b, c),
        a.search is Some,
        a.row_list() == a.model_rows(),
    ensures
        b.row_list() == crate::tree::still_matching(a.row_list(), a.search.unwrap()@.push(c)),
{
    crate::tree::lemma_typing_narrows(a.host_list(), a.favorites@, a.search.unwrap()@, c);
}


/// A settled picker's cursor rests on a row that is not a section header
/// whenever there are rows; and outside search there are rows exactly when
/// there are hosts.
pub proof fn lemma_settled_cursor_rests(a: App)
    requires
        a.settled(),
    ensures
        a.rows@.len() > 0 ==> a.selected < a.rows@.len() && selectable(a.current()),
        a.search is None ==> (a.rows@.len() == 0 <==> a.hosts@.len() == 0),
{
    crate::tree::lemma_rows_have_target(a.host_list(), a.favorites@, a.collapsed@, opt_view(a.search));
    crate::tree::lemma_tree_empty_iff_no_hosts(a.host_list(), a.favorites@, a.collapsed@);
    assert(a.row_list().len() == a.rows@.len());
    assert(a.host_list().len() == a.hosts@.len());
}


/// Down and then up returns the cursor to its row: down stops at the next
/// row that is not a section header (wrapping around), with only headers
/// between, and up walks back over them. The rows do not change.
pub proof fn lemma_down_then_up_returns(a: App, b: App, c: App)
    requires
        moved(a, b, 1isize),
        moved(b, c, -1isize),
        a.rows@.len() <= isize::MAX,
        a.selected < a.rows@.len(),
        selectable(a.current()),
    ensures
        b.rows@ == a.rows@,
        c.rows@ == a.rows@,
        c.selected == a.selected,
        ({
            let m = a.rows@.len() as int;
            let k = crate::tree::steps_to_stop(a.row_list(), a.selected as int, 1, 1);
            &&& 1 <= k <= m
            &&& b.selected == (a.selected + k) % m
            &&& selectable(b.current())
            &&& forall|j: int| 1 <= j < k ==> !selectable(#[trigger] a.row_list()[(a.selected + j) % m])
        }),
{
    let m = a.rows@.len() as int;
    assert(a.row_list().len() == m);
    assert((a.selected as isize) as int == a.selected as int);
    crate::tree::lemma_down_then_up(a.row_list(), a.selected as nat);
    let down = b.selected;
    assert(down < m);
    assert((down as isize) as int == down as int);
}


impl App {
    /// The cursor rests on a row that is not a section header, or there are
    /// no rows.
    pub open spec fn resting(&self) -> bool {
        self.rows@.len() == 0 || (self.selected < self.rows@.len() && selectable(self.current()))
    }
}

/// Rows rebuilt from the settings leave the cursor resting.
proof fn lemma_rebuilt_resting(a: App, b: App)
    requires
        b.rebuilt_from(a),
    ensures
        b.resting(),
{
    crate::tree::lemma_rows_have_target(b.host_list(), b.favorites@, b.collapsed@, opt_view(b.search));
    lemma_rebuilt_placed(a.row_list(), a.selected as nat, b.model_rows());
    assert(b.row_list().len() == b.rows@.len());
}

/// Each change keeps the cursor resting on a row that is not a section
/// header, from any state where it already rests: whatever the rows are,
/// moving, entering and leaving folders never put it on a header, and every
/// change that rebuilds the rows puts it on a row that is not one.
pub proof fn lemma_changes_keep_resting(a: App, b: App, delta: isize, c: char, save: bool)
    requires
        a.resting(),
        moved(a, b, delta) || entered_folder(a, b) || left_folder(a, b) || toggled_folder(a, b)
            || toggled_favorite(a, b, save) || search_started(a, b) || cancelled(a, b) || search_pushed(a, b, c)
            || search_popped(a, b),
    ensures
        b.resting(),
{
    assert(a.row_list().len() == a.rows@.len());
    assert(b.row_list().len() == b.rows@.len());
    if moved(a, b, delta) {
        if a.rows@.len() > 0 {
            let m = a.rows@.len() as int;
            let start = (((a.selected as isize) + delta) % m) as nat;
            assert(0 <= ((a.selected as isize) + delta) % m < m) by {
                vstd::arithmetic::div_mod::lemma_mod_bound((a.selected as isize) + delta, m);
            }
            lemma_clamp_placed(a.row_list(), start, if delta < 0 { -1 } else { 1 });
            assert(selectable(a.row_list()[a.selected as int]));
        }
    } else if entered_folder(a, b) {
        if a.on_folder() {
            let r = a.current();
            let rows = b.row_list();
            if r->Folder_collapsed {
                crate::tree::lemma_rows_have_target(b.host_list(), b.favorites@, b.collapsed@, opt_view(b.search));
                lemma_rebuilt_placed(a.row_list(), a.selected as nat, rows);
            } else {
                assert(selectable(rows[a.selected as int]));
            }
            match find_key(rows, folder_key(r->Folder_id), 0) {
                Some(ix) => {
                    if ix + 1 < rows.len() && crate::tree::row_depth(rows[ix + 1int]) > r->Folder_depth {
                        lemma_clamp_placed(rows, ix + 1, 1);
                    }
                },
                None => {},
            }
        }
    } else if left_folder(a, b) {
        if a.selected < a.rows@.len() && !(a.on_folder() && !a.current()->Folder_collapsed) {
            lemma_parent_above(a.row_list(), a.selected - 1, crate::tree::row_depth(a.current()));
        } else if a.selected < a.rows@.len() {
            lemma_rebuilt_resting(a, b);
        }
    } else if toggled_folder(a, b) {
        if a.on_folder() {
            lemma_rebuilt_resting(a, b);
        }
    } else if toggled_favorite(a, b, save) {
        if a.on_host() {
            lemma_rebuilt_resting(a, b);
        }
    } else if search_started(a, b) {
        lemma_rebuilt_resting(a, b);
    } else if cancelled(a, b) {
        if !a.help && a.search is Some {
            lemma_rebuilt_resting(a, b);
        }
    } else if search_pushed(a, b, c) {
        if a.search is Some {
            lemma_rebuilt_resting(a, b);
        }
    } else {
        if a.search is Some {
            lemma_rebuilt_resting(a, b);
        }
    }
}


/// Toggling a folder keeps the cursor on that folder, now shown the other
/// way: collapsed if it was open, open if it was collapsed.
pub proof fn lemma_toggled_folder_stays(a: App, b: App)
    requires
        toggled_folder(a, b),
        a.row_list() == a.model_rows(),
        a.on_folder(),
    ensures
        b.on_folder(),
        b.current()->Folder_id == a.current()->Folder_id,
        b.current()->Folder_collapsed == !a.current()->Folder_collapsed,
{
    let x = a.current()->Folder_id;
    let k = folder_key(x);
    let hs = a.host_list();
    match a.search {
        Some(q) => {
            crate::tree::lemma_host_rows_are_hosts(hs, a.favorites@, Pick::Matching(q@), 0);
            assert(a.row_list()[a.selected as int] is Host);
        },
        None => {},
    }
    assert(a.search is None);
    let c1 = a.collapsed@;
    let c2 = b.collapsed@;
    assert(crate::tree::agree_except(c1, c2, x));
    crate::tree::lemma_toggle_keeps_folder_row(hs, a.favorites@, c1, c2, a.selected as int);
    let rows2 = b.row_list();
    assert(rows2 == tree_rows(hs, a.favorites@, c2));
    let j = choose|j: int| 0 <= j < rows2.len() && #[trigger] rows2[j] is Folder && rows2[j]->Folder_id == x;
    assert(row_key(rows2[j]) == Some(k));
    assert(row_key(a.row_list()[a.selected as int]) == Some(k));
    assert forall|i: int| 0 <= i < rows2.len() && row_key(#[trigger] rows2[i]) == Some(k) implies selectable(rows2[i]) by {
        crate::tree::lemma_folder_key(rows2[i], x);
    }
    lemma_rebuild_lands(a.row_list(), a.selected as nat, rows2, k, j);
    let i = first_with_key(rows2, k);
    crate::tree::lemma_folder_key(rows2[i as int], x);
    assert(c2.contains(x) == !c1.contains(x));
}

} // verus!
