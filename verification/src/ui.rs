//! What the picker shows. No colours are chosen here: the popup borrows
//! whatever palette the terminal theme provides, and uses attributes for
//! emphasis. Drawing the pieces is the terminal front end's part.

use vstd::prelude::*;
use crate::app::{App, Row};
use crate::ssh_config::opt_view;
use crate::text::{decimal, push_decimal};
use crate::tree::RowView;

verus! {

/// How a piece of text is set off.
pub enum Emphasis {
    Plain,
    Bold,
    Dim,
    /// Bold and reversed: an error or notice that must not be missed.
    Alert,
}

/// A run of text with one emphasis.
pub struct Piece {
    pub text: String,
    pub emphasis: Emphasis,
}

pub open spec fn pieces_view(ps: Seq<Piece>) -> Seq<(Seq<char>, Emphasis)> {
    ps.map_values(|p: Piece| (p.text@, p.emphasis))
}

/// Two spaces per level.
pub open spec fn indent(depth: nat) -> Seq<char>
    decreases depth,
{
    if depth == 0 {
        seq![]
    } else {
        indent((depth - 1) as nat) + seq![' ', ' ']
    }
}

/// The text of a row: headings bold with a marker for open (`▾`) or closed
/// (`▸`) folders, hosts with a dot, a star for favorites, and, dimmed, the
/// folder path while searching and the note.
pub open spec fn row_text(r: RowView) -> Seq<(Seq<char>, Emphasis)> {
    match r {
        RowView::Section { label } => seq![(seq![' '] + label, Emphasis::Bold)],
        RowView::Folder { name, depth, collapsed, .. } => seq![
            (seq![' '] + indent(depth) + seq![if collapsed { '\u{25b8}' } else { '\u{25be}' }, ' '] + name, Emphasis::Bold),
        ],
        RowView::Host { alias, depth, favorite, context, note, .. } => seq![
            (seq![' '] + indent(depth) + seq!['\u{25cf}', ' '], Emphasis::Plain),
            (alias, Emphasis::Plain),
        ] + (if favorite {
            seq![(seq![' ', '\u{2605}'], Emphasis::Plain)]
        } else {
            seq![]
        }) + (match context {
            Some(c) => seq![(seq![' ', ' '] + c, Emphasis::Dim)],
            None => seq![],
        }) + (match note {
            Some(n) => seq![(seq![' ', ' ', '\u{2014}', ' '] + n, Emphasis::Dim)],
            None => seq![],
        }),
    }
}

fn push_indent(s: &mut String, depth: usize)
    ensures
        final(s)@ == old(s)@ + indent(depth as nat),
{
    let mut i: usize = 0;
    while i < depth
        invariant
            i <= depth,
            s@ == old(s)@ + indent(i as nat),
        decreases depth - i,
    {
        s.push(' ');
        s.push(' ');
        i = i + 1;
    }
}

fn piece(text: String, emphasis: Emphasis) -> (out: Piece)
    ensures
        out.text@ == text@,
        out.emphasis == emphasis,
{
    Piece { text, emphasis }
}

/// The pieces of text a row is drawn with (see [`row_text`]).
pub fn row_pieces(row: &Row) -> (out: Vec<Piece>)
    ensures
        pieces_view(out@) == row_text(row@),
{
    let mut out: Vec<Piece> = Vec::new();
    match row {
        Row::Section { label } => {
            let mut t = String::new();
            t.push(' ');
            t.append(label.as_str());
            out.push(piece(t, Emphasis::Bold));
            assert(pieces_view(out@) =~= row_text(row@));
        },
        Row::Folder { name, depth, collapsed, .. } => {
            let mut t = String::new();
            t.push(' ');
            push_indent(&mut t, *depth);
            t.push(if *collapsed { '\u{25b8}' } else { '\u{25be}' });
            t.push(' ');
            t.append(name.as_str());
            assert(t@ =~= seq![' '] + indent(*depth as nat) + seq![if *collapsed { '\u{25b8}' } else { '\u{25be}' }, ' '] + name@);
            out.push(piece(t, Emphasis::Bold));
            assert(pieces_view(out@) =~= row_text(row@));
        },
        Row::Host { alias, depth, favorite, context, note, .. } => {
            let mut lead = String::new();
            lead.push(' ');
            push_indent(&mut lead, *depth);
            lead.push('\u{25cf}');
            lead.push(' ');
            assert(lead@ =~= seq![' '] + indent(*depth as nat) + seq!['\u{25cf}', ' ']);
            out.push(piece(lead, Emphasis::Plain));
            out.push(piece(alias.clone(), Emphasis::Plain));
            let ghost base = pieces_view(out@);
            if *favorite {
                let mut star = String::new();
                star.push(' ');
                star.push('\u{2605}');
                assert(star@ =~= seq![' ', '\u{2605}']);
                out.push(piece(star, Emphasis::Plain));
            }
            let ghost with_star = pieces_view(out@);
            match context {
                Some(c) => {
                    let mut t = String::new();
                    t.push(' ');
                    t.push(' ');
                    t.append(c.as_str());
                    assert(t@ =~= seq![' ', ' '] + c@);
                    out.push(piece(t, Emphasis::Dim));
                },
                None => {},
            }
            let ghost with_context = pieces_view(out@);
            match note {
                Some(n) => {
                    let mut t = String::new();
                    t.push(' ');
                    t.push(' ');
                    t.push('\u{2014}');
                    t.push(' ');
                    t.append(n.as_str());
                    assert(t@ =~= seq![' ', ' ', '\u{2014}', ' '] + n@);
                    out.push(piece(t, Emphasis::Dim));
                },
                None => {},
            }
            assert(pieces_view(out@) =~= row_text(row@));
        },
    }
    out
}

/// The status line: a message outranks the search box, which outranks the
/// host count (`1 host`, `2 hosts`) and the help hint.
pub open spec fn status_text(
    status: Option<Seq<char>>,
    search: Option<Seq<char>>,
    hosts: nat,
) -> (Seq<char>, Emphasis) {
    match status {
        Some(s) => (seq![' '] + s, Emphasis::Alert),
        None => match search {
            Some(q) => (seq![' ', '/'] + q + seq!['\u{258f}'], Emphasis::Dim),
            None => (
                seq![' '] + decimal(hosts) + " host"@ + (if hosts == 1 {
                    Seq::<char>::empty()
                } else {
                    seq!['s']
                }) + "   ? help"@,
                Emphasis::Dim,
            ),
        },
    }
}

/// The status line for the picker's state (see [`status_text`]).
pub fn status_line(app: &App) -> (out: Piece)
    ensures
        (out.text@, out.emphasis) == status_text(
            opt_view(app.status),
            opt_view(app.search),
            app.host_count_spec(),
        ),
{
    match &app.status {
        Some(s) => {
            let mut t = String::new();
            t.push(' ');
            t.append(s.as_str());
            return piece(t, Emphasis::Alert);
        },
        None => {},
    }
    match &app.search {
        Some(q) => {
            let mut t = String::new();
            t.push(' ');
            t.push('/');
            t.append(q.as_str());
            t.push('\u{258f}');
            piece(t, Emphasis::Dim)
        },
        None => {
            let hosts = app.host_count();
            let mut t = String::new();
            t.push(' ');
            push_decimal(&mut t, hosts);
            t.append(" host");
            if hosts != 1 {
                t.push('s');
            }
            t.append("   ? help");
            piece(t, Emphasis::Dim)
        },
    }
}

/// The key help, one line per key.
pub open spec fn help_text() -> Seq<Seq<char>> {
    seq![
        "  \u{2191} / k      previous"@,
        "  \u{2193} / j      next"@,
        "  \u{2192} / l      open folder, step in"@,
        "  \u{2190} / h      close folder, step out"@,
        "  space      expand / collapse"@,
        "  enter      connect, or return to an open session"@,
        "  shift+\u{21b5}    always open a new tab for this host"@,
        "  /          search (alias, folder, note)"@,
        "  esc        leave search, then close"@,
        "  f          toggle favorite"@,
        "  r          reload ~/.ssh/config"@,
        "  ?          help"@,
        "  q          quit"@,
    ]
}

/// The key help, one line per key (see [`help_text`]).
pub fn help_lines() -> (out: Vec<&'static str>)
    ensures
        out@.map_values(|l: &str| l@) == help_text(),
{
    let out = vec![
        "  \u{2191} / k      previous",
        "  \u{2193} / j      next",
        "  \u{2192} / l      open folder, step in",
        "  \u{2190} / h      close folder, step out",
        "  space      expand / collapse",
        "  enter      connect, or return to an open session",
        "  shift+\u{21b5}    always open a new tab for this host",
        "  /          search (alias, folder, note)",
        "  esc        leave search, then close",
        "  f          toggle favorite",
        "  r          reload ~/.ssh/config",
        "  ?          help",
        "  q          quit",
    ];
    assert(out@.map_values(|l: &str| l@) =~= help_text());
    out
}

/// A rectangle of terminal cells.
pub struct Area {
    pub x: u16,
    pub y: u16,
    pub width: u16,
    pub height: u16,
}

pub open spec fn min(a: int, b: int) -> int {
    if a < b {
        a
    } else {
        b
    }
}

/// Where the help box goes: at most 56 cells wide and as tall as the help
/// plus its border, clipped to `area` and centred in it.
pub fn help_area(area: &Area) -> (out: Area)
    requires
        area.x + (area.width - min(area.width as int, 56)) / 2 <= u16::MAX,
        area.y + (area.height - min(area.height as int, 15)) / 2 <= u16::MAX,
    ensures
        out.width == min(area.width as int, 56),
        out.height == min(area.height as int, 15),
        out.x == area.x + (area.width - out.width) / 2,
        out.y == area.y + (area.height - out.height) / 2,
{
    let lines = help_lines();
    proof {
        assert(lines@.map_values(|l: &str| l@).len() == 13);
    }
    let tall: u16 = lines.len() as u16 + 2;
    let width = if area.width < 56 {
        area.width
    } else {
        56
    };
    let height = if area.height < tall {
        area.height
    } else {
        tall
    };
    Area {
        x: area.x + (area.width - width) / 2,
        y: area.y + (area.height - height) / 2,
        width,
        height,
    }
}

} // verus!
