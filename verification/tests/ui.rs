use herdr_hosts::app::{App, Row};
use herdr_hosts::ssh_config::Host;
use herdr_hosts::ui::{help_area, help_lines, row_pieces, status_line, Area, Emphasis};

fn texts(row: &Row) -> Vec<String> {
    row_pieces(row).into_iter().map(|p| p.text).collect()
}

#[test]
fn rows_are_drawn_with_markers_and_indentation() {
    assert_eq!(texts(&Row::Section { label: "Ungrouped".into() }), [" Ungrouped"]);
    assert_eq!(
        texts(&Row::Folder { id: "a".into(), name: "Work".into(), depth: 1, collapsed: true }),
        ["   \u{25b8} Work"]
    );
    assert_eq!(
        texts(&Row::Folder { id: "a".into(), name: "Work".into(), depth: 0, collapsed: false }),
        [" \u{25be} Work"]
    );
    let host = Row::Host {
        alias: "nas".into(),
        depth: 2,
        favorite: true,
        shortcut: false,
        context: Some("Home".into()),
        note: Some("backup box".into()),
    };
    assert_eq!(
        texts(&host),
        ["     \u{25cf} ", "nas", " \u{2605}", "  Home", "  \u{2014} backup box"]
    );
    let pieces = row_pieces(&host);
    assert!(matches!(pieces[3].emphasis, Emphasis::Dim));
    assert!(matches!(pieces[0].emphasis, Emphasis::Plain));
}

#[test]
fn the_status_line_counts_hosts_and_shows_the_query() {
    let one = App::new(
        vec![Host { alias: "a".into(), folder: vec![], note: None }],
        vec![],
        None,
        None,
    );
    assert_eq!(status_line(&one).text, " 1 host   ? help");
    let hosts: Vec<Host> =
        (0..12).map(|i| Host { alias: format!("h{i}"), folder: vec![], note: None }).collect();
    let mut many = App::new(hosts, vec![], None, None);
    assert_eq!(status_line(&many).text, " 12 hosts   ? help");
    many.start_search();
    many.search_push('h');
    assert_eq!(status_line(&many).text, " /h\u{258f}");
    many.status = Some("herdr: ui_busy".into());
    let line = status_line(&many);
    assert_eq!(line.text, " herdr: ui_busy");
    assert!(matches!(line.emphasis, Emphasis::Alert));
}

#[test]
fn the_help_box_is_centred_and_clipped() {
    assert_eq!(help_lines().len(), 13);
    let a = help_area(&Area { x: 0, y: 0, width: 80, height: 24 });
    assert_eq!((a.x, a.y, a.width, a.height), (12, 4, 56, 15));
    let small = help_area(&Area { x: 2, y: 1, width: 30, height: 10 });
    assert_eq!((small.x, small.y, small.width, small.height), (2, 1, 30, 10));
}
