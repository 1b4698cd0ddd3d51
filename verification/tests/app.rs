use herdr_hosts::app::{fuzzy_match, App, Row};
use herdr_hosts::ssh_config::Host;

fn host(alias: &str, folder: &[&str]) -> Host {
    Host {
        alias: alias.into(),
        folder: folder.iter().map(|s| s.to_string()).collect(),
        note: None,
    }
}

fn app(hosts: Vec<Host>, favorites: &[&str]) -> App {
    App::new(hosts, favorites.iter().map(|s| s.to_string()).collect(), None, None)
}

fn labels(app: &App) -> Vec<String> {
    app.rows
        .iter()
        .map(|r| match r {
            Row::Section { label } => label.clone(),
            Row::Folder { name, depth, .. } => format!("{}[{name}]", "  ".repeat(*depth)),
            Row::Host { alias, depth, .. } => format!("{}{alias}", "  ".repeat(*depth)),
        })
        .collect()
}

#[test]
fn nests_folders_from_section_paths_and_lists_unfiled_hosts() {
    let app = app(
        vec![
            host("dokku-prod", &["Personal", "Hetzner"]),
            host("nas", &["Personal"]),
            host("stray", &[]),
        ],
        &[],
    );
    assert_eq!(
        labels(&app),
        [
            "[Personal]",
            "  [Hetzner]",
            "    dokku-prod",
            "  nas",
            "Ungrouped",
            "  stray",
        ]
    );
}

#[test]
fn a_config_with_no_headings_is_one_flat_section() {
    let app = app(vec![host("a", &[]), host("b", &[])], &[]);
    assert_eq!(labels(&app), ["Ungrouped", "  a", "  b"]);
}

#[test]
fn favorites_appear_on_top_without_leaving_their_folder() {
    let app = app(vec![host("dokku-prod", &["Hetzner"])], &["dokku-prod"]);
    assert_eq!(
        labels(&app),
        ["\u{2605} Favorites", "  dokku-prod", "[Hetzner]", "  dokku-prod"]
    );
}

#[test]
fn toggling_a_favorite_updates_the_tree() {
    let mut app = app(vec![host("nas", &[])], &[]);
    assert_eq!(labels(&app), ["Ungrouped", "  nas"]);
    app.toggle_favorite();
    assert_eq!(labels(&app), ["\u{2605} Favorites", "  nas", "Ungrouped", "  nas"]);
    // No state dir in tests, so it warns rather than pretending it saved.
    assert!(app.status.is_some());
    app.toggle_favorite();
    assert_eq!(labels(&app), ["Ungrouped", "  nas"]);
}

#[test]
fn starring_a_host_keeps_the_cursor_in_its_folder() {
    let mut app = app(
        vec![host("dokku-prod", &["Hetzner"]), host("postgres", &["Hetzner"])],
        &[],
    );
    // [Hetzner] / dokku-prod / postgres
    app.selected = 2;
    assert_eq!(app.selected_alias(), Some("postgres"));

    app.toggle_favorite();
    // The ★ Favorites copy must not steal the cursor from the folder copy.
    assert_eq!(
        labels(&app),
        ["\u{2605} Favorites", "  postgres", "[Hetzner]", "  dokku-prod", "  postgres"]
    );
    assert_eq!(app.selected, 4, "cursor must stay on the in-folder row");
}

#[test]
fn left_from_a_section_host_does_not_jump_into_an_unrelated_folder() {
    let mut app = app(
        vec![host("dokku-prod", &["Hetzner"]), host("stray", &[])],
        &[],
    );
    // [Hetzner] / dokku-prod / Ungrouped / stray
    app.selected = 3;
    assert_eq!(app.selected_alias(), Some("stray"));
    app.leave_folder();
    assert_eq!(app.selected, 3, "an ungrouped host has no parent folder");

    // A host that really is in a folder still steps out.
    app.selected = 1;
    app.leave_folder();
    assert!(matches!(&app.rows[app.selected], Row::Folder { name, .. } if name == "Hetzner"));
}

#[test]
fn host_count_is_hosts_not_rows() {
    let mut app = app(vec![host("a", &["F"]), host("b", &["F"])], &["a"]);
    // ★ Favorites / a / [F] / a / b  — five rows, still two hosts.
    assert_eq!(app.rows.len(), 5);
    assert_eq!(app.host_count(), 2);

    app.selected = 2;
    app.toggle_folder(); // collapse [F]; its hosts leave the row list
    assert_eq!(app.host_count(), 2);

    assert_eq!(self::app(vec![host("only", &[])], &[]).host_count(), 1);
}

#[test]
fn navigation_skips_section_headers_and_wraps() {
    let mut app = app(vec![host("a", &[]), host("b", &[])], &["a"]);
    // ★ Favorites / a / Ungrouped / a / b
    assert_eq!(app.selected, 1);
    app.move_by(1);
    assert_eq!(app.selected_alias(), Some("a")); // header at index 2 skipped
    app.move_by(1);
    assert_eq!(app.selected_alias(), Some("b"));
    app.move_by(1);
    assert_eq!(app.selected, 1); // wraps past the leading header
    app.move_by(-1);
    assert_eq!(app.selected_alias(), Some("b"));
}

#[test]
fn expanding_a_folder_keeps_the_cursor_on_it() {
    let mut app = app(vec![host("x", &["Personal"]), host("y", &["Uni"])], &[]);
    app.selected = 2; // [Uni]
    assert!(matches!(&app.rows[app.selected], Row::Folder { name, .. } if name == "Uni"));
    app.toggle_folder();
    assert!(matches!(&app.rows[app.selected], Row::Folder { name, .. } if name == "Uni"));
    app.toggle_folder();
    assert!(matches!(&app.rows[app.selected], Row::Folder { name, .. } if name == "Uni"));
}

#[test]
fn right_opens_and_steps_into_a_folder_left_steps_back_out() {
    let mut app = app(vec![host("dokku-prod", &["Personal", "Hetzner"])], &[]);
    app.selected = 0; // [Personal]
    app.leave_folder(); // collapse
    assert_eq!(labels(&app), ["[Personal]"]);

    app.enter_folder(); // reopen and descend
    assert!(matches!(&app.rows[app.selected], Row::Folder { name, .. } if name == "Hetzner"));

    app.enter_folder(); // into the host
    assert_eq!(app.selected_alias(), Some("dokku-prod"));

    app.leave_folder();
    assert!(matches!(&app.rows[app.selected], Row::Folder { name, .. } if name == "Hetzner"));
    app.leave_folder(); // collapses Hetzner, cursor stays
    assert!(matches!(&app.rows[app.selected], Row::Folder { name, .. } if name == "Hetzner"));
    app.leave_folder(); // now steps out
    assert!(matches!(&app.rows[app.selected], Row::Folder { name, .. } if name == "Personal"));
}

#[test]
fn right_on_a_host_or_a_closed_empty_folder_does_nothing() {
    let mut app = app(vec![host("stray", &[])], &[]);
    let before = app.selected;
    app.enter_folder();
    assert_eq!(app.selected, before);
}

#[test]
fn search_is_flat_and_matches_alias_folder_and_note() {
    let mut app = app(
        vec![
            Host { alias: "gitlab".into(), folder: vec!["Prod".into()], note: None },
            Host { alias: "nas".into(), folder: vec![], note: Some("backup box".into()) },
            host("web-prod", &[]),
        ],
        &[],
    );

    app.start_search();
    for c in "prod".chars() {
        app.search_push(c);
    }
    // gitlab via its folder, web-prod via its alias; nas matches neither.
    assert_eq!(labels(&app), ["gitlab", "web-prod"]);

    app.cancel();
    app.start_search();
    for c in "backup".chars() {
        app.search_push(c);
    }
    assert_eq!(labels(&app), ["nas"]);
}

#[test]
fn escape_leaves_search_before_closing_the_popup() {
    let mut app = app(vec![host("a", &[])], &[]);
    app.start_search();
    app.cancel();
    assert!(app.search.is_none() && !app.done);
    app.cancel();
    assert!(app.done);
}

#[test]
fn fuzzy_matches_subsequences_case_insensitively() {
    assert!(fuzzy_match("dkp", "dokku-prod"));
    assert!(fuzzy_match("PROD", "web-prod"));
    assert!(fuzzy_match("", "anything"));
    assert!(!fuzzy_match("dpk", "dokku-prod"));
    assert!(!fuzzy_match("zz", "dokku-prod"));
}

#[test]
fn search_rows_carry_the_folder_path_as_context() {
    let mut app = app(vec![host("db", &["Work", "Prod"]), host("pi", &[])], &["pi"]);
    app.start_search();
    assert_eq!(labels(&app), ["db", "pi"]);
    match &app.rows[0] {
        Row::Host { context, favorite, depth, .. } => {
            assert_eq!(context.as_deref(), Some("Work / Prod"));
            assert!(!favorite);
            assert_eq!(*depth, 0);
        }
        _ => panic!("expected a host row"),
    }
    match &app.rows[1] {
        Row::Host { context, favorite, .. } => {
            assert_eq!(context, &None);
            assert!(favorite);
        }
        _ => panic!("expected a host row"),
    }
    app.search_pop();
    assert_eq!(app.search.as_deref(), Some(""));
    app.search_push('d');
    app.search_push('b');
    app.search_pop();
    assert_eq!(app.search.as_deref(), Some("d"));
}

#[test]
fn an_empty_config_says_so() {
    let app = app(vec![], &[]);
    assert_eq!(app.status.as_deref(), Some("no hosts found in ~/.ssh/config"));
    assert!(app.rows.is_empty());
    assert_eq!(app.selected_alias(), None);
}

#[test]
fn reload_replaces_hosts_and_favorites_and_clears_the_message() {
    let mut app = app(vec![], &[]);
    assert!(app.status.is_some());
    app.reload(vec![host("a", &[]), host("b", &["F"])], vec!["b".to_string()]);
    assert_eq!(app.status, None);
    assert_eq!(
        labels(&app),
        ["\u{2605} Favorites", "  b", "[F]", "  b", "Ungrouped", "  a"]
    );
    assert_eq!(app.favorites_list(), vec!["b".to_string()]);
}

#[test]
fn toggling_a_favorite_twice_restores_the_favorites() {
    let mut app = App::new(
        vec![host("a", &["F"]), host("b", &["F"])],
        vec![],
        Some("/state/favorites".to_string()),
        None,
    );
    app.selected = 1;
    assert!(app.toggle_favorite());
    assert_eq!(app.status, None, "with a place to save, nothing is reported");
    assert_eq!(app.favorites_list(), vec!["a".to_string()]);
    assert_eq!(app.selected_alias(), Some("a"));
    assert!(app.toggle_favorite());
    assert!(app.favorites_list().is_empty());
}

#[test]
fn the_cursor_wraps_backwards_past_a_leading_header() {
    let mut app = app(vec![host("a", &[]), host("b", &[])], &[]);
    // Ungrouped / a / b
    assert_eq!(app.selected, 1);
    app.move_by(-1);
    assert_eq!(app.selected_alias(), Some("b"));
    app.move_by(2);
    assert_eq!(app.selected_alias(), Some("a"));
}

#[test]
fn row_keys_tell_the_favorite_copy_apart() {
    let app = app(vec![host("a", &["F"])], &["a"]);
    let keys: Vec<Option<String>> = app.rows.iter().map(|r| r.key()).collect();
    assert_eq!(
        keys,
        vec![
            None,
            Some("\u{2605}:a".to_string()),
            Some("f:F".to_string()),
            Some("h:a".to_string())
        ]
    );
    assert_eq!(app.rows[3].depth(), 1);
    assert!(!app.rows[0].selectable());
    assert_eq!(app.rows[1].alias(), Some("a"));
}

#[test]
fn a_failed_connect_keeps_the_picker_open_with_the_error() {
    let mut app = app(vec![host("nas", &[])], &[]);
    app.connected(Err("herdr: ui_busy".to_string()));
    assert!(!app.done);
    assert_eq!(app.status.as_deref(), Some("herdr: ui_busy"));
    app.connected(Ok(()));
    assert!(app.done);
}

#[test]
fn the_tree_below_favorites_is_the_unstarred_tree() {
    let hosts = || vec![host("a", &["F"]), host("b", &["F", "G"]), host("c", &[])];
    let starred = app(hosts(), &["b", "c"]);
    let plain = app(hosts(), &[]);
    let below: Vec<String> = labels(&starred).into_iter().skip(3).collect();
    assert_eq!(labels(&starred)[..3], ["\u{2605} Favorites", "  b", "  c"]);
    assert_eq!(below, labels(&plain));
}

#[test]
fn matching_ignores_ascii_case_on_both_sides() {
    assert!(fuzzy_match("WEB", "web-prod"));
    assert!(fuzzy_match("web", "WEB-PROD"));
    assert!(fuzzy_match("dokku-prod", "dokku-prod"));
    assert!(fuzzy_match("dk", "my dokku box"));
}

#[test]
fn toggling_twice_restores_rows_and_cursor() {
    let mut app = app(vec![host("a", &["F"]), host("b", &["F", "G"]), host("c", &[])], &[]);
    let (rows, selected) = (labels(&app), app.selected);
    app.toggle_folder();
    app.toggle_folder();
    assert_eq!((labels(&app), app.selected), (rows.clone(), selected));
    app.selected = 2; // [G]
    let before = (labels(&app), app.selected);
    app.toggle_folder();
    app.toggle_folder();
    assert_eq!((labels(&app), app.selected), before);
    app.selected = 3; // b
    let before = (labels(&app), app.selected);
    app.toggle_favorite();
    app.toggle_favorite();
    assert_eq!((labels(&app), app.selected), before);
}

#[test]
fn typing_narrows_the_results() {
    let mut app = app(vec![host("web", &[]), host("wiki", &[]), host("nas", &[])], &[]);
    app.start_search();
    app.search_push('w');
    assert_eq!(labels(&app), ["web", "wiki"]);
    app.search_push('i');
    assert_eq!(labels(&app), ["wiki"]);
}

#[test]
fn a_toggled_folder_keeps_the_cursor_and_shows_its_new_state() {
    let mut app = app(vec![host("a", &["F"]), host("b", &["F", "G"]), host("c", &[])], &[]);
    app.selected = 1; // [G]
    app.toggle_folder();
    assert!(matches!(&app.rows[app.selected], Row::Folder { name, collapsed: true, .. } if name == "G"));
    app.toggle_folder();
    assert!(matches!(&app.rows[app.selected], Row::Folder { name, collapsed: false, .. } if name == "G"));
}

#[test]
fn stepping_out_of_a_host_reaches_the_row_of_its_folder_id() {
    let hosts = vec![host("a", &["F"]), host("b", &["F", "G"]), host("c", &[])];
    let ids: Vec<String> = hosts.iter().map(|h| h.folder_id()).collect();
    let mut app = app(hosts, &[]);
    // [F] / [G] / b / a / Ungrouped / c
    for (at, id) in [(2usize, &ids[1]), (3, &ids[0])] {
        app.selected = at;
        app.leave_folder();
        assert!(matches!(&app.rows[app.selected], Row::Folder { id: x, .. } if x == id));
    }
}
