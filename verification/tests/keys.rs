use herdr_hosts::app::{App, Row};
use herdr_hosts::keys::{on_key, session_step, Action, Key, SessionStep};
use herdr_hosts::launch::{ending, Ending};
use herdr_hosts::ssh_config::Host;

fn host(alias: &str, folder: &[&str]) -> Host {
    Host { alias: alias.into(), folder: folder.iter().map(|s| s.to_string()).collect(), note: None }
}

#[test]
fn keys_drive_the_picker() {
    let mut app = App::new(vec![host("web", &["Prod"]), host("nas", &[])], vec![], None, None);
    // [Prod] / web / Ungrouped / nas
    assert!(matches!(on_key(&mut app, Key::Char('j'), false, false), Action::Nothing));
    assert_eq!(app.selected_alias(), Some("web"));
    app.status = Some("stale".into());
    on_key(&mut app, Key::Down, false, false);
    assert_eq!(app.status, None, "any key clears a stale message");
    assert_eq!(app.selected_alias(), Some("nas"));
    match on_key(&mut app, Key::Enter, false, true) {
        Action::Connect { alias, force_new } => {
            assert_eq!(alias, "nas");
            assert!(force_new);
        }
        _ => panic!("enter on a host connects"),
    }
    on_key(&mut app, Key::Char('k'), false, false);
    on_key(&mut app, Key::Up, false, false);
    assert_eq!(app.selected, 0);
    // Enter on a folder collapses it instead of connecting.
    assert!(matches!(on_key(&mut app, Key::Enter, false, false), Action::Nothing));
    assert!(matches!(&app.rows[0], herdr_hosts::app::Row::Folder { collapsed: true, .. }));
    assert!(matches!(on_key(&mut app, Key::Char('r'), false, false), Action::Reload));
    assert!(matches!(on_key(&mut app, Key::Char('f'), false, false), Action::Nothing));
}

#[test]
fn typing_while_searching_is_query_text() {
    let mut app = App::new(vec![host("web", &[]), host("nas", &[])], vec![], None, None);
    on_key(&mut app, Key::Char('/'), false, false);
    for c in "qj".chars() {
        on_key(&mut app, Key::Char(c), false, false);
    }
    assert_eq!(app.search.as_deref(), Some("qj"));
    assert!(!app.done, "q is text while searching");
    on_key(&mut app, Key::Backspace, false, false);
    on_key(&mut app, Key::Backspace, false, false);
    on_key(&mut app, Key::Char('n'), false, false);
    assert_eq!(app.rows.len(), 1);
    on_key(&mut app, Key::Esc, false, false);
    assert!(app.search.is_none() && !app.done);
    on_key(&mut app, Key::Char('?'), false, false);
    assert!(app.help);
    on_key(&mut app, Key::Char('q'), false, false);
    assert!(!app.help && !app.done, "any key only closes the help");
    on_key(&mut app, Key::Char('c'), true, false);
    assert!(app.done);
}

#[test]
fn favorites_ask_to_be_saved_when_there_is_a_place() {
    let mut app = App::new(vec![host("web", &[])], vec![], Some("/s/favorites".into()), None);
    assert!(matches!(on_key(&mut app, Key::Char('f'), false, false), Action::SaveFavorites));
    assert_eq!(app.favorites_list(), vec!["web".to_string()]);
    assert!(matches!(on_key(&mut app, Key::Other, false, false), Action::Nothing));
}

#[test]
fn how_a_session_tab_ends() {
    assert!(matches!(ending(Some(255)), Ending::SshFailed));
    assert!(matches!(ending(None), Ending::Killed));
    assert!(matches!(ending(Some(0)), Ending::Exit(0)));
    assert!(matches!(ending(Some(130)), Ending::Exit(130)));
    assert!(matches!(ending(Some(256)), Ending::Exit(0)));
}

#[test]
fn the_cursor_never_rests_on_a_section_header() {
    let mut app = App::new(
        vec![host("a", &["F"]), host("b", &["F", "G"]), host("c", &[]), host("d", &[])],
        vec!["c".to_string()],
        None,
        None,
    );
    let keys = [
        Key::Down, Key::Down, Key::Up, Key::Up, Key::Up, Key::Char(' '), Key::Down, Key::Down,
        Key::Char('f'), Key::Left, Key::Right, Key::Right, Key::Down, Key::Char('/'), Key::Char('d'),
        Key::Esc, Key::Down, Key::Down, Key::Down, Key::Down, Key::Down,
    ];
    for key in keys {
        on_key(&mut app, key, false, false);
        assert!(app.selected < app.rows.len());
        assert!(!matches!(app.rows[app.selected], Row::Section { .. }));
    }
}

#[test]
fn starring_a_search_result_keeps_the_cursor_on_it() {
    let mut app = App::new(vec![host("web", &[]), host("nas", &[]), host("wiki", &[])], vec![], None, None);
    on_key(&mut app, Key::Char('/'), false, false);
    on_key(&mut app, Key::Char('w'), false, false);
    on_key(&mut app, Key::Down, false, false);
    assert_eq!(app.selected_alias(), Some("wiki"));
    on_key(&mut app, Key::Char('f'), true, false); // ctrl+f is not query text
    assert_eq!(app.selected_alias(), Some("wiki"));
    assert_eq!(app.favorites_list(), ["wiki"]);
}

#[test]
fn enter_returns_to_an_open_session_and_shift_enter_opens_a_new_one() {
    assert!(matches!(session_step(false, None), SessionStep::LookUp));
    assert!(matches!(session_step(false, Some(Some("w1:p2".to_string()))), SessionStep::Focus(p) if p == "w1:p2"));
    assert!(matches!(session_step(false, Some(None)), SessionStep::Open));
    assert!(matches!(session_step(true, None), SessionStep::Open));
    assert!(matches!(session_step(true, Some(Some("w1:p2".to_string()))), SessionStep::Open));
}

#[test]
fn down_then_up_returns_to_the_same_row() {
    let mut app = App::new(vec![host("a", &["F"]), host("b", &[]), host("c", &[])], vec!["c".to_string()], None, None);
    for start in 0..app.rows.len() {
        if matches!(app.rows[start], Row::Section { .. }) {
            continue;
        }
        app.selected = start;
        app.move_by(1);
        app.move_by(-1);
        assert_eq!(app.selected, start);
    }
}
