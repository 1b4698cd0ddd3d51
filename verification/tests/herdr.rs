use herdr_hosts::herdr::{
    after_open_ssh, error_code, focus_follow_ups, focus_pane_args, open_picker_args, open_ssh_args,
    pane_id_from_open_response, pane_id_with_tag, pane_list_args, pane_tag,
    run_outcome, tab_id_from_open_response, valid_id,
};

#[test]
fn pane_and_tab_ids_are_read_from_open_response() {
    let json = r#"{"result":{"plugin_pane":{"entrypoint":"ssh",
        "pane":{"pane_id":"wR:p6","tab_id":"wR:t3","workspace_id":"wR"}}}}"#;
    assert_eq!(pane_id_from_open_response(json), Some("wR:p6".into()));
    assert_eq!(tab_id_from_open_response(json), Some("wR:t3".into()));

    assert_eq!(pane_id_from_open_response(r#"{"error":{"code":"ui_busy"}}"#), None);
    assert_eq!(pane_id_from_open_response("not json"), None);
    // A tab label rename must never be talked into taking a flag.
    let evil = r#"{"result":{"plugin_pane":{"pane":{"pane_id":"w1:p1","tab_id":"--evil"}}}}"#;
    assert_eq!(tab_id_from_open_response(evil), None);
}

#[test]
fn existing_session_is_found_by_its_tag() {
    let json = r#"{"result":{"panes":[
        {"pane_id":"wN:p1","label":null},
        {"pane_id":"wN:p2","label":"ssh:dokku-prod"},
        {"pane_id":"wN:p3","label":"ssh:postgres"}
    ]}}"#;
    assert_eq!(pane_id_with_tag(json, "dokku-prod"), Some("wN:p2".into()));
    assert_eq!(pane_id_with_tag(json, "postgres"), Some("wN:p3".into()));
    assert_eq!(pane_id_with_tag(json, "nas"), None);
}

#[test]
fn api_refusals_are_errors_even_when_the_cli_exits_zero() {
    assert_eq!(
        error_code(r#"{"error":{"code":"ui_busy","message":"a modal is open"}}"#),
        Some("a modal is open".into())
    );
    assert_eq!(error_code(r#"{"result":{"type":"ok"}}"#), None);
    assert_eq!(error_code("not json"), None);
}

#[test]
fn a_refusal_without_a_message_gives_its_code() {
    assert_eq!(error_code(r#"{"error":{"code":"ui_busy"}}"#), Some("ui_busy".into()));
}

#[test]
fn the_first_tagged_pane_wins_and_its_id_must_be_valid() {
    let json = r#"{"result":{"panes":[
        {"pane_id":"-x","label":"ssh:a"},
        {"pane_id":"w1:p2","label":"ssh:a"}
    ]}}"#;
    assert_eq!(pane_id_with_tag(json, "a"), None);
    assert_eq!(pane_id_with_tag(r#"{"result":{"panes":{}}}"#, "a"), None);
    let many: String = format!(
        r#"{{"result":{{"panes":[{}{{"pane_id":"w1:p12","label":"ssh:late"}}]}}}}"#,
        (0..11).map(|i| format!(r#"{{"pane_id":"w1:p{i}","label":"x"}},"#)).collect::<String>()
    );
    assert_eq!(pane_id_with_tag(&many, "late"), Some("w1:p12".into()));
}

#[test]
fn ids_that_could_be_flags_are_refused() {
    assert_eq!(valid_id("w1:p1"), Some("w1:p1".into()));
    assert_eq!(valid_id("w_1-a"), Some("w_1-a".into()));
    assert_eq!(valid_id(""), None);
    assert_eq!(valid_id("-w1"), None);
    assert_eq!(valid_id("w1 p1"), None);
    assert_eq!(valid_id("w1;rm"), None);
}

#[test]
fn cli_outcomes() {
    assert_eq!(run_outcome(true, "{\"result\":{}}".into(), ""), Ok("{\"result\":{}}".into()));
    assert_eq!(
        run_outcome(true, r#"{"error":{"code":"ui_busy"}}"#.into(), ""),
        Err("herdr: ui_busy".into())
    );
    assert_eq!(run_outcome(false, " out \n".into(), "  "), Err("herdr: out".into()));
    assert_eq!(run_outcome(false, "out".into(), " bad flag\n"), Err("herdr: bad flag".into()));
}

#[test]
fn opening_a_session_is_argv_all_the_way() {
    assert_eq!(
        open_ssh_args("nas", "herdr-hosts").unwrap(),
        [
            "plugin", "pane", "open", "--plugin", "herdr-hosts", "--entrypoint", "ssh",
            "--placement", "tab", "--env", "HERDR_HOSTS_ALIAS=nas", "--focus",
        ]
    );
    assert_eq!(
        open_ssh_args("-oProxyCommand=x", "p"),
        Err("invalid ssh alias: -oProxyCommand=x".into())
    );
    assert_eq!(pane_tag("nas"), "ssh:nas");
    assert_eq!(
        open_picker_args("herdr-hosts"),
        ["plugin", "pane", "open", "--plugin", "herdr-hosts", "--entrypoint", "picker"]
    );
    assert_eq!(pane_list_args(), ["pane", "list"]);
    assert_eq!(focus_pane_args("w1:p1"), ["plugin", "pane", "focus", "w1:p1"]);
}

#[test]
fn after_opening_the_pane_is_tagged_and_the_tab_named() {
    let json = r#"{"result":{"plugin_pane":{"pane":{"pane_id":"w1:p2","tab_id":"w1:t4"}}}}"#;
    let opened = after_open_ssh("nas", json).ok().unwrap();
    assert_eq!(opened.pane, "w1:p2");
    assert_eq!(
        opened.follow_ups,
        vec![
            vec!["pane", "rename", "w1:p2", "ssh:nas"],
            vec!["tab", "rename", "w1:t4", "nas"],
            vec!["tab", "focus", "w1:t4"],
        ]
    );
    let no_tab = r#"{"result":{"plugin_pane":{"pane":{"pane_id":"w1:p2"}}}}"#;
    assert_eq!(
        after_open_ssh("nas", no_tab).ok().unwrap().follow_ups,
        vec![vec!["pane", "rename", "w1:p2", "ssh:nas"]]
    );
    assert_eq!(
        after_open_ssh("nas", r#"{"error":{"code":"ui_busy"}}"#).err(),
        Some("herdr did not return a pane id".to_string())
    );
    assert_eq!(focus_follow_ups(json), vec![vec!["tab", "focus", "w1:t4"]]);
    assert!(focus_follow_ups("{}").is_empty());
}
