use herdr_hosts::names::Names;
use herdr_hosts::ssh_config::{
    add_hosts, first_visit, include_root, parse_config, resolve_include, section_heading, Directive, Host,
    IncludeRoot, MAX_DEPTH,
};

/// The hosts of one file's text, read with nothing inherited and no
/// `Include` followed.
fn hosts_of(text: &str) -> Vec<Host> {
    let mut out = Vec::new();
    for d in parse_config(text, &vec![]) {
        if let Directive::Hosts { aliases, folder, note } = d {
            add_hosts(&mut out, &aliases, &folder, &note);
        }
    }
    out
}

fn summary(hosts: &[Host]) -> Vec<String> {
    hosts
        .iter()
        .map(|h| format!("{}|{}|{}", h.alias, h.folder.join("/"), h.note.as_deref().unwrap_or("")))
        .collect()
}

#[test]
fn only_fenced_comments_are_headings() {
    assert_eq!(section_heading("# --- Work ---"), Some(vec!["Work".into()]));
    assert_eq!(section_heading("#=== Work ==="), Some(vec!["Work".into()]));
    assert_eq!(
        section_heading("# ** A / B / C **"),
        Some(vec!["A".into(), "B".into(), "C".into()])
    );
    for not_a_heading in [
        "# Work",        // plain comment
        "# - Work -",    // single separator
        "# --- Work",    // not closed
        "# -----",       // a rule, no text
        "Host web-prod", // not a comment
        "",
    ] {
        assert_eq!(section_heading(not_a_heading), None, "{not_a_heading:?}");
    }
}

#[test]
fn headings_ignore_empty_levels_and_surrounding_space() {
    assert_eq!(
        section_heading("   #  ==  Uni //  Prod  ==   "),
        Some(vec!["Uni".into(), "Prod".into()])
    );
    assert_eq!(section_heading("# -- / --"), None);
    assert_eq!(section_heading("# --- Work ==="), None);
}

#[test]
fn reads_aliases_and_skips_patterns() {
    let text = "# just a note, not a heading\n\
         Host dokku-prod postgres\n    HostName 1.2.3.4\n\n\
         Host *.example.com\n    User root\n\
         Host=research\n\
         host nas\n\
         Host \"quoted\"\n\
         Host !banned\n\
         Host dokku-prod\n";
    assert_eq!(
        hosts_of(text).iter().map(|h| h.alias.clone()).collect::<Vec<_>>(),
        ["dokku-prod", "postgres", "research", "nas", "quoted"]
    );
}

#[test]
fn section_headings_build_the_folder_tree() {
    let text = "Host unfiled\n\n\
         # --- Personal / Hetzner ---\n\
         Host dokku-prod   # main dokku box\n\
         Host postgres\n\n\
         # === University ===\n\
         Host web-prod\n\
         # remember to rotate this key\n\
         Host gitlab\n";
    assert_eq!(
        summary(&hosts_of(text)),
        [
            "unfiled||",
            "dokku-prod|Personal/Hetzner|main dokku box",
            "postgres|Personal/Hetzner|",
            "web-prod|University|",
            // A plain comment is not a heading, so gitlab stays put.
            "gitlab|University|",
        ]
    );
}

#[test]
fn trailing_comments_are_notes_not_aliases() {
    assert_eq!(
        summary(&hosts_of("Host alpha # bir not\nHost beta\n")),
        ["alpha||bir not", "beta||"]
    );
}

#[test]
fn a_hash_inside_a_token_is_part_of_the_alias() {
    assert_eq!(
        summary(&hosts_of("Host beta#gamma\nHost delta #note\n")),
        ["beta#gamma||", "delta||note"]
    );
}

#[test]
fn includes_carry_the_heading_in_force() {
    let inherited = vec!["Outer".to_string()];
    let ds = parse_config(
        "Host a\r\n# --- Inner ---\r\nINCLUDE config.d/* \"other file\"\r\nHost b",
        &inherited,
    );
    assert_eq!(ds.len(), 3);
    match &ds[0] {
        Directive::Hosts { aliases, folder, note } => {
            assert_eq!(aliases, &vec!["a".to_string()]);
            assert_eq!(folder, &vec!["Outer".to_string()]);
            assert_eq!(note, &None);
        }
        _ => panic!("expected hosts"),
    }
    match &ds[1] {
        Directive::Include { patterns, folder } => {
            assert_eq!(patterns, &vec!["config.d/*".to_string(), "other".to_string(), "file".to_string()]);
            assert_eq!(folder, &vec!["Outer".to_string(), "Inner".to_string()]);
        }
        _ => panic!("expected an include"),
    }
    match &ds[2] {
        Directive::Hosts { aliases, folder, .. } => {
            assert_eq!(aliases, &vec!["b".to_string()]);
            assert_eq!(folder, &vec!["Outer".to_string(), "Inner".to_string()]);
        }
        _ => panic!("expected hosts"),
    }
}

#[test]
fn other_keywords_and_bare_keywords_contribute_nothing() {
    assert!(parse_config("Host\nHostName x\nUser root\nMatch all\n", &vec![]).is_empty());
}

#[test]
fn duplicate_aliases_keep_their_first_entry() {
    let mut out = Vec::new();
    let folder = vec!["F".to_string()];
    add_hosts(&mut out, &vec!["a".into(), "b".into(), "a".into()], &folder, &Some("n".into()));
    add_hosts(&mut out, &vec!["b".into(), "c".into()], &vec![], &None);
    assert_eq!(summary(&out), ["a|F|n", "b|F|n", "c||"]);
}

#[test]
fn folder_path_and_id() {
    let h = Host { alias: "x".into(), folder: vec!["A".into(), "B".into()], note: None };
    assert_eq!(h.folder_path(), "A / B");
    assert_eq!(h.folder_id(), "A\u{1}B");
    let loose = Host { alias: "y".into(), folder: vec![], note: None };
    assert_eq!(loose.folder_path(), "");
}

#[test]
fn blank_lines_and_ordinary_comments_do_not_end_a_section() {
    let text = "# --- Work ---\nHost a\n\n# rotate this key\n\nHost b\n# === Home ===\nHost c\n";
    assert_eq!(summary(&hosts_of(text)), ["a|Work|", "b|Work|", "c|Home|"]);
}

#[test]
fn a_file_is_read_once_and_includes_nest_at_most_max_depth() {
    let mut seen = Names::new();
    assert!(first_visit(&mut seen, "/home/u/.ssh/config".to_string(), 0));
    assert!(!first_visit(&mut seen, "/home/u/.ssh/config".to_string(), 1));
    assert!(first_visit(&mut seen, "/home/u/.ssh/common".to_string(), MAX_DEPTH));
    assert!(!first_visit(&mut seen, "/home/u/.ssh/deep".to_string(), MAX_DEPTH + 1));
    // Too deep is not a visit: the same file is still read when reached
    // within the cap.
    assert!(first_visit(&mut seen, "/home/u/.ssh/deep".to_string(), 2));
    assert_eq!(seen.len(), 3);
}

#[test]
fn relative_includes_are_rooted_in_the_ssh_directory() {
    assert!(matches!(include_root("config.d/*"), (IncludeRoot::SshDir, p) if p == "config.d/*"));
    assert!(matches!(include_root("common"), (IncludeRoot::SshDir, p) if p == "common"));
    assert!(matches!(include_root("~/extra/ssh"), (IncludeRoot::Home, p) if p == "extra/ssh"));
    assert!(matches!(include_root("/etc/ssh/shared"), (IncludeRoot::Absolute, p) if p == "/etc/ssh/shared"));
    // `~` alone, or `~user/...`, is not the home-directory form.
    assert!(matches!(include_root("~other/x"), (IncludeRoot::SshDir, p) if p == "~other/x"));
}

#[test]
fn include_patterns_resolve_to_paths() {
    let dir = Some("/home/u/.ssh");
    let home = Some("/home/u");
    assert_eq!(resolve_include("config.d/*", dir, home).as_deref(), Some("/home/u/.ssh/config.d/*"));
    assert_eq!(resolve_include("common", Some("/home/u/.ssh/"), home).as_deref(), Some("/home/u/.ssh/common"));
    assert_eq!(resolve_include("~/extra", dir, home).as_deref(), Some("/home/u/extra"));
    assert_eq!(resolve_include("~//etc/x", dir, home).as_deref(), Some("/etc/x"));
    assert_eq!(resolve_include("/etc/ssh/shared", None, None).as_deref(), Some("/etc/ssh/shared"));
    assert_eq!(resolve_include("~/extra", dir, None), None);
    assert_eq!(resolve_include("common", None, home), None);
    assert_eq!(resolve_include("common", Some(""), home).as_deref(), Some("common"));
}
