use herdr_hosts::favorites::{parse_list, render};

#[test]
fn hand_edits_with_blanks_and_comments_survive_a_read() {
    assert_eq!(
        parse_list("\n# mine\nweb-prod\n\n  gitlab  \n"),
        vec!["web-prod".to_string(), "gitlab".to_string()]
    );
    assert!(parse_list("").is_empty());
    assert_eq!(parse_list("a\r\nb"), vec!["a".to_string(), "b".to_string()]);
}

#[test]
fn favorites_are_written_sorted_one_per_line() {
    let names = vec!["nas".to_string(), "dokku-prod".to_string(), "Zed".to_string()];
    assert_eq!(render(&names), "Zed\ndokku-prod\nnas\n");
    assert_eq!(render(&vec![]), "\n");
}

#[test]
fn round_trips() {
    let names = vec!["dokku-prod".to_string(), "nas".to_string()];
    let mut back = parse_list(&render(&names));
    back.sort();
    assert_eq!(back, names);
    assert!(parse_list(&render(&vec![])).is_empty());
}

#[test]
fn the_same_favorites_give_the_same_file() {
    let one = vec!["web".to_string(), "nas".to_string(), "db".to_string()];
    let other = vec!["db".to_string(), "web".to_string(), "nas".to_string()];
    assert_eq!(render(&one), render(&other));
    // A name that is not line-safe does not read back as itself.
    assert_eq!(parse_list(&render(&vec![" x".to_string()])), vec!["x".to_string()]);
}

#[test]
fn trimmed_names_with_inner_spaces_round_trip() {
    let names = vec!["my box".to_string(), "a\tb".to_string()];
    let mut back = parse_list(&render(&names));
    back.sort();
    let mut want = names.clone();
    want.sort();
    assert_eq!(back, want);
}
