use herdr_hosts::valid_alias;

#[test]
fn alias_validation_rejects_argv_and_shell_tricks() {
    for ok in ["dokku-prod", "web_prod", "nas.local", "a"] {
        assert!(valid_alias(ok), "{ok} should be accepted");
    }
    for bad in [
        "", "-oProxyCommand=x", "a b", "a;rm -rf /", "a$(id)", "a`id`",
        "a\nb", "a=b", "*", "a|b", "../x",
    ] {
        assert!(!valid_alias(bad), "{bad:?} should be rejected");
    }
}

#[test]
fn non_ascii_letters_are_not_alias_characters() {
    assert!(!valid_alias("caf\u{e9}"));
    assert!(valid_alias("A9.Z_z-0"));
}
