//! A hierarchical SSH host picker: hosts, folders and notes come from the
//! comment headings of an OpenSSH client configuration.

pub mod app;
pub mod favorites;
pub mod herdr;
pub mod keys;
pub mod launch;
pub mod names;
pub mod ssh_config;
pub mod text;
pub mod tree;
pub mod ui;

use vstd::prelude::*;

verus! {

/// The characters an alias may hold: ASCII letters and digits, `.`, `_`, `-`.
pub open spec fn alias_char(c: char) -> bool {
    ('a' <= c && c <= 'z') || ('A' <= c && c <= 'Z') || ('0' <= c && c <= '9') || c == '.'
        || c == '_' || c == '-'
}

/// An alias that is safe to hand to `ssh` as argv and to Herdr as an
/// environment value: not empty, not starting with `-`, and made of
/// [`alias_char`]s only.
pub open spec fn is_valid_alias(s: Seq<char>) -> bool {
    &&& s.len() > 0
    &&& s[0] != '-'
    &&& forall|i: int| 0 <= i < s.len() ==> alias_char(#[trigger] s[i])
}

/// SSH aliases reach `ssh` as argv and Herdr `--env` values as `KEY=VALUE`.
/// Both are trust boundaries: the ssh configuration is user input too.
pub fn valid_alias(alias: &str) -> (ok: bool)
    ensures
        ok == is_valid_alias(alias@),
{
    let chars = text::chars_of(alias);
    if chars.len() == 0 || chars[0] == '-' {
        return false;
    }
    let mut i: usize = 0;
    while i < chars.len()
        invariant
            chars@ == alias@,
            i <= chars.len(),
            forall|j: int| 0 <= j < i ==> alias_char(#[trigger] chars@[j]),
        decreases chars.len() - i,
    {
        let c = chars[i];
        let ok = ('a' <= c && c <= 'z') || ('A' <= c && c <= 'Z') || ('0' <= c && c <= '9')
            || c == '.' || c == '_' || c == '-';
        if !ok {
            return false;
        }
        i = i + 1;
    }
    true
}


/// The alias rule in full: an alias is accepted exactly when it is not
/// empty, does not start with `-`, and is made of ASCII letters, digits,
/// `.`, `_` and `-` only; whatever else its first character is (a digit, a
/// dot, an underscore) does not matter.
pub proof fn lemma_alias_rule(s: Seq<char>)
    ensures
        is_valid_alias(s) <==> {
            &&& s.len() > 0 && '-' != s[0]
            &&& forall|j: int|
                0 <= j < s.len() ==> {
                    let c = #[trigger] s[j];
                    ('a' <= c && c <= 'z') || ('A' <= c && c <= 'Z') || ('0' <= c && c <= '9') || c == '.' || c == '_'
                        || c == '-'
                }
        },
{
}

} // verus!
