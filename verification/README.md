# herdr-hosts

A hierarchical SSH host picker for Herdr. Hosts, folders and notes come from
`~/.ssh/config`: a comment fenced by at least two of the same separator
(`# --- Personal / Hetzner ---`) opens a folder, `/` nests it, and a trailing
comment on a `Host` line is its note. Favorites are the only thing the picker
writes, one alias per line, to the plugin state directory.

## Layout

* `src/` — the library, verified with Verus:
  * `ssh_config.rs` — headings, directives, notes, patterns and `Include`
    rules, one file's text at a time; the host list without repeats.
  * `tree.rs` — the rows the picker shows, as mathematical sequences, and the
    laws about them (favorites keep hosts in place, the cursor stays on a row).
  * `app.rs` — the picker state and every operation on it, each specified
    over `tree.rs`.
  * `keys.rs` — the keymap and what a keypress does.
  * `favorites.rs` — reading and writing the favorites list.
  * `herdr.rs` — the Herdr CLI argument vectors and the meaning of its JSON
    answers (read with `serde_json`).
  * `ui.rs` — the text and emphasis of each row, the status line and the
    help.
  * `launch.rs` — what ssh's exit means for the session tab.
  * `names.rs`, `text.rs` — a set of strings, and character-level helpers.
* `app/` — the programs: the terminal loop (ratatui), reading files and
  following `Include` globs, running the Herdr CLI, and the session launcher.
* `tests/` — tests of the library.
