//! What a keypress does to the picker.

use vstd::prelude::*;
use crate::app::{
    cancelled, entered_folder, left_folder, lemma_changes_keep_resting, lemma_changes_keep_settled, lemma_same_rows_settled, moved,
    search_popped, search_pushed, search_started, toggled_favorite, toggled_folder, unchanged, App,
};

verus! {

/// The keys the picker tells apart.
pub enum Key {
    Char(char),
    Esc,
    Backspace,
    Enter,
    Up,
    Down,
    Left,
    Right,
    Other,
}

/// What a key means in the state it arrives in.
pub enum Command {
    /// Any key closes the help.
    CloseHelp,
    /// A character typed while searching.
    Type(char),
    /// Backspace while searching.
    Erase,
    Cancel,
    Quit,
    Move(isize),
    EnterFolder,
    LeaveFolder,
    StartSearch,
    ToggleFavorite,
    Reload,
    ShowHelp,
    ToggleFolder,
    /// Enter: connect, and with shift always open a new session.
    Connect(bool),
    Ignore,
}

/// What the caller has to do after a keypress.
pub enum Action {
    Nothing,
    /// Write the favorites list.
    SaveFavorites,
    /// Read the ssh config and the favorites again, then `App::reload`.
    Reload,
    /// Go to a session for `alias`: an existing one unless `force_new`.
    Connect { alias: String, force_new: bool },
}

/// The next step in reaching a session for a host.
pub enum SessionStep {
    /// Look up the open sessions.
    LookUp,
    /// Return to the open session in this pane.
    Focus(String),
    /// Open a new session.
    Open,
}

/// Enter returns to an open session for the host, shift+Enter (`force_new`)
/// always opens a new one. `found` is what the look-up gave, once it was
/// made: the pane of an open session, if any.
pub fn session_step(force_new: bool, found: Option<Option<String>>) -> (out: SessionStep)
    ensures
        force_new ==> out is Open,
        !force_new && found is None ==> out is LookUp,
        !force_new ==> (found matches Some(Some(p)) ==> (out matches SessionStep::Focus(q) && q@ == p@)),
        !force_new && found == Some(None::<String>) ==> out is Open,
{
    if force_new {
        return SessionStep::Open;
    }
    match found {
        None => SessionStep::LookUp,
        Some(Some(p)) => SessionStep::Focus(p),
        Some(None) => SessionStep::Open,
    }
}

/// The keymap. While searching, plain characters are query text rather than
/// commands.
pub open spec fn command_for(key: Key, ctrl: bool, shift: bool, help: bool, searching: bool) -> Command {
    if help {
        Command::CloseHelp
    } else if searching && key is Char && !ctrl {
        Command::Type(key->Char_0)
    } else if searching && key is Backspace {
        Command::Erase
    } else {
        match key {
            Key::Esc => Command::Cancel,
            Key::Down => Command::Move(1isize),
            Key::Up => Command::Move(-1isize),
            Key::Right => Command::EnterFolder,
            Key::Left => Command::LeaveFolder,
            Key::Enter => Command::Connect(shift),
            Key::Char(c) => if c == 'q' {
                Command::Quit
            } else if c == 'c' && ctrl {
                Command::Quit
            } else if c == 'j' {
                Command::Move(1isize)
            } else if c == 'k' {
                Command::Move(-1isize)
            } else if c == 'l' {
                Command::EnterFolder
            } else if c == 'h' {
                Command::LeaveFolder
            } else if c == '/' {
                Command::StartSearch
            } else if c == 'f' {
                Command::ToggleFavorite
            } else if c == 'r' {
                Command::Reload
            } else if c == '?' {
                Command::ShowHelp
            } else if c == ' ' {
                Command::ToggleFolder
            } else {
                Command::Ignore
            },
            _ => Command::Ignore,
        }
    }
}

pub fn command(key: &Key, ctrl: bool, shift: bool, help: bool, searching: bool) -> (out: Command)
    ensures
        out == command_for(*key, ctrl, shift, help, searching),
{
    if help {
        return Command::CloseHelp;
    }
    if searching {
        match key {
            Key::Char(c) => {
                if !ctrl {
                    return Command::Type(*c);
                }
            },
            Key::Backspace => {
                return Command::Erase;
            },
            _ => {},
        }
    }
    match key {
        Key::Esc => Command::Cancel,
        Key::Down => Command::Move(1),
        Key::Up => Command::Move(-1),
        Key::Right => Command::EnterFolder,
        Key::Left => Command::LeaveFolder,
        Key::Enter => Command::Connect(shift),
        Key::Char(c) => {
            let c = *c;
            if c == 'q' {
                Command::Quit
            } else if c == 'c' && ctrl {
                Command::Quit
            } else if c == 'j' {
                Command::Move(1)
            } else if c == 'k' {
                Command::Move(-1)
            } else if c == 'l' {
                Command::EnterFolder
            } else if c == 'h' {
                Command::LeaveFolder
            } else if c == '/' {
                Command::StartSearch
            } else if c == 'f' {
                Command::ToggleFavorite
            } else if c == 'r' {
                Command::Reload
            } else if c == '?' {
                Command::ShowHelp
            } else if c == ' ' {
                Command::ToggleFolder
            } else {
                Command::Ignore
            }
        },
        _ => Command::Ignore,
    }
}

/// `app` with its status message cleared: any keypress clears a stale
/// message, so the status line can go back to showing the search box.
pub open spec fn cleared(app: App) -> App {
    App { status: None, ..app }
}

/// What `key` does to `old`, giving `new` and asking the caller for `out`.
pub open spec fn handled(old: App, new: App, key: Key, ctrl: bool, shift: bool, out: Action) -> bool {
    let before = cleared(old);
    match command_for(key, ctrl, shift, old.help, old.search is Some) {
        Command::CloseHelp => unchanged(new, App { help: false, ..before }) && out is Nothing,
        Command::Type(c) => search_pushed(before, new, c) && out is Nothing,
        Command::Erase => search_popped(before, new) && out is Nothing,
        Command::Cancel => cancelled(before, new) && out is Nothing,
        Command::Quit => unchanged(new, App { done: true, ..before }) && out is Nothing,
        Command::Move(d) => moved(before, new, d) && out is Nothing,
        Command::EnterFolder => entered_folder(before, new) && out is Nothing,
        Command::LeaveFolder => left_folder(before, new) && out is Nothing,
        Command::StartSearch => search_started(before, new) && out is Nothing,
        Command::ToggleFavorite => toggled_favorite(before, new, out is SaveFavorites) && (out is Nothing
            || out is SaveFavorites),
        Command::Reload => unchanged(new, before) && out is Reload,
        Command::ShowHelp => unchanged(new, App { help: true, ..before }) && out is Nothing,
        Command::ToggleFolder => toggled_folder(before, new) && out is Nothing,
        Command::Connect(force_new) => if before.on_host() {
            &&& unchanged(new, before)
            &&& out matches Action::Connect { alias, force_new: f }
            &&& alias@ == before.current()->Host_alias
            &&& f == force_new
        } else {
            toggled_folder(before, new) && out is Nothing
        },
        Command::Ignore => unchanged(new, before) && out is Nothing,
    }
}

/// Handles one keypress (see [`handled`]). Enter on a folder expands it;
/// on a host it asks the caller to connect.
pub fn on_key(app: &mut App, key: Key, ctrl: bool, shift: bool) -> (out: Action)
    requires
        command_for(key, ctrl, shift, old(app).help, old(app).search is Some) matches Command::Move(d) ==> {
            &&& old(app).rows@.len() <= isize::MAX
            &&& isize::MIN <= (old(app).selected as isize) + d <= isize::MAX
        },
    ensures
        handled(*old(app), *final(app), key, ctrl, shift, out),
{
    let cmd = command(&key, ctrl, shift, app.help, app.search.is_some());
    app.status = None;
    match cmd {
        Command::CloseHelp => {
            app.help = false;
            Action::Nothing
        },
        Command::Type(c) => {
            app.search_push(c);
            Action::Nothing
        },
        Command::Erase => {
            app.search_pop();
            Action::Nothing
        },
        Command::Cancel => {
            app.cancel();
            Action::Nothing
        },
        Command::Quit => {
            app.done = true;
            Action::Nothing
        },
        Command::Move(d) => {
            app.move_by(d);
            Action::Nothing
        },
        Command::EnterFolder => {
            app.enter_folder();
            Action::Nothing
        },
        Command::LeaveFolder => {
            app.leave_folder();
            Action::Nothing
        },
        Command::StartSearch => {
            app.start_search();
            Action::Nothing
        },
        Command::ToggleFavorite => {
            if app.toggle_favorite() {
                Action::SaveFavorites
            } else {
                Action::Nothing
            }
        },
        Command::Reload => Action::Reload,
        Command::ShowHelp => {
            app.help = true;
            Action::Nothing
        },
        Command::ToggleFolder => {
            app.toggle_folder();
            Action::Nothing
        },
        Command::Connect(force_new) => {
            match app.selected_alias() {
                Some(alias) => Action::Connect { alias: String::from_str(alias), force_new },
                None => {
                    app.toggle_folder();
                    Action::Nothing
                },
            }
        },
        Command::Ignore => Action::Nothing,
    }
}


/// Every keypress keeps the picker settled: the rows show the current
/// settings and the cursor rests on a row (see [`App::settled`]).
pub proof fn lemma_keys_keep_settled(a: App, b: App, key: Key, ctrl: bool, shift: bool, out: Action)
    requires
        handled(a, b, key, ctrl, shift, out),
        a.settled(),
    ensures
        b.settled(),
{
    let before = cleared(a);
    lemma_same_rows_settled(a, before);
    match command_for(key, ctrl, shift, a.help, a.search is Some) {
        Command::CloseHelp => lemma_same_rows_settled(before, b),
        Command::Quit => lemma_same_rows_settled(before, b),
        Command::ShowHelp => lemma_same_rows_settled(before, b),
        Command::Reload => lemma_same_rows_settled(before, b),
        Command::Ignore => lemma_same_rows_settled(before, b),
        Command::Type(c) => lemma_changes_keep_settled(before, b, 0, c, false),
        Command::Erase => lemma_changes_keep_settled(before, b, 0, ' ', false),
        Command::Cancel => lemma_changes_keep_settled(before, b, 0, ' ', false),
        Command::Move(d) => lemma_changes_keep_settled(before, b, d, ' ', false),
        Command::EnterFolder => lemma_changes_keep_settled(before, b, 0, ' ', false),
        Command::LeaveFolder => lemma_changes_keep_settled(before, b, 0, ' ', false),
        Command::StartSearch => lemma_changes_keep_settled(before, b, 0, ' ', false),
        Command::ToggleFavorite => lemma_changes_keep_settled(before, b, 0, ' ', out is SaveFavorites),
        Command::ToggleFolder => lemma_changes_keep_settled(before, b, 0, ' ', false),
        Command::Connect(_) => {
            if before.on_host() {
                lemma_same_rows_settled(before, b);
            } else {
                lemma_changes_keep_settled(before, b, 0, ' ', false);
            }
        },
    }
}


/// Every keypress keeps the cursor resting on a row that is not a section
/// header, from any state where it already rests (see [`App::resting`]).
pub proof fn lemma_keys_keep_resting(a: App, b: App, key: Key, ctrl: bool, shift: bool, out: Action)
    requires
        handled(a, b, key, ctrl, shift, out),
        a.resting(),
    ensures
        b.resting(),
{
    let before = cleared(a);
    assert(before.resting());
    match command_for(key, ctrl, shift, a.help, a.search is Some) {
        Command::Type(c) => lemma_changes_keep_resting(before, b, 0, c, false),
        Command::Erase => lemma_changes_keep_resting(before, b, 0, ' ', false),
        Command::Cancel => lemma_changes_keep_resting(before, b, 0, ' ', false),
        Command::Move(d) => lemma_changes_keep_resting(before, b, d, ' ', false),
        Command::EnterFolder => lemma_changes_keep_resting(before, b, 0, ' ', false),
        Command::LeaveFolder => lemma_changes_keep_resting(before, b, 0, ' ', false),
        Command::StartSearch => lemma_changes_keep_resting(before, b, 0, ' ', false),
        Command::ToggleFavorite => lemma_changes_keep_resting(before, b, 0, ' ', out is SaveFavorites),
        Command::ToggleFolder => lemma_changes_keep_resting(before, b, 0, ' ', false),
        Command::Connect(_) => {
            if !before.on_host() {
                lemma_changes_keep_resting(before, b, 0, ' ', false);
            }
        },
        _ => {},
    }
}


/// The vim keys mean what the arrows mean: `l` is right, `h` is left, `j` is
/// down and `k` is up (outside search and help, with or without modifiers).
pub proof fn lemma_vim_keys_are_arrows(ctrl: bool, shift: bool)
    ensures
        command_for(Key::Char('l'), ctrl, shift, false, false) == command_for(Key::Right, ctrl, shift, false, false),
        command_for(Key::Char('h'), ctrl, shift, false, false) == command_for(Key::Left, ctrl, shift, false, false),
        command_for(Key::Char('j'), ctrl, shift, false, false) == command_for(Key::Down, ctrl, shift, false, false),
        command_for(Key::Char('k'), ctrl, shift, false, false) == command_for(Key::Up, ctrl, shift, false, false),
{
}

/// Right (or `l`) only ever opens folders and Left (or `h`) only ever closes
/// them; down (or `j`) and up (or `k`) move the cursor one row forward and
/// back, leaving the rows alone.
pub proof fn lemma_arrows_do_what_they_say(a: App, b: App, key: Key, ctrl: bool, shift: bool, out: Action)
    requires
        handled(a, b, key, ctrl, shift, out),
        !a.help,
        a.search is None,
    ensures
        key == Key::Right || key == Key::Char('l') ==> b.collapsed@.subset_of(a.collapsed@),
        key == Key::Left || key == Key::Char('h') ==> a.collapsed@.subset_of(b.collapsed@),
        key == Key::Down || key == Key::Char('j') ==> moved(cleared(a), b, 1isize),
        key == Key::Up || key == Key::Char('k') ==> moved(cleared(a), b, -1isize),
{
}

} // verus!
