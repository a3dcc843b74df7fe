use vstd::prelude::*;

verus! {

/// What the front end must do after a key press, beyond updating its state.
#[derive(Debug, Clone, Copy, PartialEq, Eq, Structural)]
pub enum KeyAction {
    /// Nothing more.
    Nothing,
    /// Discard the recorded audio.
    ClearRecorded,
    /// Search the catalogue for the recorded audio.
    Search,
}

/// The interactive state of the terminal front end: whether it is quitting,
/// whether it is recording, and which tab is shown (0: audio visualiser,
/// 1: search results).
#[derive(Debug, Clone, Copy, PartialEq, Eq, Structural)]
pub struct Controls {
    pub exit: bool,
    pub record: bool,
    pub selected_tab: usize,
}

/// The state after pressing `key` (`None` for any key press that is not a
/// character, and for key releases and repeats): `q` quits, `r` toggles
/// recording, `t` switches between the two tabs.
pub open spec fn next_controls(c: Controls, key: Option<char>) -> Controls {
    match key {
        Some('q') => Controls { exit: true, ..c },
        Some('r') => Controls { record: !c.record, ..c },
        Some('t') => Controls {
            selected_tab: if c.selected_tab == 0 {
                1
            } else if c.selected_tab == 1 {
                0
            } else {
                c.selected_tab
            },
            ..c
        },
        _ => c,
    }
}

/// The action that pressing `key` calls for: `c` clears the recording, `s`
/// searches.
pub open spec fn key_action(key: Option<char>) -> KeyAction {
    match key {
        Some('c') => KeyAction::ClearRecorded,
        Some('s') => KeyAction::Search,
        _ => KeyAction::Nothing,
    }
}

impl Controls {
    /// The state at start-up: running, not recording, on the visualiser tab.
    pub fn new() -> (c: Controls)
        ensures
            c == (Controls { exit: false, record: false, selected_tab: 0 }),
    {
        Controls { exit: false, record: false, selected_tab: 0 }
    }

    /// Applies a key press (see `next_controls`) and says what else it
    /// calls for (see `key_action`).
    pub fn handle_key_event(&mut self, key: Option<char>) -> (action: KeyAction)
        ensures
            *final(self) == next_controls(*old(self), key),
            action == key_action(key),
    {
        match key {
            Some('q') => {
                self.exit = true;
                KeyAction::Nothing
            },
            Some('r') => {
                self.record = !self.record;
                KeyAction::Nothing
            },
            Some('c') => KeyAction::ClearRecorded,
            Some('s') => KeyAction::Search,
            Some('t') => {
                if self.selected_tab == 0 {
                    self.selected_tab = 1;
                } else if self.selected_tab == 1 {
                    self.selected_tab = 0;
                }
                KeyAction::Nothing
            },
            _ => KeyAction::Nothing,
        }
    }
}

/// Pressing the same key twice leaves the state as it was, except `q`,
/// which stays quit: recording and the tab toggle back.
pub proof fn lemma_toggle_twice(c: Controls, key: Option<char>)
    requires
        key != Some('q'),
    ensures
        next_controls(next_controls(c, key), key) == c,
{
}

/// Quitting is final: once `exit` is set, no key press clears it.
pub proof fn lemma_exit_is_final(c: Controls, key: Option<char>)
    requires
        c.exit,
    ensures
        next_controls(c, key).exit,
{
}

/// The tab shown is always one of the two tabs when it started as one.
pub proof fn lemma_tab_stays_valid(c: Controls, key: Option<char>)
    requires
        c.selected_tab <= 1,
    ensures
        next_controls(c, key).selected_tab <= 1,
{
}

/// What each key does to the controls, whatever the rest of the state:
/// `t` swaps the two tabs, `r` flips recording, `q` sets quitting, and
/// every other key press leaves the state alone; only the named field
/// changes.
pub proof fn lemma_key_effects(c: Controls, key: Option<char>)
    ensures
        key == Some('t') && c.selected_tab <= 1 ==> next_controls(c, key).selected_tab == 1 - c.selected_tab
            && next_controls(c, key).record == c.record && next_controls(c, key).exit == c.exit,
        key == Some('r') ==> next_controls(c, key).record == !c.record && next_controls(c, key).selected_tab
            == c.selected_tab && next_controls(c, key).exit == c.exit,
        key == Some('q') ==> next_controls(c, key).exit && next_controls(c, key).record == c.record && next_controls(
            c,
            key,
        ).selected_tab == c.selected_tab,
        key != Some('t') && key != Some('r') && key != Some('q') ==> next_controls(c, key) == c,
        key == Some('c') <==> key_action(key) == KeyAction::ClearRecorded,
        key == Some('s') <==> key_action(key) == KeyAction::Search,
{
}

} // verus!
