//! The state behind the list of processes: the inventory, the selected row, the filter and
//! the mode of the display; how a key changes it, and how a fresh snapshot replaces the
//! inventory while the selection stays on the same process.

use crate::filter::{
    apply_filter, pid_at, position_of, position_of_is_first, preserve_selection, selected_pid,
    visible,
};
use crate::lsof::{Entry, Process};
use ratatui::widgets::TableState;
use vstd::prelude::*;

verus! {

/// What the display shows.
#[derive(Debug)]
pub enum AppState {
    /// The list of processes.
    ShowList,
    /// The help, over the list.
    ShowHelp,
    /// The list, while the filter is edited; the text is the filter as edited so far.
    EditFilter(String),
}

/// What the display shows, as a value.
pub enum Mode {
    ShowList,
    ShowHelp,
    EditFilter(Seq<char>),
}

impl View for AppState {
    type V = Mode;

    open spec fn view(&self) -> Mode {
        match self {
            AppState::ShowList => Mode::ShowList,
            AppState::ShowHelp => Mode::ShowHelp,
            AppState::EditFilter(filter) => Mode::EditFilter(filter@),
        }
    }
}

impl Default for AppState {
    fn default() -> (state: AppState)
        ensures
            state@ == Mode::ShowList,
    {
        AppState::ShowList
    }
}

/// A key that was pressed.
#[derive(Debug, Clone, Copy, PartialEq, Eq)]
pub enum Key {
    Esc,
    Enter,
    Backspace,
    Up,
    Down,
    Char(char),
    /// Any other key.
    Other,
}

/// What is left to do once the state has taken a key.
#[derive(Debug, Clone, Copy, PartialEq, Eq)]
pub enum Action {
    Nothing,
    /// Terminate the process with this pid, then refresh the inventory.
    Kill(usize),
}

/// The state behind the display.
#[derive(Debug)]
pub struct App {
    /// The complete inventory. The display shows `filtered_list`.
    pub processes: Vec<Process>,
    pub exit: bool,
    /// The selected row of the list, if one is selected. After a move it may lie beyond the
    /// end of the list, until the table is drawn and puts it on the last row.
    pub selected: Option<usize>,
    pub filter: String,
    pub state: AppState,
}

/// The state behind the display, as a value.
pub struct AppView {
    pub processes: Seq<Entry>,
    pub exit: bool,
    pub selected: Option<usize>,
    pub filter: Seq<char>,
    pub state: Mode,
}

impl View for App {
    type V = AppView;

    open spec fn view(&self) -> AppView {
        AppView {
            processes: self.processes.deep_view(),
            exit: self.exit,
            selected: self.selected,
            filter: self.filter@,
            state: self.state@,
        }
    }
}

/// The row that is selected after a move down: the one after the selected row, and the
/// first row where none was selected.
pub open spec fn next_row(selected: Option<usize>) -> Option<usize> {
    match selected {
        Some(i) => if i < usize::MAX {
            Some((i + 1) as usize)
        } else {
            Some(i)
        },
        None => Some(0),
    }
}

/// The row that is selected after a move up: the one before the selected row, and the
/// largest row number where none was selected, which stands for the last row.
pub open spec fn previous_row(selected: Option<usize>) -> Option<usize> {
    match selected {
        Some(i) => if i > 0 {
            Some((i - 1) as usize)
        } else {
            Some(0)
        },
        None => Some(usize::MAX),
    }
}

/// The filter text after a key while it is edited: backspace takes the last character away,
/// a character key adds its character, and any other key leaves the text as it is.
pub open spec fn edited(filter: Seq<char>, key: Key) -> Seq<char> {
    match key {
        Key::Backspace => if filter.len() > 0 {
            filter.drop_last()
        } else {
            filter
        },
        Key::Char(c) => filter.push(c),
        _ => filter,
    }
}

/// The row to select at the start: the only row of a list of one, and none in any other
/// list.
pub open spec fn initial_selection(list: Seq<Entry>) -> Option<usize> {
    if list.len() == 1 {
        Some(0)
    } else {
        None
    }
}

impl AppView {
    /// The filter text that counts: the one being edited while the filter is edited, else
    /// the one that was confirmed last.
    pub open spec fn active_filter(self) -> Seq<char> {
        match self.state {
            Mode::EditFilter(filter) => filter,
            _ => self.filter,
        }
    }

    /// The entries that the display lists.
    pub open spec fn filtered_list(self) -> Seq<Entry> {
        visible(self.processes, self.active_filter())
    }

    /// The pid of the selected process: that of the selected row of the list, where a row
    /// of the list is selected.
    pub open spec fn selected_pid(self) -> Option<nat> {
        pid_at(self.filtered_list(), self.selected)
    }

    /// This state with the inventory `fresh` in place of its own, if there is one.
    pub open spec fn with_inventory(self, fresh: Option<Seq<Entry>>) -> AppView {
        match fresh {
            Some(processes) => AppView { processes, ..self },
            None => self,
        }
    }

    /// The state after the inventory was replaced by `fresh`, if there is one. The selection
    /// stays on the process that was selected, by its pid, and is cleared if the new list holds
    /// it no more. A selection that was on no process stays as it is.
    pub open spec fn refreshed(self, fresh: Option<Seq<Entry>>) -> AppView {
        let next = self.with_inventory(fresh);
        match self.selected_pid() {
            Some(pid) => match position_of(next.filtered_list(), pid) {
                Some(i) => AppView { selected: Some(i as usize), ..next },
                None => AppView { selected: None, ..next },
            },
            None => next,
        }
    }

    /// The state after the escape key in the list: the filter is cleared, and where there
    /// is none the display is left.
    pub open spec fn escaped(self) -> AppView {
        if self.filter.len() == 0 {
            AppView { exit: true, ..self }
        } else {
            AppView { filter: Seq::empty(), ..self }
        }
    }

    /// This state in the mode `state`.
    pub open spec fn in_mode(self, state: Mode) -> AppView {
        AppView { state, ..self }
    }

    /// This state with the row `selected` selected.
    pub open spec fn select(self, selected: Option<usize>) -> AppView {
        AppView { selected, ..self }
    }

    /// What is left to do after the kill key: to terminate the selected process, if a
    /// process is selected.
    pub open spec fn kill_action(self) -> Action {
        match self.selected_pid() {
            Some(pid) => Action::Kill(pid as usize),
            None => Action::Nothing,
        }
    }

    /// The state after the key `key`, and what is left to do.
    pub open spec fn after_key(self, key: Key) -> (AppView, Action) {
        match self.state {
            Mode::ShowList => match key {
                Key::Esc => (self.escaped(), Action::Nothing),
                Key::Up => (self.select(previous_row(self.selected)), Action::Nothing),
                Key::Down => (self.select(next_row(self.selected)), Action::Nothing),
                Key::Char(c) => if c == 'k' {
                    (self.select(previous_row(self.selected)), Action::Nothing)
                } else if c == 'j' {
                    (self.select(next_row(self.selected)), Action::Nothing)
                } else if c == '?' {
                    (self.in_mode(Mode::ShowHelp), Action::Nothing)
                } else if c == '/' {
                    (self.in_mode(Mode::EditFilter(self.filter)), Action::Nothing)
                } else if c == 'x' {
                    (self, self.kill_action())
                } else {
                    (self, Action::Nothing)
                },
                _ => (self, Action::Nothing),
            },
            Mode::ShowHelp => match key {
                Key::Esc => (self.in_mode(Mode::ShowList), Action::Nothing),
                Key::Char(c) => if c == '?' {
                    (self.in_mode(Mode::ShowList), Action::Nothing)
                } else {
                    (self, Action::Nothing)
                },
                _ => (self, Action::Nothing),
            },
            Mode::EditFilter(filter) => match key {
                Key::Enter => (
                    AppView { filter, state: Mode::ShowList, ..self },
                    Action::Nothing,
                ),
                Key::Esc => (self.in_mode(Mode::ShowList), Action::Nothing),
                _ => (self.in_mode(Mode::EditFilter(edited(filter, key))), Action::Nothing),
            },
        }
    }
}

/// Calls `TableState::select_next` of `ratatui` on a table state in which the row `selected`
/// is selected, and gives the row that is selected then: the row after it, unless it is the
/// largest row number, and the first row where none was selected.
#[verifier::external_body]
fn select_next(selected: Option<usize>) -> (next: Option<usize>)
    ensures
        next == next_row(selected),
{
    let mut table = TableState::new().with_selected(selected);
    table.select_next();
    table.selected()
}

/// Calls `TableState::select_previous` of `ratatui` on a table state in which the row
/// `selected` is selected, and gives the row that is selected then: the row before it, unless
/// it is the first, and the largest row number where none was selected.
#[verifier::external_body]
fn select_previous(selected: Option<usize>) -> (previous: Option<usize>)
    ensures
        previous == previous_row(selected),
{
    let mut table = TableState::new().with_selected(selected);
    table.select_previous();
    table.selected()
}

/// Calls `String::push`: the string gains `c` at its end.
#[verifier::external_body]
fn push_char(text: &mut String, c: char)
    ensures
        final(text)@ == old(text)@.push(c),
{
    text.push(c)
}

/// Calls `String::pop`: the string loses its last character, if it has one.
#[verifier::external_body]
fn pop_char(text: &mut String)
    ensures
        final(text)@ == if old(text)@.len() > 0 {
            old(text)@.drop_last()
        } else {
            old(text)@
        },
{
    text.pop();
}

/// Adds the character of `key` to the filter text, if `key` is a character key.
pub fn edit_filter_text(filter: &mut String, key: Key)
    ensures
        final(filter)@ == match key {
            Key::Char(c) => old(filter)@.push(c),
            _ => old(filter)@,
        },
{
    let c = match key {
        Key::Char(c) => c,
        _ => {
            return ;
        },
    };
    push_char(filter, c);
}

impl App {
    /// The state at the start: the list of `processes`, filtered by `filter`. Where the
    /// list has exactly one row, that row is selected.
    pub fn new(filter: String, processes: Vec<Process>) -> (app: App)
        ensures
            app@ == (AppView {
                processes: processes.deep_view(),
                exit: false,
                selected: initial_selection(visible(processes.deep_view(), filter@)),
                filter: filter@,
                state: Mode::ShowList,
            }),
    {
        let rows = apply_filter(processes.as_slice(), filter.as_str()).len();
        let selected = if rows == 1 {
            Some(0)
        } else {
            None
        };
        App { processes, exit: false, selected, filter, state: AppState::ShowList }
    }

    /// The filter text that counts in the current mode.
    pub fn active_filter(&self) -> (filter: &str)
        ensures
            filter@ == self@.active_filter(),
    {
        match &self.state {
            AppState::ShowList | AppState::ShowHelp => self.filter.as_str(),
            AppState::EditFilter(filter) => filter.as_str(),
        }
    }

    /// The processes that the display lists.
    pub fn filtered_list(&self) -> (view: Vec<&Process>)
        ensures
            view.deep_view() == self@.filtered_list(),
    {
        apply_filter(self.processes.as_slice(), self.active_filter())
    }

    /// Replaces the inventory by `fresh`, if there is one, and keeps the selection on the
    /// process that was selected.
    pub fn refresh_processes(&mut self, fresh: Option<Vec<Process>>)
        ensures
            final(self)@ == old(self)@.refreshed(fresh.deep_view()),
    {
        // To keep a stable selection, remember the pid of the selected process before the
        // update and find it again after.
        let selected_pid = self.selected_pid();
        if let Some(procs) = fresh {
            self.processes = procs;
        }
        if let Some(selected_pid) = selected_pid {
            let view = self.filtered_list();
            let i = preserve_selection(Some(selected_pid), view.as_slice());
            self.selected = i;
        }
    }

    /// Leaves the display.
    pub fn exit(&mut self)
        ensures
            final(self)@ == (AppView { exit: true, ..old(self)@ }),
    {
        self.exit = true;
    }

    /// Takes the escape key in the list: clears the filter, or leaves the display where
    /// there is no filter.
    pub fn handle_escape(&mut self)
        ensures
            final(self)@ == old(self)@.escaped(),
    {
        if self.filter.as_str().is_empty() {
            self.exit();
        } else {
            self.filter = String::new();
        }
    }

    /// The pid of the selected process, where a row of the list is selected.
    pub fn selected_pid(&self) -> (pid: Option<usize>)
        ensures
            match pid {
                Some(pid) => self@.selected_pid() == Some(pid as nat),
                None => self@.selected_pid() is None,
            },
    {
        let view = self.filtered_list();
        selected_pid(view.as_slice(), self.selected)
    }

    /// Takes the kill key: asks to terminate the selected process, if a process is
    /// selected.
    pub fn kill_selected(&self) -> (action: Action)
        ensures
            action == self@.kill_action(),
    {
        match self.selected_pid() {
            Some(pid) => Action::Kill(pid),
            None => Action::Nothing,
        }
    }

    /// Takes a key and says what is left to do.
    pub fn handle_key_event(&mut self, key: Key) -> (action: Action)
        ensures
            (final(self)@, action) == old(self)@.after_key(key),
    {
        match &mut self.state {
            AppState::ShowList => match key {
                Key::Esc => {
                    self.handle_escape();
                    Action::Nothing
                },
                Key::Up | Key::Char('k') => {
                    self.selected = select_previous(self.selected);
                    Action::Nothing
                },
                Key::Down | Key::Char('j') => {
                    self.selected = select_next(self.selected);
                    Action::Nothing
                },
                Key::Char('?') => {
                    self.state = AppState::ShowHelp;
                    Action::Nothing
                },
                Key::Char('/') => {
                    self.state = AppState::EditFilter(self.filter.clone());
                    Action::Nothing
                },
                Key::Char('x') => self.kill_selected(),
                _ => Action::Nothing,
            },
            AppState::ShowHelp => match key {
                Key::Esc | Key::Char('?') => {
                    self.state = AppState::ShowList;
                    Action::Nothing
                },
                _ => Action::Nothing,
            },
            AppState::EditFilter(filter) => match key {
                Key::Enter => {
                    self.filter = filter.clone();
                    self.state = AppState::ShowList;
                    Action::Nothing
                },
                Key::Esc => {
                    self.state = AppState::ShowList;
                    Action::Nothing
                },
                Key::Backspace => {
                    pop_char(filter);
                    Action::Nothing
                },
                key => {
                    edit_filter_text(filter, key);
                    Action::Nothing
                },
            },
        }
    }
}

/// The selection follows the process, not the row. Where a row of the list is selected and
/// the inventory is replaced, the selection stands on the first row of the new list that
/// shows the same pid, wherever that row is; and where the new list shows that pid no more,
/// nothing is selected.
pub proof fn selection_follows_pid(app: AppView, fresh: Option<Seq<Entry>>)
    requires
        app.selected_pid() is Some,
        app.with_inventory(fresh).filtered_list().len() <= usize::MAX,
    ensures
        ({
            let pid = app.selected_pid().unwrap();
            let list = app.refreshed(fresh).filtered_list();
            match app.refreshed(fresh).selected {
                Some(j) => j < list.len() && list[j as int].pid == pid && forall|k: int|
                    0 <= k < j ==> (#[trigger] list[k]).pid != pid,
                None => forall|k: int| 0 <= k < list.len() ==> (#[trigger] list[k]).pid != pid,
            }
        }),
{
    position_of_is_first(app.with_inventory(fresh).filtered_list(), app.selected_pid().unwrap());
}

/// A refresh that brings nothing new leaves the selection where it is, provided that no
/// row above the selected one shows the same pid.
pub proof fn refresh_without_change_keeps_selection(app: AppView)
    requires
        app.selected_pid() is Some,
        forall|k: int|
            0 <= k < app.selected.unwrap() ==> (#[trigger] app.filtered_list()[k]).pid
                != app.selected_pid().unwrap(),
    ensures
        app.refreshed(None) == app,
        app.refreshed(Some(app.processes)) == app,
{
    let list = app.filtered_list();
    let row = app.selected.unwrap();
    position_of_is_first(list, app.selected_pid().unwrap());
    assert(list[row as int].pid == app.selected_pid().unwrap());
    assert(app.with_inventory(Some(app.processes)) == app);
}

/// A move down and a move up undo each other, wherever there is a row to move to.
pub proof fn moves_undo_each_other(row: usize)
    ensures
        row < usize::MAX ==> previous_row(next_row(Some(row))) == Some(row),
        row > 0 ==> next_row(previous_row(Some(row))) == Some(row),
{
}

} // verus!
