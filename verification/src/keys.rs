//! What the keys do.

use crate::app::{App, AppView, DeletionProgress, DeletionView};
use crate::scanner::new_thread_activities;
use crate::{node, paths, scanner, screen, tree};
use vstd::prelude::*;

verus! {

broadcast use node::lemma_view;

/// How many children a page up or down moves.
pub const PAGE_SIZE: usize = 20;

/// The keys that the browser knows.
#[derive(Clone, Copy, Debug, PartialEq, Eq, Structural)]
pub enum KeyCode {
    Char(char),
    Up,
    Down,
    Left,
    Right,
    Enter,
    Backspace,
    Esc,
    PageUp,
    PageDown,
    Home,
    End,
    /// Any other key.
    Other,
}

/// A key that was pressed, and whether the control key was held.
#[derive(Clone, Copy, Debug, PartialEq, Eq, Structural)]
pub struct Key {
    pub code: KeyCode,
    pub control: bool,
}

/// What is to be done outside of the browser after a key was pressed.
#[derive(Debug)]
pub enum Action {
    Nothing,
    /// Read all children of the directory at `path`.
    Expand { path: String, breadcrumbs: Vec<usize> },
    /// Remove the file at the path, and report whether that worked.
    DeleteFile(String),
    /// Remove the directory at the path with all that is in it, in the
    /// background.
    DeleteDirectory(String),
}

/// What an [`Action`] holds, as mathematical values.
#[verifier::ext_equal]
pub enum ActionView {
    Nothing,
    Expand { path: Seq<char>, breadcrumbs: Seq<usize> },
    DeleteFile(Seq<char>),
    DeleteDirectory(Seq<char>),
}

impl View for Action {
    type V = ActionView;

    open spec fn view(&self) -> ActionView {
        match *self {
            Action::Nothing => ActionView::Nothing,
            Action::Expand { path, breadcrumbs } => ActionView::Expand {
                path: path@,
                breadcrumbs: breadcrumbs@,
            },
            Action::DeleteFile(path) => ActionView::DeleteFile(path@),
            Action::DeleteDirectory(path) => ActionView::DeleteDirectory(path@),
        }
    }
}

impl AppView {
    /// The path of the selected child, where the breadcrumbs lead to a
    /// directory that has one.
    pub open spec fn selected_path(self) -> Option<Seq<char>> {
        match self.tree {
            Some(t) => match tree::descendant(t.root, self.breadcrumbs) {
                Some(n) => match self.dir_path() {
                    Some(dir) if self.selected_index < n.children.len() => Some(
                        paths::joined(dir, n.children[self.selected_index].name),
                    ),
                    _ => None,
                },
                None => None,
            },
            None => None,
        }
    }

    /// Asking whether the selected child is to be deleted, unless a deletion
    /// is running.
    pub open spec fn asking_to_delete(self) -> AppView {
        match self.selected() {
            Some(child) if self.active_deletion is None => AppView {
                delete_target_name: child.name,
                delete_is_dir: child.is_dir,
                delete_input: Seq::empty(),
                view: screen::View::DeleteConfirm,
                ..self
            },
            _ => self,
        }
    }

    /// The deletion of the selected directory has begun.
    pub open spec fn deleting(self) -> AppView {
        AppView {
            delete_breadcrumbs: self.breadcrumbs,
            delete_child_index: self.selected_index,
            active_deletion: Some(
                DeletionView {
                    name: self.delete_target_name,
                    bytes_deleted: 0,
                    files_deleted: 0,
                    dirs_deleted: 0,
                    original_size: match self.selected() {
                        Some(child) => child.size as u64,
                        None => 0,
                    },
                },
            ),
            thread_activities: match self.thread_activities {
                Some(slots) => Some(slots),
                None => Some(seq![Seq::<char>::empty()]),
            },
            show_threads: true,
            ..self
        }
    }

    /// The state after a key in the browser, and what is to be done.
    pub open spec fn pressed_browsing(self, code: KeyCode) -> (AppView, ActionView) {
        match code {
            KeyCode::Char('q') => (AppView { should_quit: true, ..self }, ActionView::Nothing),
            KeyCode::Up | KeyCode::Char('k') => (self.one_up(), ActionView::Nothing),
            KeyCode::Down | KeyCode::Char('j') => (self.one_down(), ActionView::Nothing),
            KeyCode::Right | KeyCode::Enter | KeyCode::Char('l') => (
                self.inside(),
                ActionView::Nothing,
            ),
            KeyCode::Left | KeyCode::Backspace | KeyCode::Char('h') => (
                self.above(),
                ActionView::Nothing,
            ),
            KeyCode::Char('s') => (
                self.ordered(self.sort_order.following()),
                ActionView::Nothing,
            ),
            KeyCode::Char('n') => (
                self.ordered(self.sort_order.toward_names()),
                ActionView::Nothing,
            ),
            KeyCode::Char('g') => (
                AppView { show_bars: !self.show_bars, ..self },
                ActionView::Nothing,
            ),
            KeyCode::Char('d') => (self.asking_to_delete(), ActionView::Nothing),
            KeyCode::Char(' ') => (
                AppView {
                    show_threads: if self.scanning || self.active_deletion is Some {
                        !self.show_threads
                    } else {
                        self.show_threads
                    },
                    ..self
                },
                ActionView::Nothing,
            ),
            KeyCode::Char('e') => match self.dir_path() {
                Some(path) if self.aggregated() && !self.expanding => (
                    AppView { expanding: true, ..self },
                    ActionView::Expand { path, breadcrumbs: self.breadcrumbs },
                ),
                _ => (self, ActionView::Nothing),
            },
            KeyCode::Char('?') => (
                AppView { view: screen::View::Help, ..self },
                ActionView::Nothing,
            ),
            KeyCode::PageDown => (self.page_below(PAGE_SIZE as nat), ActionView::Nothing),
            KeyCode::PageUp => (self.page_above(PAGE_SIZE as nat), ActionView::Nothing),
            KeyCode::Home => (self.at_first(), ActionView::Nothing),
            KeyCode::End => (self.at_last(), ActionView::Nothing),
            _ => (self, ActionView::Nothing),
        }
    }

    /// The state after a key while a deletion is to be confirmed, and what is
    /// to be done. Of a directory the name has to be typed; for a file a key
    /// is enough.
    pub open spec fn pressed_confirming(self, code: KeyCode) -> (AppView, ActionView) {
        if self.delete_is_dir {
            match code {
                KeyCode::Char(c) => (
                    AppView { delete_input: self.delete_input.push(c), ..self },
                    ActionView::Nothing,
                ),
                KeyCode::Backspace => (
                    AppView {
                        delete_input: if self.delete_input.len() > 0 {
                            self.delete_input.drop_last()
                        } else {
                            self.delete_input
                        },
                        ..self
                    },
                    ActionView::Nothing,
                ),
                KeyCode::Enter if self.delete_input == self.delete_target_name => {
                    match self.selected_path() {
                        Some(path) => (
                            AppView { view: screen::View::Browser, ..self.deleting() },
                            ActionView::DeleteDirectory(path),
                        ),
                        None => (
                            AppView { view: screen::View::Browser, ..self },
                            ActionView::Nothing,
                        ),
                    }
                },
                KeyCode::Esc => (
                    AppView {
                        delete_input: Seq::empty(),
                        view: screen::View::Browser,
                        ..self
                    },
                    ActionView::Nothing,
                ),
                _ => (self, ActionView::Nothing),
            }
        } else {
            match code {
                KeyCode::Char('y') => (
                    AppView { view: screen::View::Browser, ..self },
                    match self.selected_path() {
                        Some(path) => ActionView::DeleteFile(path),
                        None => ActionView::Nothing,
                    },
                ),
                KeyCode::Char('n') | KeyCode::Esc => (
                    AppView { view: screen::View::Browser, ..self },
                    ActionView::Nothing,
                ),
                _ => (self, ActionView::Nothing),
            }
        }
    }

    /// The state after a key, and what is to be done.
    pub open spec fn pressed(self, key: Key) -> (AppView, ActionView) {
        if key.control && key.code == KeyCode::Char('c') {
            (AppView { should_quit: true, ..self }, ActionView::Nothing)
        } else {
            match self.view {
                screen::View::Scanning => match key.code {
                    KeyCode::Char('q') => (
                        AppView { should_quit: true, ..self },
                        ActionView::Nothing,
                    ),
                    _ => (self, ActionView::Nothing),
                },
                screen::View::Browser => self.pressed_browsing(key.code),
                screen::View::Help => match key.code {
                    KeyCode::Char('?') | KeyCode::Esc | KeyCode::Char('q') => (
                        AppView { view: screen::View::Browser, ..self },
                        ActionView::Nothing,
                    ),
                    _ => (self, ActionView::Nothing),
                },
                screen::View::DeleteConfirm => self.pressed_confirming(key.code),
            }
        }
    }
}

/// The path of the selected child.
pub fn build_selected_path(app: &App) -> (r: Option<String>)
    ensures
        match r {
            Some(p) => app@.selected_path() == Some(p@),
            None => app@.selected_path() is None,
        },
{
    match &app.tree {
        Some(t) => match t.node_at(app.breadcrumbs.as_slice()) {
            Some(n) => {
                if app.selected_index >= n.children.len() {
                    return None;
                }
                match app.current_dir_path() {
                    Some(dir) => Some(
                        paths::join(dir.as_str(), n.children[app.selected_index].name.as_str()),
                    ),
                    None => None,
                }
            },
            None => None,
        },
        None => None,
    }
}

/// Begins the deletion of the selected directory; what is to be removed is
/// returned.
pub fn start_async_delete(app: &mut App) -> (r: Option<String>)
    ensures
        match r {
            Some(p) => old(app)@.selected_path() == Some(p@) && final(app)@ == old(app)@.deleting(),
            None => old(app)@.selected_path() is None && final(app)@ == old(app)@,
        },
{
    let item_path = match build_selected_path(app) {
        Some(p) => p,
        None => {
            return None;
        },
    };
    let original_size: u64 = match app.current_node() {
        Some(n) => if app.selected_index < n.children.len() {
            n.children[app.selected_index].size
        } else {
            0
        },
        None => 0,
    };
    app.delete_breadcrumbs = app.breadcrumbs.clone();
    app.delete_child_index = app.selected_index;
    app.active_deletion = Some(
        DeletionProgress {
            name: app.delete_target_name.clone(),
            bytes_deleted: 0,
            files_deleted: 0,
            dirs_deleted: 0,
            original_size,
        },
    );
    if app.thread_activities.is_none() {
        let activities = new_thread_activities(1);
        assert(scanner::texts(activities@) =~= seq![Seq::<char>::empty()]);
        app.thread_activities = Some(activities);
    }
    app.show_threads = true;
    assert(app@.delete_breadcrumbs =~= old(app)@.breadcrumbs);
    assert(app@ =~= old(app)@.deleting());
    Some(item_path)
}

fn ask_to_delete(app: &mut App)
    ensures
        final(app)@ == old(app)@.asking_to_delete(),
{
    if app.child_count() > 0 && app.active_deletion.is_none() {
        let info = match app.current_node() {
            Some(n) => if app.selected_index < n.children.len() {
                let child = &n.children[app.selected_index];
                Some((child.name.clone(), child.is_dir))
            } else {
                None
            },
            None => None,
        };
        if let Some((name, is_dir)) = info {
            app.delete_target_name = name;
            app.delete_is_dir = is_dir;
            app.delete_input = String::new();
            app.view = screen::View::DeleteConfirm;
        }
    }
}

fn ask_to_expand(app: &mut App) -> (r: Action)
    ensures
        (final(app)@, r@) == old(app)@.pressed_browsing(KeyCode::Char('e')),
{
    if app.is_aggregated() && !app.expanding {
        if let Some(path) = app.current_dir_path() {
            app.expanding = true;
            let breadcrumbs = app.breadcrumbs.clone();
            assert(breadcrumbs@ =~= app@.breadcrumbs);
            return Action::Expand { path, breadcrumbs };
        }
    }
    Action::Nothing
}

fn press_browsing(app: &mut App, code: KeyCode) -> (r: Action)
    requires
        code == KeyCode::PageDown && old(app)@.count() > 0 ==> old(app).selected_index + PAGE_SIZE
            <= usize::MAX,
    ensures
        (final(app)@, r@) == old(app)@.pressed_browsing(code),
{
    match code {
        KeyCode::Char('q') => {
            app.should_quit = true;
        },
        KeyCode::Up | KeyCode::Char('k') => app.select_previous(),
        KeyCode::Down | KeyCode::Char('j') => app.select_next(),
        KeyCode::Right | KeyCode::Enter | KeyCode::Char('l') => app.enter_directory(),
        KeyCode::Left | KeyCode::Backspace | KeyCode::Char('h') => app.go_up(),
        KeyCode::Char('s') => app.cycle_sort(),
        KeyCode::Char('n') => app.sort_by_name(),
        KeyCode::Char('g') => {
            app.show_bars = !app.show_bars;
        },
        KeyCode::Char('d') => ask_to_delete(app),
        KeyCode::Char(' ') => {
            if app.scanning || app.active_deletion.is_some() {
                app.show_threads = !app.show_threads;
            }
        },
        KeyCode::Char('e') => {
            return ask_to_expand(app);
        },
        KeyCode::Char('?') => {
            app.view = screen::View::Help;
        },
        KeyCode::PageDown => app.page_down(PAGE_SIZE),
        KeyCode::PageUp => app.page_up(PAGE_SIZE),
        KeyCode::Home => app.select_first(),
        KeyCode::End => app.select_last(),
        _ => {},
    }
    Action::Nothing
}

fn press_confirming(app: &mut App, code: KeyCode) -> (r: Action)
    ensures
        (final(app)@, r@) == old(app)@.pressed_confirming(code),
{
    if app.delete_is_dir {
        match code {
            KeyCode::Char(c) => app.delete_input.push(c),
            KeyCode::Backspace => {
                let _ = app.delete_input.pop();
            },
            KeyCode::Enter => {
                if app.delete_input == app.delete_target_name {
                    let started = start_async_delete(app);
                    app.view = screen::View::Browser;
                    if let Some(path) = started {
                        return Action::DeleteDirectory(path);
                    }
                }
            },
            KeyCode::Esc => {
                app.delete_input = String::new();
                app.view = screen::View::Browser;
            },
            _ => {},
        }
    } else {
        match code {
            KeyCode::Char('y') => {
                let path = build_selected_path(app);
                app.view = screen::View::Browser;
                if let Some(path) = path {
                    return Action::DeleteFile(path);
                }
            },
            KeyCode::Char('n') | KeyCode::Esc => {
                app.view = screen::View::Browser;
            },
            _ => {},
        }
    }
    Action::Nothing
}

/// Takes in a key; what is left to do is returned.
pub fn handle_key(app: &mut App, key: Key) -> (r: Action)
    requires
        old(app)@.view == screen::View::Browser && key.code == KeyCode::PageDown && old(
            app,
        )@.count() > 0 ==> old(app).selected_index + PAGE_SIZE <= usize::MAX,
    ensures
        (final(app)@, r@) == old(app)@.pressed(key),
{
    if key.control && key.code == KeyCode::Char('c') {
        app.should_quit = true;
        return Action::Nothing;
    }
    match app.view {
        screen::View::Scanning => {
            if key.code == KeyCode::Char('q') {
                app.should_quit = true;
            }
            Action::Nothing
        },
        screen::View::Browser => press_browsing(app, key.code),
        screen::View::Help => {
            match key.code {
                KeyCode::Char('?') | KeyCode::Esc | KeyCode::Char('q') => {
                    app.view = screen::View::Browser;
                },
                _ => {},
            }
            Action::Nothing
        },
        screen::View::DeleteConfirm => press_confirming(app, key.code),
    }
}

} // verus!
