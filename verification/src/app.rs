//! The state of the terminal browser and how it moves.

use crate::node::{FileNode, NodeView};
use crate::scanner::{Elapsed, ElapsedView, MessageView, ScanMessage, ThreadActivities};
use crate::screen::SortOrder;
use crate::tree::{FileTree, TreeView};
use crate::{node, paths, scanner, screen, tree};
use vstd::prelude::*;

verus! {

broadcast use node::lemma_view;

/// How far the scan has come.
#[derive(Debug)]
pub struct ScanProgress {
    pub files_count: u64,
    pub dirs_count: u64,
    pub total_size: u64,
    pub errors_count: u64,
    pub current_path: String,
    pub elapsed: Elapsed,
    pub entries_per_sec: u64,
    pub stat_threads: usize,
    pub dirs_queued: usize,
}

/// What [`ScanProgress`] holds, as mathematical values.
#[verifier::ext_equal]
pub struct ProgressView {
    pub files_count: u64,
    pub dirs_count: u64,
    pub total_size: u64,
    pub errors_count: u64,
    pub current_path: Seq<char>,
    pub elapsed: ElapsedView,
    pub entries_per_sec: u64,
    pub stat_threads: usize,
    pub dirs_queued: usize,
}

impl View for ScanProgress {
    type V = ProgressView;

    open spec fn view(&self) -> ProgressView {
        ProgressView {
            files_count: self.files_count,
            dirs_count: self.dirs_count,
            total_size: self.total_size,
            errors_count: self.errors_count,
            current_path: self.current_path@,
            elapsed: self.elapsed@,
            entries_per_sec: self.entries_per_sec,
            stat_threads: self.stat_threads,
            dirs_queued: self.dirs_queued,
        }
    }
}

/// A scan that has just begun.
pub open spec fn no_progress() -> ProgressView {
    ProgressView {
        files_count: 0,
        dirs_count: 0,
        total_size: 0,
        errors_count: 0,
        current_path: Seq::empty(),
        elapsed: ElapsedView { whole_secs: 0, ticks: 0, decimal: "0.0"@ },
        entries_per_sec: 0,
        stat_threads: 0,
        dirs_queued: 0,
    }
}

impl Default for ScanProgress {
    fn default() -> (r: ScanProgress)
        ensures
            r@ == no_progress(),
    {
        ScanProgress {
            files_count: 0,
            dirs_count: 0,
            total_size: 0,
            errors_count: 0,
            current_path: String::new(),
            elapsed: Elapsed { whole_secs: 0, ticks: 0, decimal: "0.0".to_string() },
            entries_per_sec: 0,
            stat_threads: 0,
            dirs_queued: 0,
        }
    }
}

impl Clone for ScanProgress {
    fn clone(&self) -> (r: Self)
        ensures
            r@ == self@,
    {
        ScanProgress {
            files_count: self.files_count,
            dirs_count: self.dirs_count,
            total_size: self.total_size,
            errors_count: self.errors_count,
            current_path: self.current_path.clone(),
            elapsed: self.elapsed.clone(),
            entries_per_sec: self.entries_per_sec,
            stat_threads: self.stat_threads,
            dirs_queued: self.dirs_queued,
        }
    }
}

/// How far the deletion of a directory has come.
#[derive(Debug)]
pub struct DeletionProgress {
    pub name: String,
    pub bytes_deleted: u64,
    pub files_deleted: u64,
    pub dirs_deleted: u64,
    pub original_size: u64,
}

/// What [`DeletionProgress`] holds, as mathematical values.
#[verifier::ext_equal]
pub struct DeletionView {
    pub name: Seq<char>,
    pub bytes_deleted: u64,
    pub files_deleted: u64,
    pub dirs_deleted: u64,
    pub original_size: u64,
}

impl View for DeletionProgress {
    type V = DeletionView;

    open spec fn view(&self) -> DeletionView {
        DeletionView {
            name: self.name@,
            bytes_deleted: self.bytes_deleted,
            files_deleted: self.files_deleted,
            dirs_deleted: self.dirs_deleted,
            original_size: self.original_size,
        }
    }
}

/// The state of the browser.
#[derive(Debug)]
pub struct App {
    pub view: screen::View,
    pub tree: Option<FileTree>,
    /// The way from the root to the directory shown, by child indices.
    pub breadcrumbs: Vec<usize>,
    pub selected_index: usize,
    pub sort_order: SortOrder,
    pub show_bars: bool,
    pub scan_progress: ScanProgress,
    pub scanning: bool,
    pub should_quit: bool,
    /// The first child on the screen.
    pub scroll_offset: usize,
    pub error_message: Option<String>,
    pub show_threads: bool,
    pub thread_activities: Option<ThreadActivities>,
    pub expanding: bool,
    /// The directory deletion that runs in the background.
    pub active_deletion: Option<DeletionProgress>,
    /// What is to be deleted once the user confirms it.
    pub delete_target_name: String,
    pub delete_is_dir: bool,
    /// What the user has typed to confirm.
    pub delete_input: String,
    /// Where the directory stands that is being deleted.
    pub delete_breadcrumbs: Vec<usize>,
    pub delete_child_index: usize,
}

/// What an [`App`] holds, as mathematical values.
#[verifier::ext_equal]
pub struct AppView {
    pub view: screen::View,
    pub tree: Option<TreeView>,
    pub breadcrumbs: Seq<usize>,
    pub selected_index: int,
    pub sort_order: SortOrder,
    pub show_bars: bool,
    pub scan_progress: ProgressView,
    pub scanning: bool,
    pub should_quit: bool,
    pub scroll_offset: int,
    pub error_message: Option<Seq<char>>,
    pub show_threads: bool,
    pub thread_activities: Option<Seq<Seq<char>>>,
    pub expanding: bool,
    pub active_deletion: Option<DeletionView>,
    pub delete_target_name: Seq<char>,
    pub delete_is_dir: bool,
    pub delete_input: Seq<char>,
    pub delete_breadcrumbs: Seq<usize>,
    pub delete_child_index: int,
}

impl View for App {
    type V = AppView;

    open spec fn view(&self) -> AppView {
        AppView {
            view: self.view,
            tree: match self.tree {
                Some(t) => Some(t@),
                None => None,
            },
            breadcrumbs: self.breadcrumbs@,
            selected_index: self.selected_index as int,
            sort_order: self.sort_order,
            show_bars: self.show_bars,
            scan_progress: self.scan_progress@,
            scanning: self.scanning,
            should_quit: self.should_quit,
            scroll_offset: self.scroll_offset as int,
            error_message: match self.error_message {
                Some(text) => Some(text@),
                None => None,
            },
            show_threads: self.show_threads,
            thread_activities: scanner::slot_texts(self.thread_activities),
            expanding: self.expanding,
            active_deletion: match self.active_deletion {
                Some(d) => Some(d@),
                None => None,
            },
            delete_target_name: self.delete_target_name@,
            delete_is_dir: self.delete_is_dir,
            delete_input: self.delete_input@,
            delete_breadcrumbs: self.delete_breadcrumbs@,
            delete_child_index: self.delete_child_index as int,
        }
    }
}

/// The state in which the browser starts.
pub open spec fn at_start() -> AppView {
    AppView {
        view: screen::View::Scanning,
        tree: None,
        breadcrumbs: Seq::empty(),
        selected_index: 0,
        sort_order: SortOrder::SizeDesc,
        show_bars: true,
        scan_progress: no_progress(),
        scanning: true,
        should_quit: false,
        scroll_offset: 0,
        error_message: None,
        show_threads: false,
        thread_activities: None,
        expanding: false,
        active_deletion: None,
        delete_target_name: Seq::empty(),
        delete_is_dir: false,
        delete_input: Seq::empty(),
        delete_breadcrumbs: Seq::empty(),
        delete_child_index: 0,
    }
}

/// The part of a way that can still be taken from `node`.
pub open spec fn passable(node: NodeView, path: Seq<usize>) -> Seq<usize>
    decreases path.len(),
{
    if path.len() == 0 || tree::descendant(node, path) is Some {
        path
    } else {
        passable(node, path.drop_last())
    }
}

/// The path of the directory reached from `node`, which itself has `path`;
/// `None` where the way cannot be taken.
pub open spec fn path_along(path: Seq<char>, node: NodeView, way: Seq<usize>) -> Option<Seq<char>>
    decreases way.len(),
{
    if way.len() == 0 {
        Some(path)
    } else if way[0] < node.children.len() {
        let child = node.children[way[0] as int];
        path_along(paths::joined(path, child.name), child, way.drop_first())
    } else {
        None
    }
}

impl AppView {
    /// The directory shown: the one that the breadcrumbs lead to, or the root
    /// where they lead nowhere.
    pub open spec fn current(self) -> Option<NodeView> {
        match self.tree {
            Some(t) => match tree::descendant(t.root, self.breadcrumbs) {
                Some(n) => Some(n),
                None => Some(t.root),
            },
            None => None,
        }
    }

    /// How many children are listed.
    pub open spec fn count(self) -> nat {
        match self.current() {
            Some(n) => n.children.len(),
            None => 0,
        }
    }

    /// Whether the directory shown has more children than are listed.
    pub open spec fn aggregated(self) -> bool {
        match self.current() {
            Some(n) => n.child_count > n.children.len(),
            None => false,
        }
    }

    /// The child that is selected.
    pub open spec fn selected(self) -> Option<NodeView> {
        match self.current() {
            Some(n) => if self.selected_index < n.children.len() {
                Some(n.children[self.selected_index])
            } else {
                None
            },
            None => None,
        }
    }

    /// The path of the directory that the breadcrumbs lead to.
    pub open spec fn dir_path(self) -> Option<Seq<char>> {
        match self.tree {
            Some(t) => path_along(t.root_path, t.root, self.breadcrumbs),
            None => None,
        }
    }

    /// Scrolled back if the selection lies before what is on the screen.
    pub open spec fn revealed(self) -> AppView {
        AppView {
            scroll_offset: if self.selected_index < self.scroll_offset {
                self.selected_index
            } else {
                self.scroll_offset
            },
            ..self
        }
    }

    /// With the child at `index` selected.
    pub open spec fn selecting(self, index: int) -> AppView {
        (AppView { selected_index: index, ..self }).revealed()
    }

    /// Inside the selected child, if it is a directory.
    pub open spec fn inside(self) -> AppView {
        match self.selected() {
            Some(child) => if child.is_dir {
                AppView {
                    breadcrumbs: self.breadcrumbs.push(self.selected_index as usize),
                    selected_index: 0,
                    scroll_offset: 0,
                    ..self
                }
            } else {
                self
            },
            None => self,
        }
    }

    /// Back in the directory above, if there is one.
    pub open spec fn above(self) -> AppView {
        if self.breadcrumbs.len() > 0 {
            (AppView { breadcrumbs: self.breadcrumbs.drop_last(), ..self }).selecting(
                self.breadcrumbs.last() as int,
            )
        } else {
            self
        }
    }

    /// One child further down.
    pub open spec fn one_down(self) -> AppView {
        if self.selected_index + 1 < self.count() {
            self.selecting(self.selected_index + 1)
        } else {
            self
        }
    }

    /// One child further up.
    pub open spec fn one_up(self) -> AppView {
        if self.selected_index > 0 {
            self.selecting(self.selected_index - 1)
        } else {
            self
        }
    }

    /// `page` children further down, or at the last one.
    pub open spec fn page_below(self, page: nat) -> AppView {
        if self.count() == 0 {
            self
        } else if self.selected_index + page < self.count() {
            self.selecting(self.selected_index + page)
        } else {
            self.selecting(self.count() - 1)
        }
    }

    /// `page` children further up, or at the first one.
    pub open spec fn page_above(self, page: nat) -> AppView {
        if self.selected_index > page {
            self.selecting(self.selected_index - page)
        } else {
            self.selecting(0)
        }
    }

    /// At the first child.
    pub open spec fn at_first(self) -> AppView {
        AppView { selected_index: 0, scroll_offset: 0, ..self }
    }

    /// At the last child.
    pub open spec fn at_last(self) -> AppView {
        if self.count() > 0 {
            self.selecting(self.count() - 1)
        } else {
            self
        }
    }

    /// Scrolled so that the selection is among `height` rows.
    pub open spec fn scrolled(self, height: int) -> AppView {
        if height > 0 && self.selected_index >= self.scroll_offset + height {
            AppView { scroll_offset: self.selected_index - height + 1, ..self }
        } else if height > 0 {
            self.revealed()
        } else {
            self
        }
    }

    /// With the selection moved to the last child if it is behind it.
    pub open spec fn clamped(self) -> AppView {
        if self.count() > 0 && self.selected_index >= self.count() {
            AppView { selected_index: self.count() - 1, ..self }
        } else {
            self
        }
    }

    /// With the children of the directory shown in another order, and the
    /// first one selected.
    pub open spec fn ordered(self, order: SortOrder) -> AppView {
        AppView {
            sort_order: order,
            tree: match self.tree {
                Some(t) => match tree::descendant(t.root, self.breadcrumbs) {
                    Some(n) => Some(
                        TreeView {
                            root: tree::with_descendant(
                                t.root,
                                self.breadcrumbs,
                                NodeView {
                                    children: order.of_children().arranged(n.children),
                                    ..n
                                },
                            ),
                            ..t
                        },
                    ),
                    None => self.tree,
                },
                None => None,
            },
            selected_index: 0,
            scroll_offset: 0,
            ..self
        }
    }

    /// With the tree that a scan reports; the way to the directory shown is
    /// cut back to what the tree has of it.
    pub open spec fn with_tree(self, t: TreeView) -> AppView {
        let way = passable(t.root, self.breadcrumbs);
        AppView {
            tree: Some(t),
            breadcrumbs: way,
            selected_index: if way.len() < self.breadcrumbs.len() {
                0
            } else {
                self.selected_index
            },
            ..self
        }
    }

    /// With all children of the directory at `way`.
    pub open spec fn expanded(self, way: Seq<usize>, children: Seq<NodeView>) -> AppView {
        AppView {
            tree: match self.tree {
                Some(t) => match tree::descendant(t.root, way) {
                    Some(n) => Some(
                        TreeView {
                            root: tree::with_descendant(
                                t.root,
                                way,
                                NodeView { child_count: children.len(), children, ..n },
                            ),
                            ..t
                        },
                    ),
                    None => self.tree,
                },
                None => None,
            },
            ..self
        }
    }

    /// The state after a message from the background.
    pub open spec fn after(self, msg: MessageView) -> AppView {
        match msg {
            MessageView::Progress {
                tree,
                current_path,
                elapsed,
                entries_per_sec,
                stat_threads,
                dirs_queued,
            } => {
                (AppView {
                    scan_progress: ProgressView {
                        files_count: tree.total_files,
                        dirs_count: tree.total_dirs,
                        total_size: tree.root.size as u64,
                        errors_count: tree.total_errors,
                        current_path,
                        elapsed,
                        entries_per_sec,
                        stat_threads,
                        dirs_queued,
                    },
                    view: if self.view == screen::View::Scanning {
                        screen::View::Browser
                    } else {
                        self.view
                    },
                    ..self
                }).with_tree(tree).clamped()
            },
            MessageView::Counting {
                files_count,
                dirs_count,
                current_path,
                elapsed,
                entries_per_sec,
            } => AppView {
                scan_progress: ProgressView {
                    files_count,
                    dirs_count,
                    current_path,
                    elapsed,
                    entries_per_sec,
                    ..self.scan_progress
                },
                view: if self.view == screen::View::Scanning && self.tree is Some {
                    screen::View::Browser
                } else {
                    self.view
                },
                ..self
            },
            MessageView::Complete(tree) => (AppView {
                tree: Some(tree),
                scanning: false,
                view: screen::View::Browser,
                ..self
            }).clamped(),
            MessageView::ExpandResult { breadcrumbs, children } => (AppView {
                expanding: false,
                ..self
            }).expanded(breadcrumbs, children).clamped(),
            MessageView::Error(text) => AppView {
                error_message: Some(text),
                should_quit: true,
                ..self
            },
            MessageView::DeleteProgress { bytes_deleted, files_deleted, dirs_deleted } => AppView {
                active_deletion: match self.active_deletion {
                    Some(d) => Some(
                        DeletionView { bytes_deleted, files_deleted, dirs_deleted, ..d },
                    ),
                    None => None,
                },
                ..self
            },
            MessageView::DeleteComplete { .. } => AppView { active_deletion: None, ..self },
        }
    }
}

impl App {
    /// The browser before anything was scanned.
    pub fn new() -> (r: App)
        ensures
            r@ == at_start(),
    {
        App {
            view: screen::View::Scanning,
            tree: None,
            breadcrumbs: Vec::new(),
            selected_index: 0,
            sort_order: SortOrder::SizeDesc,
            show_bars: true,
            scan_progress: ScanProgress::default(),
            scanning: true,
            should_quit: false,
            scroll_offset: 0,
            error_message: None,
            show_threads: false,
            thread_activities: None,
            expanding: false,
            active_deletion: None,
            delete_target_name: String::new(),
            delete_is_dir: false,
            delete_input: String::new(),
            delete_breadcrumbs: Vec::new(),
            delete_child_index: 0,
        }
    }

    /// The directory shown.
    pub fn current_node(&self) -> (r: Option<&FileNode>)
        ensures
            match r {
                Some(n) => self@.current() == Some(n@),
                None => self@.current() is None,
            },
    {
        match &self.tree {
            Some(t) => match t.node_at(self.breadcrumbs.as_slice()) {
                Some(n) => Some(n),
                None => Some(&t.root),
            },
            None => None,
        }
    }

    /// The directory that the breadcrumbs lead to, to be changed in place;
    /// `None` where they lead nowhere.
    pub fn current_node_mut(&mut self) -> (r: Option<&mut FileNode>)
        ensures
            match r {
                Some(n) => {
                    &&& old(self)@.tree matches Some(t)
                    &&& tree::descendant(t.root, old(self)@.breadcrumbs) == Some(n@)
                    &&& final(self)@ == (AppView {
                        tree: Some(
                            TreeView {
                                root: tree::with_descendant(
                                    t.root,
                                    old(self)@.breadcrumbs,
                                    final(n)@,
                                ),
                                ..t
                            },
                        ),
                        ..old(self)@
                    })
                },
                None => {
                    &&& old(self)@.tree matches Some(t) ==> tree::descendant(
                        t.root,
                        old(self)@.breadcrumbs,
                    ) is None
                    &&& final(self)@ == old(self)@
                },
            },
    {
        match &mut self.tree {
            Some(t) => t.node_at_mut(self.breadcrumbs.as_slice()),
            None => None,
        }
    }

    /// How many children are listed of the directory shown.
    pub fn child_count(&self) -> (r: usize)
        ensures
            r == self@.count(),
    {
        match self.current_node() {
            Some(n) => n.children.len(),
            None => 0,
        }
    }

    /// Opens the selected child if it is a directory.
    pub fn enter_directory(&mut self)
        ensures
            final(self)@ == old(self)@.inside(),
    {
        match self.current_node() {
            Some(n) => {
                if self.selected_index >= n.children.len() {
                    return;
                }
                if !n.children[self.selected_index].is_dir {
                    return;
                }
            },
            None => {
                return;
            },
        }
        self.breadcrumbs.push(self.selected_index);
        self.selected_index = 0;
        self.scroll_offset = 0;
    }

    /// Goes back to the directory above and selects where it came from.
    pub fn go_up(&mut self)
        ensures
            final(self)@ == old(self)@.above(),
    {
        if let Some(parent_idx) = self.breadcrumbs.pop() {
            self.selected_index = parent_idx;
            self.ensure_visible();
        }
    }

    pub fn select_next(&mut self)
        ensures
            final(self)@ == old(self)@.one_down(),
    {
        let count = self.child_count();
        if count == 0 {
            return;
        }
        if self.selected_index < count - 1 {
            self.selected_index += 1;
            self.ensure_visible();
        }
    }

    pub fn select_previous(&mut self)
        ensures
            final(self)@ == old(self)@.one_up(),
    {
        if self.selected_index > 0 {
            self.selected_index -= 1;
            self.ensure_visible();
        }
    }

    /// Selects the child one page below, or the last one.
    pub fn page_down(&mut self, page_size: usize)
        requires
            old(self)@.count() > 0 ==> old(self).selected_index + page_size <= usize::MAX,
        ensures
            final(self)@ == old(self)@.page_below(page_size as nat),
    {
        let count = self.child_count();
        if count == 0 {
            return;
        }
        let below = self.selected_index + page_size;
        self.selected_index = if below < count {
            below
        } else {
            count - 1
        };
        self.ensure_visible();
    }

    /// Selects the child one page above, or the first one.
    pub fn page_up(&mut self, page_size: usize)
        ensures
            final(self)@ == old(self)@.page_above(page_size as nat),
    {
        self.selected_index = self.selected_index.saturating_sub(page_size);
        self.ensure_visible();
    }

    pub fn select_first(&mut self)
        ensures
            final(self)@ == old(self)@.at_first(),
    {
        self.selected_index = 0;
        self.scroll_offset = 0;
    }

    pub fn select_last(&mut self)
        ensures
            final(self)@ == old(self)@.at_last(),
    {
        let count = self.child_count();
        if count > 0 {
            self.selected_index = count - 1;
            self.ensure_visible();
        }
    }

    /// Lists the directory shown in the next order.
    pub fn cycle_sort(&mut self)
        ensures
            final(self)@ == old(self)@.ordered(old(self)@.sort_order.following()),
    {
        self.sort_order = self.sort_order.next();
        self.apply_sort();
    }

    /// Lists the directory shown by name.
    pub fn sort_by_name(&mut self)
        ensures
            final(self)@ == old(self)@.ordered(old(self)@.sort_order.toward_names()),
    {
        self.sort_order = self.sort_order.by_name();
        self.apply_sort();
    }

    fn apply_sort(&mut self)
        ensures
            final(self)@ == old(self)@.ordered(old(self)@.sort_order),
    {
        let sort_order = self.sort_order;
        if let Some(node) = self.current_node_mut() {
            match sort_order {
                SortOrder::SizeDesc => node.sort_by_size_desc(),
                SortOrder::SizeAsc => node.sort_by_size_asc(),
                SortOrder::NameAsc => node.sort_by_name_asc(),
                SortOrder::NameDesc => node.sort_by_name_desc(),
            }
        }
        self.selected_index = 0;
        self.scroll_offset = 0;
    }

    fn clamp_selection(&mut self)
        ensures
            final(self)@ == old(self)@.clamped(),
    {
        let count = self.child_count();
        if count > 0 && self.selected_index >= count {
            self.selected_index = count - 1;
        }
    }

    /// Takes in what the background reports.
    pub fn handle_scan_message(&mut self, msg: ScanMessage)
        ensures
            final(self)@ == old(self)@.after(msg@),
    {
        match msg {
            ScanMessage::Progress {
                tree,
                current_path,
                elapsed,
                entries_per_sec,
                stat_threads,
                dirs_queued,
            } => {
                let progress = ScanProgress {
                    files_count: tree.total_files,
                    dirs_count: tree.total_dirs,
                    total_size: tree.root.size,
                    errors_count: tree.total_errors,
                    current_path,
                    elapsed,
                    entries_per_sec,
                    stat_threads,
                    dirs_queued,
                };
                self.show_progress(progress, tree);
            },
            ScanMessage::Counting {
                files_count,
                dirs_count,
                current_path,
                elapsed,
                entries_per_sec,
            } => {
                self.scan_progress.files_count = files_count;
                self.scan_progress.dirs_count = dirs_count;
                self.scan_progress.current_path = current_path;
                self.scan_progress.elapsed = elapsed;
                self.scan_progress.entries_per_sec = entries_per_sec;
                if self.view == screen::View::Scanning && self.tree.is_some() {
                    self.view = screen::View::Browser;
                }
            },
            ScanMessage::Complete(tree) => {
                self.tree = Some(tree);
                self.scanning = false;
                self.view = screen::View::Browser;
                self.clamp_selection();
            },
            ScanMessage::ExpandResult { breadcrumbs, children } => {
                self.expanding = false;
                self.expand(breadcrumbs, children);
                self.clamp_selection();
            },
            ScanMessage::Error(text) => {
                self.error_message = Some(text);
                self.should_quit = true;
            },
            ScanMessage::DeleteProgress { bytes_deleted, files_deleted, dirs_deleted } => {
                if let Some(deletion) = &mut self.active_deletion {
                    deletion.bytes_deleted = bytes_deleted;
                    deletion.files_deleted = files_deleted;
                    deletion.dirs_deleted = dirs_deleted;
                }
            },
            ScanMessage::DeleteComplete { .. } => {
                self.active_deletion = None;
            },
        }
    }

    fn show_progress(&mut self, progress: ScanProgress, t: FileTree)
        ensures
            final(self)@ == (AppView {
                scan_progress: progress@,
                view: if old(self)@.view == screen::View::Scanning {
                    screen::View::Browser
                } else {
                    old(self)@.view
                },
                ..old(self)@
            }).with_tree(t@).clamped(),
    {
        self.scan_progress = progress;
        if self.view == screen::View::Scanning {
            self.view = screen::View::Browser;
        }
        self.show_tree(t);
        self.clamp_selection();
    }

    fn show_tree(&mut self, t: FileTree)
        ensures
            final(self)@ == old(self)@.with_tree(t@),
    {
        let ghost start = self@;
        let ghost root = t.root@;
        while self.breadcrumbs.len() > 0
            invariant_except_break
                passable(root, self@.breadcrumbs) == passable(root, start.breadcrumbs),
            invariant
                root == t.root@,
                self@.breadcrumbs.len() <= start.breadcrumbs.len(),
                self@ == (AppView {
                    breadcrumbs: self@.breadcrumbs,
                    selected_index: if self@.breadcrumbs.len() < start.breadcrumbs.len() {
                        0
                    } else {
                        start.selected_index
                    },
                    ..start
                }),
                self@.breadcrumbs.len() == start.breadcrumbs.len() ==> self@.breadcrumbs
                    == start.breadcrumbs,
            ensures
                self@.breadcrumbs == passable(root, start.breadcrumbs),
            decreases self.breadcrumbs.len(),
        {
            if t.node_at(self.breadcrumbs.as_slice()).is_some() {
                break;
            }
            let _ = self.breadcrumbs.pop();
            self.selected_index = 0;
        }
        self.tree = Some(t);
    }

    fn expand(&mut self, way: Vec<usize>, children: Vec<FileNode>)
        ensures
            final(self)@ == old(self)@.expanded(way@, node::views(children@)),
    {
        if let Some(t) = &mut self.tree {
            if let Some(n) = t.node_at_mut(way.as_slice()) {
                n.child_count = children.len();
                n.children = children;
            }
        }
    }

    /// Whether the directory shown has children that are not listed.
    pub fn is_aggregated(&self) -> (r: bool)
        ensures
            r == self@.aggregated(),
    {
        match self.current_node() {
            Some(n) => n.child_count > n.children.len(),
            None => false,
        }
    }

    /// The path of the directory that the breadcrumbs lead to.
    pub fn current_dir_path(&self) -> (r: Option<String>)
        ensures
            match r {
                Some(p) => self@.dir_path() == Some(p@),
                None => self@.dir_path() is None,
            },
    {
        match &self.tree {
            Some(t) => {
                let mut path = t.root_path.clone();
                let mut current = &t.root;
                let mut i: usize = 0;
                let ghost way = self.breadcrumbs@;
                assert(way.skip(0) =~= way);
                while i < self.breadcrumbs.len()
                    invariant
                        i <= way.len(),
                        way == self.breadcrumbs@,
                        path_along(path@, current@, way.skip(i as int)) == path_along(
                            t@.root_path,
                            t@.root,
                            way,
                        ),
                        self@.tree == Some(t@),
                    decreases way.len() - i,
                {
                    let k = self.breadcrumbs[i];
                    if k >= current.children.len() {
                        return None;
                    }
                    assert(way.skip(i as int).drop_first() =~= way.skip(i + 1));
                    let child = &current.children[k];
                    path = paths::join(path.as_str(), child.name.as_str());
                    current = child;
                    i += 1;
                }
                Some(path)
            },
            None => None,
        }
    }

    fn ensure_visible(&mut self)
        ensures
            final(self)@ == old(self)@.revealed(),
    {
        if self.selected_index < self.scroll_offset {
            self.scroll_offset = self.selected_index;
        }
    }

    /// Scrolls so that the selection is on a screen of so many rows.
    pub fn ensure_visible_with_height(&mut self, visible_height: usize)
        requires
            old(self).scroll_offset <= old(self).selected_index ==> old(self).scroll_offset
                + visible_height <= usize::MAX,
        ensures
            final(self)@ == old(self)@.scrolled(visible_height as int),
    {
        if visible_height == 0 {
            return;
        }
        if self.selected_index < self.scroll_offset {
            self.scroll_offset = self.selected_index;
        } else if self.selected_index >= self.scroll_offset + visible_height {
            self.scroll_offset = self.selected_index - visible_height + 1;
        }
    }
}

} // verus!
