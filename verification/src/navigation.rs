//! What holds of every way through the tree.

use crate::app::AppView;
use crate::keys::{ActionView, Key, KeyCode, PAGE_SIZE};
use crate::node::NodeView;
use crate::scanner::MessageView;
use crate::screen::SortOrder;
use crate::{app, screen, sorting, tree};
use vstd::prelude::*;

verus! {

impl AppView {
    /// Whether a child is selected, where there is one.
    pub open spec fn in_range(self) -> bool {
        0 <= self.selected_index <= usize::MAX && (self.count() > 0 ==> self.selected_index
            < self.count())
    }

    /// Whether the breadcrumbs lead to a node of the tree, if there is one.
    pub open spec fn on_track(self) -> bool {
        self.tree matches Some(t) ==> tree::descendant(t.root, self.breadcrumbs) is Some
    }
}

/// After scrolling the selection is on the screen, wherever it was before.
pub proof fn selection_is_visible(app: AppView, height: int)
    requires
        height > 0,
    ensures
        app.scrolled(height).scroll_offset <= app.selected_index < app.scrolled(
            height,
        ).scroll_offset + height,
        app.scrolled(height).scrolled(height) == app.scrolled(height),
{
}

/// Going up again after opening a directory leads back to where one was, but
/// for scrolling.
pub proof fn up_undoes_open(app: AppView)
    requires
        app.in_range(),
        app.selected() matches Some(child) && child.is_dir,
    ensures
        app.inside().above() == (AppView { scroll_offset: 0, ..app }),
{
    assert(app.breadcrumbs.push(app.selected_index as usize).drop_last() =~= app.breadcrumbs);
}

/// One step down and one step up again change nothing, where the selection
/// was on the screen and there was a child below it.
pub proof fn up_undoes_down(app: AppView)
    requires
        app.selected_index + 1 < app.count(),
        0 <= app.scroll_offset <= app.selected_index,
    ensures
        app.one_down().one_up() == app,
{
}

/// One step up and one step down again select the same child.
pub proof fn down_undoes_up(app: AppView)
    requires
        0 < app.selected_index < app.count(),
    ensures
        app.one_up().one_down().selected_index == app.selected_index,
        app.one_up().one_down().breadcrumbs == app.breadcrumbs,
        app.one_up().one_down().tree == app.tree,
{
}

/// One step more leads to the child that the step names.
pub(crate) proof fn lemma_descendant_pushed(node: NodeView, path: Seq<usize>, i: usize)
    ensures
        tree::descendant(node, path.push(i)) == match tree::descendant(node, path) {
            Some(n) => if i < n.children.len() {
                Some(n.children[i as int])
            } else {
                None
            },
            None => None,
        },
    decreases path.len(),
{
    let longer = path.push(i);
    if path.len() == 0 {
        assert(longer.drop_first() =~= path);
        assert(longer[0] == i);
        if i < node.children.len() {
            assert(tree::descendant(node.children[i as int], path) == Some(
                node.children[i as int],
            ));
        }
    } else {
        assert(longer.drop_first() =~= path.drop_first().push(i));
        assert(longer[0] == path[0]);
        if path[0] < node.children.len() {
            lemma_descendant_pushed(node.children[path[0] as int], path.drop_first(), i);
        }
    }
}

/// However one moves, a child stays selected and the breadcrumbs lead to a
/// directory.
pub proof fn moves_stay_in_range(app: AppView, page: nat)
    requires
        app.count() <= usize::MAX,
        app.in_range(),
        app.on_track(),
    ensures
        app.one_down().in_range() && app.one_down().on_track(),
        app.one_up().in_range() && app.one_up().on_track(),
        app.page_below(page).in_range() && app.page_below(page).on_track(),
        app.page_above(page).in_range() && app.page_above(page).on_track(),
        app.at_first().in_range() && app.at_first().on_track(),
        app.at_last().in_range() && app.at_last().on_track(),
        app.inside().in_range() && app.inside().on_track(),
        app.above().in_range() && app.above().on_track(),
{
    if app.selected() is Some {
        lemma_descendant_pushed(
            app.tree->0.root,
            app.breadcrumbs,
            app.selected_index as usize,
        );
    }
    if app.breadcrumbs.len() > 0 {
        let way = app.breadcrumbs;
        assert(way.drop_last().push(way.last()) =~= way);
        if let Some(t) = app.tree {
            lemma_descendant_pushed(t.root, way.drop_last(), way.last());
        }
    }
}

/// What is left of a way is the longest part of it that the tree has.
pub proof fn passable_is_longest(node: NodeView, path: Seq<usize>)
    ensures
        app::passable(node, path).is_prefix_of(path),
        tree::descendant(node, app::passable(node, path)) is Some,
        forall|n: int|
            app::passable(node, path).len() < n <= path.len() ==> tree::descendant(
                node,
                #[trigger] path.take(n),
            ) is None,
    decreases path.len(),
{
    assert(path.take(path.len() as int) =~= path);
    if path.len() > 0 && tree::descendant(node, path) is None {
        let shorter = path.drop_last();
        passable_is_longest(node, shorter);
        let left = app::passable(node, shorter);
        assert(left =~= path.take(left.len() as int));
        assert forall|n: int| left.len() < n <= path.len() implies tree::descendant(
            node,
            #[trigger] path.take(n),
        ) is None by {
            if n < path.len() {
                assert(shorter.take(n) =~= path.take(n));
            }
        }
    }
}

/// After a new tree a child is selected where there is one, and after one
/// that is still growing the breadcrumbs lead to a directory of it.
pub proof fn new_trees_keep_selection(app: AppView, msg: MessageView)
    requires
        0 <= app.selected_index <= usize::MAX,
    ensures
        msg is Progress || msg is Complete || msg is ExpandResult ==> app.after(msg).in_range(),
        msg is Progress ==> app.after(msg).on_track(),
{
    if let MessageView::Progress { tree, .. } = msg {
        passable_is_longest(tree.root, app.breadcrumbs);
    }
}

/// The messages that carry no tree leave the tree, the way and the selection
/// alone.
pub proof fn other_messages_keep_the_place(app: AppView, msg: MessageView)
    requires
        !(msg is Progress || msg is Complete || msg is ExpandResult),
    ensures
        app.after(msg).tree == app.tree,
        app.after(msg).breadcrumbs == app.breadcrumbs,
        app.after(msg).selected_index == app.selected_index,
        app.after(msg).scroll_offset == app.scroll_offset,
{
}

/// The browser ends the scanning screen with the first tree and does not come
/// back to it.
pub proof fn scanning_screen_is_left(app: AppView, msg: MessageView)
    ensures
        app.view != screen::View::Scanning ==> app.after(msg).view != screen::View::Scanning,
        msg is Progress || msg is Complete ==> app.after(msg).view != screen::View::Scanning,
{
}

/// Another order lists the same children.
pub proof fn ordering_keeps_children(app: AppView, order: SortOrder)
    requires
        app.on_track(),
    ensures
        app.ordered(order).on_track(),
        app.ordered(order).count() == app.count(),
        app.current() matches Some(n) ==> app.ordered(order).current() == Some(
            NodeView { children: order.of_children().arranged(n.children), ..n },
        ) && order.of_children().arranged(n.children).to_multiset() == n.children.to_multiset(),
{
    if let Some(t) = app.tree {
        let n = app.current()->0;
        let le = order.of_children().relation();
        tree::replaced_descendant(
            t.root,
            app.breadcrumbs,
            NodeView { children: order.of_children().arranged(n.children), ..n },
            app.breadcrumbs,
        );
        sorting::lemma_sorted_multiset(n.children, le);
        sorting::lemma_sorted_len(n.children, le);
    }
}

/// Whatever key is pressed, a child stays selected and the breadcrumbs lead to
/// a directory.
pub proof fn keys_keep_selection(app: AppView, key: Key)
    requires
        app.count() <= usize::MAX,
        app.in_range(),
        app.on_track(),
    ensures
        app.pressed(key).0.in_range(),
        app.pressed(key).0.on_track(),
{
    moves_stay_in_range(app, PAGE_SIZE as nat);
    ordering_keeps_children(app, app.sort_order.following());
    ordering_keeps_children(app, app.sort_order.toward_names());
}

/// Nothing is deleted without a confirmation: a file only by the key that says
/// yes, and a directory only after its name was typed.
pub proof fn deletion_is_confirmed(app: AppView, key: Key)
    ensures
        app.pressed(key).1 is DeleteFile ==> app.view == screen::View::DeleteConfirm
            && !app.delete_is_dir && key.code == KeyCode::Char('y'),
        app.pressed(key).1 is DeleteDirectory ==> app.view == screen::View::DeleteConfirm
            && app.delete_is_dir && key.code == KeyCode::Enter && app.delete_input
            == app.delete_target_name,
        app.pressed(key).1 matches ActionView::DeleteFile(path) ==> app.selected_path() == Some(
            path,
        ),
        app.pressed(key).1 matches ActionView::DeleteDirectory(path) ==> app.selected_path()
            == Some(path),
{
}

/// The browser ends only by two keys.
pub proof fn quitting_takes_a_key(app: AppView, key: Key)
    requires
        !app.should_quit,
        app.pressed(key).0.should_quit,
    ensures
        key.code == KeyCode::Char('q') || key.code == KeyCode::Char('c') && key.control,
{
}

/// No key but those that sort changes the tree.
pub proof fn keys_keep_the_tree(app: AppView, key: Key)
    requires
        key.code != KeyCode::Char('s'),
        key.code != KeyCode::Char('n'),
    ensures
        app.pressed(key).0.tree == app.tree,
{
}

/// After a file was deleted a child is selected, where there is one left.
pub proof fn deletion_keeps_selection(app: AppView)
    requires
        app.in_range(),
    ensures
        app.without_selected().in_range(),
{
}

/// The list is scrolled no further than it has to be: not at all where the selection
/// is on the screen, and otherwise so that it is on the first row, if it was before
/// the list, or on the last.
pub proof fn scrolling_is_least(app: AppView, height: int)
    requires
        height > 0,
    ensures
        ({
            let next = app.scrolled(height);
            let first = app.scroll_offset;
            &&& first <= app.selected_index < first + height ==> next == app
            &&& app.selected_index < first ==> next.scroll_offset == app.selected_index
            &&& app.selected_index >= first + height ==> next.scroll_offset + height - 1
                == app.selected_index
            &&& next == (AppView { scroll_offset: next.scroll_offset, ..app })
        }),
        app.scrolled(0) == app,
{
}

} // verus!
