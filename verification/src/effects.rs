//! What keys and messages do to the browser, said of the state before and the
//! state after.

use crate::app::{AppView, ProgressView};
use crate::keys::{ActionView, Key, KeyCode};
use crate::node::NodeView;
use crate::scanner::MessageView;
use crate::screen::SortOrder;
use crate::{app, navigation, paths, screen, sorting, strings, tree};
use vstd::prelude::*;

verus! {

/// Whether children stand in the order that the user has asked for.
pub open spec fn stand_in_order(order: SortOrder, children: Seq<NodeView>) -> bool {
    forall|i: int, j: int|
        0 <= i < j < children.len() ==> {
            let a = #[trigger] children[i];
            let b = #[trigger] children[j];
            match order {
                SortOrder::SizeDesc => a.size >= b.size,
                SortOrder::SizeAsc => a.size <= b.size,
                SortOrder::NameAsc => strings::text_le(
                    strings::lowercase_of(a.name),
                    strings::lowercase_of(b.name),
                ),
                SortOrder::NameDesc => strings::text_le(
                    strings::lowercase_of(b.name),
                    strings::lowercase_of(a.name),
                ),
            }
        }
}

/// The empty way leads to the node itself, and one step more leads to the child
/// that the step names, if there is one.
pub proof fn ways_lead_from_child_to_child(node: NodeView, way: Seq<usize>, i: usize)
    ensures
        tree::descendant(node, Seq::empty()) == Some(node),
        tree::descendant(node, way.push(i)) == match tree::descendant(node, way) {
            Some(n) if i < n.children.len() => Some(n.children[i as int]),
            _ => None,
        },
{
    navigation::lemma_descendant_pushed(node, way, i);
}

/// There is a path along a way where the way leads to a node. That of the empty
/// way is the path of the start, and one step more appends the name of the child.
pub proof fn paths_follow_the_way(path: Seq<char>, node: NodeView, way: Seq<usize>, i: usize)
    ensures
        app::path_along(path, node, Seq::empty()) == Some(path),
        app::path_along(path, node, way) is Some <==> tree::descendant(node, way) is Some,
        app::path_along(path, node, way.push(i)) == match tree::descendant(node, way) {
            Some(n) if i < n.children.len() => Some(
                paths::joined(app::path_along(path, node, way)->0, n.children[i as int].name),
            ),
            _ => None,
        },
    decreases way.len(),
{
    let longer = way.push(i);
    if way.len() == 0 {
        assert(longer.drop_first() =~= way);
        assert(longer[0] == i);
        if i < node.children.len() {
            let child = node.children[i as int];
            let below = paths::joined(path, child.name);
            assert(app::path_along(below, child, way) == Some(below));
        }
    } else {
        assert(longer.drop_first() =~= way.drop_first().push(i));
        assert(longer[0] == way[0]);
        if way[0] < node.children.len() {
            let child = node.children[way[0] as int];
            paths_follow_the_way(paths::joined(path, child.name), child, way.drop_first(), i);
        }
    }
}

/// The directory shown is the one that the breadcrumbs lead to; where they lead
/// nowhere it is the root. The child selected is the one at the selected place.
pub proof fn breadcrumbs_lead_to_what_is_shown(app: AppView)
    requires
        0 <= app.selected_index,
    ensures
        app.tree is None ==> app.current() is None && app.selected() is None && app.count() == 0,
        app.tree matches Some(t) ==> {
            let found = tree::descendant(t.root, app.breadcrumbs);
            let shown = if found is Some {
                found->0
            } else {
                t.root
            };
            &&& app.current() == Some(shown)
            &&& app.count() == shown.children.len()
            &&& app.selected_index < shown.children.len() ==> app.selected() == Some(
                shown.children[app.selected_index],
            )
            &&& app.selected_index >= shown.children.len() ==> app.selected() is None
            &&& app.aggregated() <==> shown.child_count > shown.children.len()
            &&& found is Some ==> app.dir_path() == app::path_along(
                t.root_path,
                t.root,
                app.breadcrumbs,
            ) && app.dir_path() is Some
        },
{
    if let Some(t) = app.tree {
        paths_follow_the_way(t.root_path, t.root, app.breadcrumbs, 0);
    }
}

/// What is handed over to be deleted is the selected child of the directory
/// shown, however deep that is: the path of the directory with the name of the
/// child behind it.
pub proof fn only_the_selected_child_is_deleted(app: AppView, key: Key)
    requires
        0 <= app.selected_index <= usize::MAX,
    ensures
        ({
            let deleted = match app.pressed(key).1 {
                ActionView::DeleteFile(path) => Some(path),
                ActionView::DeleteDirectory(path) => Some(path),
                _ => None,
            };
            deleted matches Some(path) ==> {
                &&& app.tree matches Some(t) && tree::descendant(t.root, app.breadcrumbs)
                    == app.current()
                &&& app.selected() matches Some(child) && app.dir_path() matches Some(dir) && {
                    &&& path == paths::joined(dir, child.name)
                    &&& path == app::path_along(
                        (app.tree->0).root_path,
                        (app.tree->0).root,
                        app.breadcrumbs.push(app.selected_index as usize),
                    )->0
                    &&& paths::is_plain(child.name) ==> paths::file_name_of(path) == child.name
                        && paths::parent_of(paths::tidied(path)) == Some(paths::tidied(dir))
                }
            }
        }),
{
    if let Some(t) = app.tree {
        paths_follow_the_way(
            t.root_path,
            t.root,
            app.breadcrumbs,
            app.selected_index as usize,
        );
        if let Some(child) = app.selected() {
            if paths::is_plain(child.name) && app.dir_path() is Some {
                paths::lemma_tidy_entry(app.dir_path()->0, child.name);
            }
        }
    }
}

/// A confirmed deletion is carried out wherever a child is selected in the
/// directory that the breadcrumbs lead to: a file by the key that says yes, a
/// directory once its name was typed. The deletion of a directory is then shown
/// under the name that was confirmed, with nothing deleted yet and the size of the
/// directory, and it is known where the directory stands.
pub proof fn confirmed_deletions_are_carried_out(app: AppView, key: Key)
    requires
        app.view == screen::View::DeleteConfirm,
        0 <= app.selected_index,
        app.tree matches Some(t) && tree::descendant(t.root, app.breadcrumbs) is Some,
        app.selected() is Some,
        !(key.control && key.code == KeyCode::Char('c')),
    ensures
        ({
            let (next, action) = app.pressed(key);
            let child = app.selected()->0;
            &&& !app.delete_is_dir && key.code == KeyCode::Char('y') ==> {
                &&& action is DeleteFile
                &&& next == (AppView { view: screen::View::Browser, ..app })
            }
            &&& app.delete_is_dir && key.code == KeyCode::Enter && app.delete_input
                == app.delete_target_name ==> {
                &&& action is DeleteDirectory
                &&& next.view == screen::View::Browser
                &&& next.delete_breadcrumbs == app.breadcrumbs
                &&& next.delete_child_index == app.selected_index
                &&& next.active_deletion matches Some(d) && {
                    &&& d.name == app.delete_target_name
                    &&& d.bytes_deleted == 0
                    &&& d.files_deleted == 0
                    &&& d.dirs_deleted == 0
                    &&& child.size <= u64::MAX ==> d.original_size == child.size
                }
                &&& next.show_threads
                &&& app.thread_activities is Some ==> next.thread_activities
                    == app.thread_activities
                &&& app.thread_activities is None ==> (next.thread_activities matches Some(slots)
                    && slots.len() == 1 && slots[0].len() == 0)
                &&& next == (AppView {
                    view: next.view,
                    delete_breadcrumbs: next.delete_breadcrumbs,
                    delete_child_index: next.delete_child_index,
                    active_deletion: next.active_deletion,
                    show_threads: next.show_threads,
                    thread_activities: next.thread_activities,
                    ..app
                })
            }
        }),
{
    paths_follow_the_way((app.tree->0).root_path, (app.tree->0).root, app.breadcrumbs, 0);
}

/// Until a deletion is confirmed nothing happens but that: what is typed is
/// appended or taken back, and the browser is shown again where the user thinks
/// better of it.
pub proof fn unconfirmed_deletions_are_not_carried_out(app: AppView, key: Key)
    requires
        app.view == screen::View::DeleteConfirm,
        !(key.control && key.code == KeyCode::Char('c')),
        !(!app.delete_is_dir && key.code == KeyCode::Char('y')),
        !(app.delete_is_dir && key.code == KeyCode::Enter && app.delete_input
            == app.delete_target_name),
    ensures
        ({
            let (next, action) = app.pressed(key);
            let typed = app.delete_input;
            let closing = key.code == KeyCode::Esc || !app.delete_is_dir && key.code
                == KeyCode::Char('n');
            &&& action is Nothing
            &&& next.view == if closing {
                screen::View::Browser
            } else {
                screen::View::DeleteConfirm
            }
            &&& next == (AppView { view: next.view, delete_input: next.delete_input, ..app })
            &&& !app.delete_is_dir ==> next.delete_input == typed
            &&& app.delete_is_dir ==> match key.code {
                KeyCode::Char(c) => next.delete_input.len() == typed.len() + 1
                    && next.delete_input.last() == c && typed.is_prefix_of(next.delete_input),
                KeyCode::Backspace => typed.len() > 0 ==> next.delete_input.len() == typed.len() - 1
                    && next.delete_input.is_prefix_of(typed),
                KeyCode::Esc => next.delete_input.len() == 0,
                _ => next.delete_input == typed,
            }
            &&& typed.len() == 0 && key.code == KeyCode::Backspace ==> next == app
        }),
{
}

/// The question before a deletion is about the selected child, and nothing has
/// been typed yet; it is not asked while a deletion runs or nothing is selected.
pub proof fn the_selected_child_is_asked_about(app: AppView, key: Key)
    requires
        app.view == screen::View::Browser,
        key.code == KeyCode::Char('d'),
    ensures
        ({
            let (next, action) = app.pressed(key);
            &&& action is Nothing
            &&& app.active_deletion is Some || app.selected() is None ==> next == app
            &&& app.active_deletion is None && app.selected() is Some ==> {
                &&& next.view == screen::View::DeleteConfirm
                &&& next.delete_target_name == (app.selected()->0).name
                &&& next.delete_is_dir == (app.selected()->0).is_dir
                &&& next.delete_input.len() == 0
                &&& next == (AppView {
                    view: next.view,
                    delete_target_name: next.delete_target_name,
                    delete_is_dir: next.delete_is_dir,
                    delete_input: next.delete_input,
                    ..app
                })
            }
        }),
{
}

/// Moving up or down selects a neighbour, a page further the child that many
/// places on, and neither goes beyond the first or the last child. The list is
/// scrolled back where the selection would be before it, unless a step leads
/// nowhere, and nothing else changes.
pub proof fn moving_selects_by_distance(app: AppView, key: Key)
    requires
        app.view == screen::View::Browser,
        app.tree is Some,
        0 <= app.selected_index < (app.current()->0).children.len(),
        0 <= app.scroll_offset,
    ensures
        ({
            let (next, action) = app.pressed(key);
            let last = (app.current()->0).children.len() - 1;
            let distance: int = match key.code {
                KeyCode::Up | KeyCode::Char('k') => -1,
                KeyCode::Down | KeyCode::Char('j') => 1,
                KeyCode::PageUp => -20,
                KeyCode::PageDown => 20,
                KeyCode::Home => -app.selected_index,
                KeyCode::End => last - app.selected_index,
                _ => 0,
            };
            let aim = app.selected_index + distance;
            distance != 0 ==> {
                &&& action is Nothing
                &&& 0 <= aim <= last ==> next.selected_index == aim
                &&& aim < 0 ==> next.selected_index == 0
                &&& aim > last ==> next.selected_index == last
                &&& next == app && !(0 <= aim <= last) || next.scroll_offset == if (
                next.selected_index < app.scroll_offset) {
                    next.selected_index
                } else {
                    app.scroll_offset
                }
                &&& next == (AppView {
                    selected_index: next.selected_index,
                    scroll_offset: next.scroll_offset,
                    ..app
                })
            }
        }),
{
}

/// Opening the selected child shows that child from its first row on, where it
/// is a directory; otherwise nothing changes.
pub proof fn opening_shows_the_selected_directory(app: AppView, key: Key)
    requires
        app.view == screen::View::Browser,
        key.code == KeyCode::Right || key.code == KeyCode::Enter || key.code == KeyCode::Char('l'),
        0 <= app.selected_index <= usize::MAX,
    ensures
        ({
            let (next, action) = app.pressed(key);
            &&& action is Nothing
            &&& next.tree == app.tree
            &&& app.selected() is Some && (app.selected()->0).is_dir ==> {
                &&& tree::descendant((app.tree->0).root, app.breadcrumbs) is Some ==> {
                    &&& next.current() == app.selected()
                    &&& next.dir_path() == Some(
                        paths::joined(app.dir_path()->0, (app.selected()->0).name),
                    )
                }
                &&& next.breadcrumbs.len() == app.breadcrumbs.len() + 1
                &&& next.breadcrumbs.drop_last() == app.breadcrumbs
                &&& next.breadcrumbs.last() == app.selected_index
                &&& next == (AppView {
                    breadcrumbs: next.breadcrumbs,
                    selected_index: 0,
                    scroll_offset: 0,
                    ..app
                })
            }
            &&& app.selected() is None || !(app.selected()->0).is_dir ==> next == app
        }),
{
    let t = app.tree->0;
    assert(app.breadcrumbs.push(app.selected_index as usize).drop_last() =~= app.breadcrumbs);
    ways_lead_from_child_to_child(t.root, app.breadcrumbs, app.selected_index as usize);
    paths_follow_the_way(t.root_path, t.root, app.breadcrumbs, app.selected_index as usize);
}

/// Going up shows the directory above, with the one that was left selected; at
/// the root nothing changes.
pub proof fn going_up_selects_what_was_left(app: AppView, key: Key)
    requires
        app.view == screen::View::Browser,
        key.code == KeyCode::Left || key.code == KeyCode::Backspace || key.code == KeyCode::Char(
            'h',
        ),
    ensures
        ({
            let (next, action) = app.pressed(key);
            &&& action is Nothing
            &&& app.breadcrumbs.len() == 0 ==> next == app
            &&& app.breadcrumbs.len() > 0 ==> {
                &&& next.breadcrumbs == app.breadcrumbs.drop_last()
                &&& next.selected_index == app.breadcrumbs.last()
                &&& app.tree is Some && tree::descendant(
                    (app.tree->0).root,
                    app.breadcrumbs,
                ) is Some ==> next.selected() == app.current()
                &&& next.scroll_offset == if next.selected_index < app.scroll_offset {
                    next.selected_index
                } else {
                    app.scroll_offset
                }
                &&& next == (AppView {
                    breadcrumbs: next.breadcrumbs,
                    selected_index: next.selected_index,
                    scroll_offset: next.scroll_offset,
                    ..app
                })
            }
        }),
{
    let t = app.tree->0;
    let way = app.breadcrumbs;
    if way.len() > 0 {
        assert(way.drop_last().push(way.last()) =~= way);
        ways_lead_from_child_to_child(t.root, way.drop_last(), way.last());
    }
}

proof fn lemma_ordered(app: AppView, order: SortOrder)
    requires
        app.tree matches Some(t) && tree::descendant(t.root, app.breadcrumbs) is Some,
    ensures
        ({
            let next = app.ordered(order);
            let n = app.current()->0;
            &&& next.current() matches Some(m) && {
                &&& stand_in_order(order, m.children)
                &&& m.children.to_multiset() == n.children.to_multiset()
                &&& m.children.len() == n.children.len()
                &&& m == (NodeView { children: m.children, ..n })
            }
            &&& next.sort_order == order
            &&& next.selected_index == 0
            &&& next.scroll_offset == 0
            &&& next.tree matches Some(t) && t == (tree::TreeView { root: t.root, ..app.tree->0 })
            &&& next == (AppView {
                tree: next.tree,
                sort_order: order,
                selected_index: 0,
                scroll_offset: 0,
                ..app
            })
        }),
        forall|other: Seq<usize>|
            !other.is_prefix_of(app.breadcrumbs) && !app.breadcrumbs.is_prefix_of(other)
                ==> #[trigger] tree::descendant((app.ordered(order).tree->0).root, other)
                == tree::descendant((app.tree->0).root, other),
{
    let t = app.tree->0;
    let n = app.current()->0;
    let child_order = order.of_children();
    let le = child_order.relation();
    let new = NodeView { children: child_order.arranged(n.children), ..n };
    tree::replaced_descendant(t.root, app.breadcrumbs, new, app.breadcrumbs);
    assert forall|other: Seq<usize>|
        !other.is_prefix_of(app.breadcrumbs) && !app.breadcrumbs.is_prefix_of(
            other,
        ) implies #[trigger] tree::descendant((app.ordered(order).tree->0).root, other)
        == tree::descendant(t.root, other) by {
        tree::replaced_descendant(t.root, app.breadcrumbs, new, other);
    }
    sorting::lemma_sorted_multiset(n.children, le);
    sorting::lemma_sorted_len(n.children, le);
    child_order.lemma_preorder();
    sorting::lemma_sorted_in_order(n.children, le);
    assert forall|i: int, j: int| 0 <= i < j < new.children.len() implies child_order.allows(
        #[trigger] new.children[i],
        #[trigger] new.children[j],
    ) by {
        assert(le(new.children[i], new.children[j]));
    }
}

/// The key that asks for the next order goes round: the larger first, the
/// smaller first, the names ascending, the names descending. The key that asks
/// for the names orders them ascending, or descending if they ascend. Either way
/// the directory shown then has the same children in the order that is named, and
/// everything else in the tree is as it was, but for the directories that lead
/// there.
pub proof fn sorting_puts_children_in_order(app: AppView, key: Key)
    requires
        app.view == screen::View::Browser,
        key.code == KeyCode::Char('s') || key.code == KeyCode::Char('n'),
        app.tree matches Some(t) && tree::descendant(t.root, app.breadcrumbs) is Some,
    ensures
        ({
            let (next, action) = app.pressed(key);
            &&& action is Nothing
            &&& next.sort_order == if key.code == KeyCode::Char('s') {
                match app.sort_order {
                    SortOrder::SizeDesc => SortOrder::SizeAsc,
                    SortOrder::SizeAsc => SortOrder::NameAsc,
                    SortOrder::NameAsc => SortOrder::NameDesc,
                    SortOrder::NameDesc => SortOrder::SizeDesc,
                }
            } else if app.sort_order == SortOrder::NameAsc {
                SortOrder::NameDesc
            } else {
                SortOrder::NameAsc
            }
            &&& next.current() matches Some(m) && {
                &&& stand_in_order(next.sort_order, m.children)
                &&& m.children.to_multiset() == (app.current()->0).children.to_multiset()
                &&& m == (NodeView { children: m.children, ..app.current()->0 })
            }
            &&& forall|other: Seq<usize>|
                !other.is_prefix_of(app.breadcrumbs) && !app.breadcrumbs.is_prefix_of(other)
                    ==> #[trigger] tree::descendant((next.tree->0).root, other)
                    == tree::descendant((app.tree->0).root, other)
            &&& next.tree matches Some(t) && t == (tree::TreeView { root: t.root, ..app.tree->0 })
            &&& next == (AppView {
                tree: next.tree,
                sort_order: next.sort_order,
                selected_index: 0,
                scroll_offset: 0,
                ..app
            })
        }),
{
    lemma_ordered(app, app.sort_order.following());
    lemma_ordered(app, app.sort_order.toward_names());
}

/// Whatever the order was, after the next one or the names were asked for the
/// children of the directory shown stand in the order that is then in force.
pub proof fn orders_hold_after_sorting(app: AppView)
    requires
        app.tree matches Some(t) && tree::descendant(t.root, app.breadcrumbs) is Some,
    ensures
        ({
            let cycled = app.ordered(app.sort_order.following());
            cycled.current() matches Some(n) && stand_in_order(cycled.sort_order, n.children)
        }),
        ({
            let named = app.ordered(app.sort_order.toward_names());
            named.current() matches Some(n) && stand_in_order(named.sort_order, n.children)
                && named.sort_order != SortOrder::SizeAsc && named.sort_order
                != SortOrder::SizeDesc
        }),
{
    lemma_ordered(app, app.sort_order.following());
    lemma_ordered(app, app.sort_order.toward_names());
}

/// The remaining keys of the browser: each changes the one thing it is for, and
/// a key that has no meaning changes nothing.
pub proof fn other_keys_change_one_thing(app: AppView, key: Key)
    requires
        app.view == screen::View::Browser,
        !(key.control && key.code == KeyCode::Char('c')),
    ensures
        ({
            let (next, action) = app.pressed(key);
            let working = app.scanning || app.active_deletion is Some;
            match key.code {
                KeyCode::Char('q') => next == (AppView { should_quit: true, ..app }),
                KeyCode::Char('g') => next == (AppView { show_bars: !app.show_bars, ..app }),
                KeyCode::Char('?') => next == (AppView { view: screen::View::Help, ..app }),
                KeyCode::Char(' ') => if working {
                    next == (AppView { show_threads: !app.show_threads, ..app })
                } else {
                    next == app
                },
                KeyCode::Char(c) => c != 'k' && c != 'j' && c != 'l' && c != 'h' && c != 's' && c
                    != 'n' && c != 'd' && c != 'e' ==> next == app && action is Nothing,
                KeyCode::Esc | KeyCode::Other => next == app && action is Nothing,
                _ => true,
            }
        }),
        app.pressed(key).1 is Nothing || key.code == KeyCode::Char('e'),
{
}

/// All children are asked for where the directory shown has more than are
/// listed, is reached by the breadcrumbs, and they have not been asked for yet: by
/// the path of that directory and the way to it.
pub proof fn hidden_children_are_asked_for(app: AppView, key: Key)
    requires
        app.view == screen::View::Browser,
        key.code == KeyCode::Char('e'),
        app.tree matches Some(t) && tree::descendant(t.root, app.breadcrumbs) is Some,
    ensures
        ({
            let (next, action) = app.pressed(key);
            let n = app.current()->0;
            if n.child_count > n.children.len() && !app.expanding {
                &&& action matches ActionView::Expand { path, breadcrumbs } && breadcrumbs
                    == app.breadcrumbs && Some(path) == app::path_along(
                    (app.tree->0).root_path,
                    (app.tree->0).root,
                    breadcrumbs,
                )
                &&& next == (AppView { expanding: true, ..app })
            } else {
                action is Nothing && next == app
            }
        }),
{
    paths_follow_the_way((app.tree->0).root_path, (app.tree->0).root, app.breadcrumbs, 0);
}

/// Outside of the browser few keys have a meaning: one ends the program while the
/// first tree is awaited, three close the help. The key that ends every program
/// ends this one from everywhere, and changes nothing else.
pub proof fn screens_are_left_by_their_keys(app: AppView, key: Key)
    ensures
        ({
            let (next, action) = app.pressed(key);
            let ended = AppView { should_quit: true, ..app };
            let ends = key.control && key.code == KeyCode::Char('c');
            &&& ends ==> next == ended && action is Nothing
            &&& !ends && app.view == screen::View::Scanning ==> action is Nothing && next
                == if key.code == KeyCode::Char('q') {
                ended
            } else {
                app
            }
            &&& !ends && app.view == screen::View::Help ==> action is Nothing && next == if (
            key.code == KeyCode::Char('?') || key.code == KeyCode::Esc || key.code == KeyCode::Char(
                'q',
            )) {
                AppView { view: screen::View::Browser, ..app }
            } else {
                app
            }
        }),
{
}

/// A finished tree takes the place of the one before, whatever is on the screen
/// and however deep the user has gone; the scan is over, the browser is shown, and
/// the place in the tree is kept as far as there is a child to select.
pub proof fn finished_trees_are_taken_over(app: AppView, t: tree::TreeView)
    requires
        0 <= app.selected_index,
    ensures
        ({
            let next = app.after(MessageView::Complete(t));
            let shown = match tree::descendant(t.root, app.breadcrumbs) {
                Some(n) => n.children.len(),
                None => t.root.children.len(),
            };
            &&& next.tree == Some(t)
            &&& !next.scanning
            &&& next.view == screen::View::Browser
            &&& next.breadcrumbs == app.breadcrumbs
            &&& next.selected_index == if shown > 0 && app.selected_index >= shown {
                shown - 1
            } else {
                app.selected_index
            }
            &&& next == (AppView {
                tree: next.tree,
                scanning: false,
                view: next.view,
                selected_index: next.selected_index,
                ..app
            })
        }),
{
}

/// A tree that still grows is shown as it was reported, with its numbers and those
/// that came with it. The way to the directory shown is kept as far as the tree
/// has it; only where that is not all of it does the selection start anew.
pub proof fn growing_trees_are_taken_over(app: AppView, msg: MessageView)
    requires
        0 <= app.selected_index,
    ensures
        msg matches MessageView::Progress {
            tree: t,
            current_path,
            elapsed,
            entries_per_sec,
            stat_threads,
            dirs_queued,
        } ==> {
            let next = app.after(msg);
            let p = next.scan_progress;
            let kept = tree::descendant(t.root, app.breadcrumbs) is Some;
            &&& next.tree == Some(t)
            &&& p.files_count == t.total_files
            &&& p.dirs_count == t.total_dirs
            &&& p.errors_count == t.total_errors
            &&& t.root.size <= u64::MAX ==> p.total_size == t.root.size
            &&& p.current_path == current_path
            &&& p.elapsed == elapsed
            &&& p.entries_per_sec == entries_per_sec
            &&& p.stat_threads == stat_threads
            &&& p.dirs_queued == dirs_queued
            &&& next.view == if app.view == screen::View::Scanning {
                screen::View::Browser
            } else {
                app.view
            }
            &&& next.breadcrumbs.is_prefix_of(app.breadcrumbs)
            &&& tree::descendant(t.root, next.breadcrumbs) matches Some(n) && {
                &&& kept ==> next.breadcrumbs == app.breadcrumbs && next.selected_index == if (
                n.children.len() > 0 && app.selected_index >= n.children.len()) {
                    n.children.len() - 1
                } else {
                    app.selected_index
                }
                &&& !kept ==> next.breadcrumbs.len() < app.breadcrumbs.len() && next.selected_index
                    == 0 && tree::descendant(
                    t.root,
                    app.breadcrumbs.take(1 + next.breadcrumbs.len() as int),
                ) is None
            }
            &&& next == (AppView {
                tree: next.tree,
                scan_progress: p,
                view: next.view,
                breadcrumbs: next.breadcrumbs,
                selected_index: next.selected_index,
                ..app
            })
        },
{
    if let MessageView::Progress { tree: t, .. } = msg {
        navigation::passable_is_longest(t.root, app.breadcrumbs);
        let way = app::passable(t.root, app.breadcrumbs);
        if way.len() == app.breadcrumbs.len() {
            assert(way =~= app.breadcrumbs);
        }
    }
}

/// Counters are taken over as they come, and leave what they do not tell alone.
pub proof fn counters_are_taken_over(app: AppView, msg: MessageView)
    ensures
        msg matches MessageView::Counting {
            files_count,
            dirs_count,
            current_path,
            elapsed,
            entries_per_sec,
        } ==> {
            let next = app.after(msg);
            let p = next.scan_progress;
            &&& p.files_count == files_count
            &&& p.dirs_count == dirs_count
            &&& p.current_path == current_path
            &&& p.elapsed == elapsed
            &&& p.entries_per_sec == entries_per_sec
            &&& p == (ProgressView {
                files_count: p.files_count,
                dirs_count: p.dirs_count,
                current_path: p.current_path,
                elapsed: p.elapsed,
                entries_per_sec: p.entries_per_sec,
                ..app.scan_progress
            })
            &&& next.view == if app.view == screen::View::Scanning && app.tree is Some {
                screen::View::Browser
            } else {
                app.view
            }
            &&& next == (AppView { scan_progress: p, view: next.view, ..app })
        },
{
}

/// The children that were asked for take the place of those listed, in the
/// directory that they were asked for, which then lists all it has; everything
/// else in the tree is as it was, but for the directories that lead there. They can
/// be asked for again.
pub proof fn children_are_put_where_they_belong(
    app: AppView,
    way: Seq<usize>,
    children: Seq<NodeView>,
)
    requires
        0 <= app.selected_index,
    ensures
        ({
            let next = app.after(MessageView::ExpandResult { breadcrumbs: way, children });
            &&& !next.expanding
            &&& next == (AppView {
                tree: next.tree,
                expanding: false,
                selected_index: next.selected_index,
                ..app
            })
            &&& app.tree is None ==> next.tree is None
            &&& app.tree matches Some(t) ==> match tree::descendant(t.root, way) {
                Some(n) => {
                    &&& next.tree matches Some(u) && {
                        &&& tree::descendant(u.root, way) matches Some(m) && {
                            &&& m.children == children
                            &&& m.child_count == children.len()
                            &&& m == (NodeView {
                                children: m.children,
                                child_count: m.child_count,
                                ..n
                            })
                        }
                        &&& u == (tree::TreeView { root: u.root, ..t })
                        &&& forall|other: Seq<usize>|
                            !other.is_prefix_of(way) && !way.is_prefix_of(other)
                                ==> #[trigger] tree::descendant(u.root, other) == tree::descendant(
                                t.root,
                                other,
                            )
                    }
                },
                None => next.tree == app.tree,
            }
            &&& next.selected_index == if (next.tree is Some && (
            next.current()->0).children.len() > 0 && app.selected_index >= (
            next.current()->0).children.len()) {
                (next.current()->0).children.len() - 1
            } else {
                app.selected_index
            }
        }),
{
    if let Some(t) = app.tree {
        if let Some(n) = tree::descendant(t.root, way) {
            let new = NodeView { child_count: children.len(), children, ..n };
            tree::replaced_descendant(t.root, way, new, way);
            assert forall|other: Seq<usize>|
                !other.is_prefix_of(way) && !way.is_prefix_of(other) implies #[trigger]
                tree::descendant(tree::with_descendant(t.root, way, new), other)
                == tree::descendant(t.root, other) by {
                tree::replaced_descendant(t.root, way, new, other);
            }
        }
    }
}

/// An error ends the browser and is kept to be told. How far a deletion has come is
/// taken over where one is shown, and with its end it is no longer shown.
pub proof fn errors_and_deletions_are_noted(app: AppView, msg: MessageView)
    ensures
        msg matches MessageView::Error(text) ==> app.after(msg) == (AppView {
            error_message: Some(text),
            should_quit: true,
            ..app
        }),
        msg matches MessageView::DeleteProgress { bytes_deleted, files_deleted, dirs_deleted }
            ==> {
            let next = app.after(msg);
            &&& app.active_deletion is None ==> next == app
            &&& app.active_deletion matches Some(d) ==> {
                &&& next == (AppView { active_deletion: next.active_deletion, ..app })
                &&& next.active_deletion matches Some(e) && {
                    &&& e.bytes_deleted == bytes_deleted
                    &&& e.files_deleted == files_deleted
                    &&& e.dirs_deleted == dirs_deleted
                    &&& e.name == d.name
                    &&& e.original_size == d.original_size
                }
            }
        },
        msg is DeleteComplete ==> app.after(msg) == (AppView { active_deletion: None, ..app }),
{
}

/// Where the breadcrumbs lead nowhere, or there is no tree, sorting only notes the
/// order and selects the first child, nothing is asked for, and what was confirmed
/// is not deleted.
pub proof fn nothing_is_done_nowhere(app: AppView, key: Key)
    requires
        app.tree is None || tree::descendant((app.tree->0).root, app.breadcrumbs) is None,
    ensures
        app.pressed(key).1 is Nothing,
        app.pressed(key).0.tree == app.tree,
        app.view == screen::View::Browser && key.code == KeyCode::Char('s') ==> app.pressed(key).0
            == (AppView {
            sort_order: app.pressed(key).0.sort_order,
            selected_index: 0,
            scroll_offset: 0,
            ..app
        }),
        app.view == screen::View::Browser && key.code == KeyCode::Char('e') ==> app.pressed(key).0
            == app,
        app.view == screen::View::DeleteConfirm ==> app.pressed(key).0.active_deletion
            == app.active_deletion,
{
    if let Some(t) = app.tree {
        paths_follow_the_way(t.root_path, t.root, app.breadcrumbs, 0);
    }
}

/// A selected child has a path where the breadcrumbs lead to the directory that it
/// stands in: that of the directory, with its name behind it.
pub proof fn selected_paths_name_the_child(app: AppView)
    requires
        0 <= app.selected_index,
    ensures
        app.selected_path() is Some <==> app.tree is Some && tree::descendant(
            (app.tree->0).root,
            app.breadcrumbs,
        ) is Some && app.selected() is Some,
        app.selected_path() is Some ==> app.selected_path() == Some(
            paths::joined(app.dir_path()->0, (app.selected()->0).name),
        ),
{
    if let Some(t) = app.tree {
        paths_follow_the_way(t.root_path, t.root, app.breadcrumbs, 0);
    }
}

/// Also where the selection lies behind the last child, or there are no children, the
/// keys that move upwards move it up by their distance, those that move downwards to
/// the last child if there is one, but a single step leads nowhere.
pub proof fn stray_selections_come_back(app: AppView, key: Key)
    requires
        app.view == screen::View::Browser,
        app.count() <= app.selected_index,
        0 <= app.scroll_offset,
    ensures
        ({
            let (next, action) = app.pressed(key);
            let at = app.selected_index;
            let last = app.count() - 1;
            let moved = match key.code {
                KeyCode::Up | KeyCode::Char('k') => Some(
                    if at > 0 {
                        at - 1
                    } else {
                        0
                    },
                ),
                KeyCode::PageUp => Some(
                    if at > 20 {
                        at - 20
                    } else {
                        0
                    },
                ),
                KeyCode::Home => Some(0int),
                KeyCode::PageDown | KeyCode::End => Some(
                    if last >= 0 {
                        last
                    } else {
                        at
                    },
                ),
                KeyCode::Down | KeyCode::Char('j') => Some(at),
                _ => None,
            };
            moved matches Some(place) ==> {
                &&& action is Nothing
                &&& next.selected_index == place
                &&& next.scroll_offset == app.scroll_offset || next.scroll_offset == place
                    && place < app.scroll_offset
                &&& next == (AppView {
                    selected_index: next.selected_index,
                    scroll_offset: next.scroll_offset,
                    ..app
                })
            }
        }),
{
}

/// A page further is as many children on as a page has, whatever that is, and never
/// beyond the first or the last child.
pub proof fn pages_move_by_their_size(app: AppView, page: nat)
    requires
        0 <= app.selected_index < app.count(),
    ensures
        app.selected_index + page < app.count() ==> app.page_below(page).selected_index
            == app.selected_index + page,
        app.selected_index + page >= app.count() ==> app.page_below(page).selected_index
            == app.count() - 1,
        app.selected_index >= page ==> app.page_above(page).selected_index == app.selected_index
            - page,
        app.selected_index < page ==> app.page_above(page).selected_index == 0,
        app.page_below(page).tree == app.tree && app.page_below(page).breadcrumbs
            == app.breadcrumbs,
        app.page_above(page).tree == app.tree && app.page_above(page).breadcrumbs
            == app.breadcrumbs,
{
}

/// A browser that has just started shows the first tree that is finished: its root,
/// from the first child on, and in the order that the tree comes in, with bars and
/// with nothing else going on. Until a tree comes it waits for the scan.
pub proof fn fresh_browsers_show_the_first_tree(t: tree::TreeView)
    requires
        tree::descends(t.root),
    ensures
        ({
            let first = app::at_start();
            let next = first.after(MessageView::Complete(t));
            &&& first.view == screen::View::Scanning
            &&& first.scanning
            &&& first.tree is None
            &&& first.scan_progress.files_count == 0
            &&& first.scan_progress.dirs_count == 0
            &&& first.scan_progress.errors_count == 0
            &&& first.scan_progress.total_size == 0
            &&& first.scan_progress.current_path.len() == 0
            &&& next.current() == Some(t.root)
            &&& next.selected_index == 0
            &&& next.scroll_offset == 0
            &&& stand_in_order(next.sort_order, t.root.children)
            &&& next.show_bars
            &&& !next.should_quit
            &&& !next.expanding
            &&& !next.show_threads
            &&& next.error_message is None
            &&& next.active_deletion is None
            &&& next.thread_activities is None
        }),
{
}

} // verus!
