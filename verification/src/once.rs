//! In a tree whose paths are made up of names, a walk hands out nothing twice.

use vstd::prelude::*;

use crate::coverage::can_run;
use crate::coverage::children_of;
use crate::coverage::found;
use crate::coverage::found_among;
use crate::coverage::found_by;
use crate::coverage::found_in_all;
use crate::coverage::is_finite;
use crate::coverage::law_walk_loses_nothing;
use crate::coverage::run_of;
use crate::coverage::times;
use crate::coverage::Move;
use crate::coverage::Tree;
use crate::entry::StatusModel;
use crate::error::ErrorModel;
use crate::glob::compiled;
use crate::glob::path_of;
use crate::names::are_names;
use crate::names::is_name;
use crate::names::lemma_names_concat;
use crate::names::lemma_names_push;
use crate::names::lemma_path_determines_names;
use crate::names::lemma_root_names;
use crate::reach::is_wanted;
use crate::reach::law_found_is_what_is_wanted;
use crate::reach::lies_among;
use crate::reach::lies_below;
use crate::reach::root_names;
use crate::selection::law_walk_finds_the_selected_paths;
use crate::walk::base_name;
use crate::walk::child_emits;
use crate::walk::child_entered;
use crate::walk::child_task;
use crate::walk::considers;
use crate::walk::glob_start;
use crate::walk::list_start;
use crate::walk::ModeModel;
use crate::walk::TaskModel;

verus! {

/// Whether `child` is a child of the directory with the given `names`.
pub open spec fn is_child(names: Seq<Seq<char>>, child: StatusModel) -> bool {
    is_name(base_name(child.path)) && child.path == path_of(names.push(base_name(child.path)))
}

/// Whether listing the path with the given `names` gives its children, each of
/// them once, or nothing but the file itself.
pub open spec fn is_plain_at(tree: Tree, names: Seq<Seq<char>>) -> bool {
    let children = children_of(tree, path_of(names));
    &&& forall|k: int|
        0 <= k < children.len() ==> {
            ||| is_child(names, #[trigger] children[k])
            ||| children.len() == 1 && children[k].path == path_of(names) && !children[k].isdir
        }
    &&& forall|i: int, j: int|
        0 <= i < j < children.len() ==> (#[trigger] children[i]).path != (
        #[trigger] children[j]).path
}

/// Whether the paths of the tree are made up of names.
pub open spec fn is_plain(tree: Tree) -> bool {
    &&& forall|names: Seq<Seq<char>>| are_names(names) ==> #[trigger] is_plain_at(tree, names)
    &&& forall|path: Seq<char>|
        (#[trigger] (tree.stat)(path)) matches Ok(entry) ==> entry.path == path
}

/// The child by way of which an entry is found, and the names that lead to the
/// entry.
proof fn lemma_found_path(
    tree: Tree,
    mode: ModeModel,
    task: TaskModel,
    above: Seq<Seq<char>>,
    n: int,
    entry: StatusModel,
) -> (r: (int, Seq<Seq<char>>))
    requires
        is_plain(tree),
        are_names(above),
        task.path == path_of(above),
        n <= children_of(tree, task.path).len(),
        found_among(tree, mode, task, n, entry) > 0,
    ensures
        0 <= r.0 < n,
        are_names(r.1),
        entry.path == path_of(above + r.1),
        r.1.len() == 0 ==> !entry.isdir && mode is List && children_of(tree, task.path).len() == 1,
        r.1.len() > 0 ==> children_of(tree, task.path)[r.0].path == path_of(above.push(r.1[0])),
    decreases (tree.height)(task.path), n,
{
    let children = children_of(tree, task.path);
    let child = children[n - 1];
    if found_among(tree, mode, task, n - 1, entry) > 0 {
        lemma_found_path(tree, mode, task, above, n - 1, entry)
    } else {
        assert(is_plain_at(tree, above));
        if is_child(above, child) {
            let name = base_name(child.path);
            if child_emits(mode, task, child) && child == entry {
                let rest = seq![name];
                assert(above + rest =~= above.push(name));
                (n - 1, rest)
            } else {
                let next = child_task(mode, task, child);
                lemma_names_push(above, name);
                let (k, more) = lemma_found_path(
                    tree,
                    mode,
                    next,
                    above.push(name),
                    children_of(tree, child.path).len() as int,
                    entry,
                );
                let rest = seq![name] + more;
                assert(above.push(name) + more =~= above + rest);
                (n - 1, rest)
            }
        } else {
            let rest = Seq::<Seq<char>>::empty();
            assert(above + rest =~= above);
            (n - 1, rest)
        }
    }
}

/// An entry is found at most once.
proof fn lemma_found_once(
    tree: Tree,
    mode: ModeModel,
    task: TaskModel,
    above: Seq<Seq<char>>,
    n: int,
    entry: StatusModel,
)
    requires
        is_plain(tree),
        are_names(above),
        task.path == path_of(above),
        n <= children_of(tree, task.path).len(),
    ensures
        found_among(tree, mode, task, n, entry) <= 1,
    decreases (tree.height)(task.path), n,
{
    if n > 0 {
        let children = children_of(tree, task.path);
        let child = children[n - 1];
        assert(is_plain_at(tree, above));
        lemma_found_once(tree, mode, task, above, n - 1, entry);
        let before = found_among(tree, mode, task, n - 1, entry);
        let here = child_emits(mode, task, child) && child == entry;
        let enters = child_entered(mode, task, child) && (tree.height)(child.path) < (tree.height)(
            task.path,
        );
        let next = child_task(mode, task, child);
        let count = children_of(tree, child.path).len() as int;
        let below = if enters {
            found_among(tree, mode, next, count, entry)
        } else {
            0nat
        };
        if here || below > 0 {
            if is_child(above, child) {
                let name = base_name(child.path);
                let level = above.push(name);
                lemma_names_push(above, name);
                // How the entry is found by way of this child.
                let mut rest = Seq::<Seq<char>>::empty();
                assert(level + rest =~= level);
                if below > 0 {
                    lemma_found_once(tree, mode, next, level, count, entry);
                    let (k, more) = lemma_found_path(tree, mode, next, level, count, entry);
                    lemma_names_concat(level, more);
                    if here {
                        lemma_path_determines_names(level, level + more);
                        assert(more.len() == 0);
                        assert(false);
                    }
                    rest = more;
                }
                lemma_names_concat(level, rest);
                assert(entry.path == path_of(level + rest));
                if before > 0 {
                    let (j, other) = lemma_found_path(tree, mode, task, above, n - 1, entry);
                    assert(other.len() > 0);
                    lemma_names_concat(above, other);
                    lemma_path_determines_names(level + rest, above + other);
                    assert((level + rest)[above.len() as int] == name);
                    assert((above + other)[above.len() as int] == other[0]);
                    assert(children[j].path == child.path);
                    assert(false);
                }
            } else {
                assert(children.len() == 1);
                assert(found_among(tree, mode, task, 0, entry) == 0);
            }
        }
    }
}

/// Law: a listing of a path that is made up of names hands out no entry twice.
pub proof fn law_list_walk_hands_out_nothing_twice(
    tree: Tree,
    names: Seq<Seq<char>>,
    recursive: bool,
    max_parallelism: int,
    moves: Seq<Move>,
    entry: StatusModel,
)
    requires
        is_finite(tree),
        is_plain(tree),
        are_names(names),
        can_run(tree, list_start(path_of(names), recursive, max_parallelism), moves),
    ensures
        times(
            run_of(tree, list_start(path_of(names), recursive, max_parallelism), moves).sent,
            entry,
        ) <= 1,
{
    let start = list_start(path_of(names), recursive, max_parallelism);
    let task = start.pending[0];
    law_walk_loses_nothing(tree, start, moves, entry);
    assert(start.pending.drop_last() =~= Seq::empty());
    assert(found_in_all(tree, start.mode, start.pending.drop_last(), entry) == 0);
    lemma_found_once(
        tree,
        start.mode,
        task,
        names,
        children_of(tree, task.path).len() as int,
        entry,
    );
}

/// Law: a glob hands out no entry twice, also if alternatives of its pattern
/// overlap.
pub proof fn law_glob_walk_hands_out_nothing_twice(
    tree: Tree,
    pattern: Seq<char>,
    max_parallelism: int,
    moves: Seq<Move>,
    entry: StatusModel,
)
    requires
        is_finite(tree),
        is_plain(tree),
        compiled(pattern) is Ok,
        can_run(tree, glob_start(compiled(pattern)->Ok_0, max_parallelism), moves),
    ensures
        times(
            run_of(tree, glob_start(compiled(pattern)->Ok_0, max_parallelism), moves).sent,
            entry,
        ) <= 1,
{
    let plan = compiled(pattern)->Ok_0;
    let start = glob_start(plan, max_parallelism);
    let above = root_names(pattern);
    let task = TaskModel { path: plan.root, states: plan.initial };
    let n = children_of(tree, task.path).len() as int;
    law_walk_loses_nothing(tree, start, moves, entry);
    law_walk_finds_the_selected_paths(pattern, above, above);
    lemma_root_names(pattern);
    lemma_found_once(tree, start.mode, task, above, n, entry);
    if plan.initial.len() > 0 {
        assert(start.pending.drop_last() =~= Seq::empty());
        assert(found_in_all(tree, start.mode, start.pending.drop_last(), entry) == 0);
        assert(start.pending.last() == task);
        if found(tree, start.mode, task, entry) > 0 {
            let (k, rest) = lemma_found_path(tree, start.mode, task, above, n, entry);
            if (tree.stat)(plan.root) == Ok::<StatusModel, ErrorModel>(entry) {
                lemma_names_concat(above, rest);
                assert(entry.path == plan.root);
                lemma_path_determines_names(above, above + rest);
                assert(rest.len() == 0);
            }
        }
    }
    assert(found_by(tree, start, entry) <= 1);
}

/// Whether listing `path` gives an entry with that very path.
pub open spec fn lists_itself(tree: Tree, path: Seq<char>) -> bool {
    exists|k: int|
        0 <= k < children_of(tree, path).len() && (#[trigger] children_of(tree, path)[k]).path
            == path
}

/// Whether no directory that listing `path` gives lists itself, as a file does.
pub open spec fn has_plain_directories(tree: Tree, path: Seq<char>) -> bool {
    forall|k: int|
        0 <= k < children_of(tree, path).len() && (#[trigger] children_of(tree, path)[k]).isdir
            ==> !lists_itself(tree, children_of(tree, path)[k].path)
}

/// Whether what one listing gives as a directory is one when it is listed: it
/// does not list itself, as a file does.
pub open spec fn directories_are_no_files(tree: Tree) -> bool {
    forall|path: Seq<char>| #[trigger] has_plain_directories(tree, path)
}

/// Whether a walk that lists `path` looks at nothing but the children of `path`,
/// and does so below it.
pub open spec fn sees_children_only(tree: Tree, mode: ModeModel, path: Seq<char>) -> bool {
    mode is Glob || (!lists_itself(tree, path) && directories_are_no_files(tree))
}

/// The child by way of which names lead to an entry.
pub proof fn lemma_lies_by_way_of(
    tree: Tree,
    mode: ModeModel,
    path: Seq<char>,
    n: int,
    names: Seq<Seq<char>>,
    entry: StatusModel,
) -> (k: int)
    requires
        lies_among(tree, mode, path, n, names, entry),
    ensures
        0 <= k < n,
        names.len() > 0,
        considers(mode, path, children_of(tree, path)[k]),
        base_name(children_of(tree, path)[k].path) == names[0],
        names.len() == 1 ==> children_of(tree, path)[k] == entry,
        names.len() > 1 ==> children_of(tree, path)[k].isdir && lies_below(
            tree,
            mode,
            children_of(tree, path)[k].path,
            names.skip(1),
            entry,
        ),
    decreases n,
{
    if lies_among(tree, mode, path, n - 1, names, entry) {
        lemma_lies_by_way_of(tree, mode, path, n - 1, names, entry)
    } else {
        n - 1
    }
}

/// The path of an entry is made up of the names that lead to it.
pub proof fn lemma_lies_at_its_path(
    tree: Tree,
    mode: ModeModel,
    above: Seq<Seq<char>>,
    names: Seq<Seq<char>>,
    entry: StatusModel,
)
    requires
        is_plain(tree),
        are_names(above),
        sees_children_only(tree, mode, path_of(above)),
        lies_below(tree, mode, path_of(above), names, entry),
    ensures
        names.len() > 0,
        are_names(names),
        entry.path == path_of(above + names),
    decreases names.len(),
{
    let path = path_of(above);
    let children = children_of(tree, path);
    let k = lemma_lies_by_way_of(tree, mode, path, children.len() as int, names, entry);
    let name = names[0];
    assert(is_plain_at(tree, above));
    assert(is_child(above, children[k]));
    lemma_names_push(above, name);
    if names.len() == 1 {
        assert(above + names =~= above.push(name));
    } else {
        let rest = names.skip(1);
        assert(has_plain_directories(tree, path) || mode is Glob);
        lemma_lies_at_its_path(tree, mode, above.push(name), rest, entry);
        assert(above.push(name) + rest =~= above + names);
        assert forall|j: int| 0 <= j < names.len() implies is_name(#[trigger] names[j]) by {
            if j > 0 {
                assert(rest[j - 1] == names[j]);
            }
        }
    }
}

/// Names lead to one entry only.
proof fn lemma_names_lead_to_one(
    tree: Tree,
    mode: ModeModel,
    above: Seq<Seq<char>>,
    names: Seq<Seq<char>>,
    a: StatusModel,
    b: StatusModel,
)
    requires
        is_plain(tree),
        are_names(above),
        sees_children_only(tree, mode, path_of(above)),
        lies_below(tree, mode, path_of(above), names, a),
        lies_below(tree, mode, path_of(above), names, b),
    ensures
        a == b,
    decreases names.len(),
{
    let path = path_of(above);
    let children = children_of(tree, path);
    let i = lemma_lies_by_way_of(tree, mode, path, children.len() as int, names, a);
    let j = lemma_lies_by_way_of(tree, mode, path, children.len() as int, names, b);
    assert(is_plain_at(tree, above));
    assert(is_child(above, children[i]) && is_child(above, children[j]));
    assert(children[i].path == children[j].path);
    assert(i == j);
    if names.len() > 1 {
        lemma_names_push(above, names[0]);
        assert(has_plain_directories(tree, path) || mode is Glob);
        lemma_names_lead_to_one(tree, mode, above.push(names[0]), names.skip(1), a, b);
    }
}

/// Entries that are found and have the same path are the same.
proof fn lemma_found_at_one_path(
    tree: Tree,
    mode: ModeModel,
    task: TaskModel,
    above: Seq<Seq<char>>,
    a: StatusModel,
    b: StatusModel,
)
    requires
        is_finite(tree),
        is_plain(tree),
        mode is Glob || directories_are_no_files(tree),
        are_names(above),
        task.path == path_of(above),
        found(tree, mode, task, a) > 0,
        found(tree, mode, task, b) > 0,
        a.path == b.path,
    ensures
        a == b,
{
    let path = task.path;
    let children = children_of(tree, path);
    let n = children.len() as int;
    law_found_is_what_is_wanted(tree, mode, task, a);
    law_found_is_what_is_wanted(tree, mode, task, b);
    let a_names = choose|names: Seq<Seq<char>>|
        #[trigger] lies_below(tree, mode, path, names, a) && is_wanted(mode, task.states, names);
    let b_names = choose|names: Seq<Seq<char>>|
        #[trigger] lies_below(tree, mode, path, names, b) && is_wanted(mode, task.states, names);
    if mode is List && lists_itself(tree, path) {
        // A file, which is all that its listing gives.
        let k = choose|k: int| 0 <= k < children.len() && (#[trigger] children[k]).path == path;
        assert(is_plain_at(tree, above));
        if is_child(above, children[k]) {
            let name = base_name(children[k].path);
            lemma_names_push(above, name);
            lemma_path_determines_names(above, above.push(name));
        }
        let i = lemma_lies_by_way_of(tree, mode, path, n, a_names, a);
        let j = lemma_lies_by_way_of(tree, mode, path, n, b_names, b);
    } else {
        lemma_lies_at_its_path(tree, mode, above, a_names, a);
        lemma_lies_at_its_path(tree, mode, above, b_names, b);
        lemma_names_concat(above, a_names);
        lemma_names_concat(above, b_names);
        lemma_path_determines_names(above + a_names, above + b_names);
        assert(a_names =~= (above + a_names).skip(above.len() as int));
        assert(b_names =~= (above + b_names).skip(above.len() as int));
        lemma_names_lead_to_one(tree, mode, above, a_names, a, b);
    }
}

/// What occurs is counted, and what occurs at two places is counted twice.
pub proof fn lemma_times_at(items: Seq<StatusModel>, i: int, j: int)
    requires
        0 <= i < items.len(),
        0 <= j < items.len(),
    ensures
        times(items, items[i]) > 0,
        i != j && items[i] == items[j] ==> times(items, items[i]) > 1,
    decreases items.len(),
{
    let last = items.len() - 1;
    let front = items.drop_last();
    if i < last && j < last {
        lemma_times_at(front, i, j);
    } else if i < last {
        lemma_times_at(front, i, i);
    } else if j < last {
        lemma_times_at(front, j, j);
    }
}

/// Law: no two entries that a listing hands out have the same path, if the
/// listed path is made up of names and no directory lists itself.
pub proof fn law_list_walk_hands_out_no_path_twice(
    tree: Tree,
    names: Seq<Seq<char>>,
    recursive: bool,
    max_parallelism: int,
    moves: Seq<Move>,
)
    requires
        is_finite(tree),
        is_plain(tree),
        directories_are_no_files(tree),
        are_names(names),
        can_run(tree, list_start(path_of(names), recursive, max_parallelism), moves),
    ensures
        ({
            let sent = run_of(
                tree,
                list_start(path_of(names), recursive, max_parallelism),
                moves,
            ).sent;
            forall|i: int, j: int|
                0 <= i < j < sent.len() ==> (#[trigger] sent[i]).path != (#[trigger] sent[j]).path
        }),
{
    let start = list_start(path_of(names), recursive, max_parallelism);
    let sent = run_of(tree, start, moves).sent;
    let task = start.pending[0];
    assert(start.pending.drop_last() =~= Seq::empty());
    assert forall|i: int, j: int| 0 <= i < j < sent.len() implies (#[trigger] sent[i]).path != (
    #[trigger] sent[j]).path by {
        let a = sent[i];
        let b = sent[j];
        lemma_times_at(sent, i, j);
        lemma_times_at(sent, j, i);
        law_list_walk_hands_out_nothing_twice(
            tree,
            names,
            recursive,
            max_parallelism,
            moves,
            a,
        );
        law_walk_loses_nothing(tree, start, moves, a);
        law_walk_loses_nothing(tree, start, moves, b);
        assert(found_in_all(tree, start.mode, start.pending.drop_last(), a) == 0);
        assert(found_in_all(tree, start.mode, start.pending.drop_last(), b) == 0);
        if a.path == b.path {
            lemma_found_at_one_path(tree, start.mode, task, names, a, b);
        }
    }
}

/// Law: no two entries that a glob hands out have the same path.
pub proof fn law_glob_walk_hands_out_no_path_twice(
    tree: Tree,
    pattern: Seq<char>,
    max_parallelism: int,
    moves: Seq<Move>,
)
    requires
        is_finite(tree),
        is_plain(tree),
        compiled(pattern) is Ok,
        can_run(tree, glob_start(compiled(pattern)->Ok_0, max_parallelism), moves),
    ensures
        ({
            let sent = run_of(
                tree,
                glob_start(compiled(pattern)->Ok_0, max_parallelism),
                moves,
            ).sent;
            forall|i: int, j: int|
                0 <= i < j < sent.len() ==> (#[trigger] sent[i]).path != (#[trigger] sent[j]).path
        }),
{
    let plan = compiled(pattern)->Ok_0;
    let start = glob_start(plan, max_parallelism);
    let sent = run_of(tree, start, moves).sent;
    assert forall|i: int, j: int| 0 <= i < j < sent.len() implies (#[trigger] sent[i]).path != (
    #[trigger] sent[j]).path by {
        let a = sent[i];
        let b = sent[j];
        lemma_times_at(sent, i, j);
        lemma_times_at(sent, j, i);
        law_glob_walk_hands_out_nothing_twice(tree, pattern, max_parallelism, moves, a);
        law_walk_loses_nothing(tree, start, moves, a);
        law_walk_loses_nothing(tree, start, moves, b);
        if a.path == b.path {
            lemma_glob_found_at_one_path(tree, pattern, max_parallelism, a, b);
        }
    }
}

/// [`lemma_found_at_one_path`], for all that a glob finds: the root and what
/// lies below it.
proof fn lemma_glob_found_at_one_path(
    tree: Tree,
    pattern: Seq<char>,
    max_parallelism: int,
    a: StatusModel,
    b: StatusModel,
)
    requires
        is_finite(tree),
        is_plain(tree),
        compiled(pattern) is Ok,
        found_by(tree, glob_start(compiled(pattern)->Ok_0, max_parallelism), a) > 0,
        found_by(tree, glob_start(compiled(pattern)->Ok_0, max_parallelism), b) > 0,
        a.path == b.path,
    ensures
        a == b,
{
    let plan = compiled(pattern)->Ok_0;
    let start = glob_start(plan, max_parallelism);
    let mode = start.mode;
    let above = root_names(pattern);
    let task = TaskModel { path: plan.root, states: plan.initial };
    let n = children_of(tree, task.path).len() as int;
    law_walk_finds_the_selected_paths(pattern, above, above);
    lemma_root_names(pattern);
    if plan.initial.len() > 0 {
        assert(start.pending.drop_last() =~= Seq::empty());
        assert(found_in_all(tree, mode, start.pending.drop_last(), a) == 0);
        assert(found_in_all(tree, mode, start.pending.drop_last(), b) == 0);
        assert(start.pending.last() == task);
        let a_below = found(tree, mode, task, a) > 0;
        let b_below = found(tree, mode, task, b) > 0;
        if a_below && b_below {
            lemma_found_at_one_path(tree, mode, task, above, a, b);
        } else if a_below || b_below {
            // One is the root, and the other lies below it.
            let (k, rest) = lemma_found_path(
                tree,
                mode,
                task,
                above,
                n,
                if a_below {
                    a
                } else {
                    b
                },
            );
            lemma_names_concat(above, rest);
            lemma_path_determines_names(above, above + rest);
            assert(rest.len() == 0);
        }
    }
}

} // verus!
