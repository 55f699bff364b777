//! In a tree whose paths are made up of names, a walk lists no directory twice.

use vstd::prelude::*;

use crate::coverage::action_after;
use crate::coverage::can_move;
use crate::coverage::can_run;
use crate::coverage::children_of;
use crate::coverage::event_of;
use crate::coverage::is_finite;
use crate::coverage::lower_below;
use crate::coverage::run_after;
use crate::coverage::run_of;
use crate::coverage::Move;
use crate::coverage::Run;
use crate::coverage::Tree;
use crate::glob::compiled;
use crate::glob::path_of;
use crate::names::are_names;
use crate::names::lemma_names_concat;
use crate::names::lemma_names_push;
use crate::names::lemma_path_determines_names;
use crate::names::lemma_root_names;
use crate::once::is_child;
use crate::once::is_plain;
use crate::once::is_plain_at;
use crate::reach::root_names;
use crate::selection::law_walk_finds_the_selected_paths;
use crate::walk::base_name;
use crate::walk::child_entered;
use crate::walk::child_task;
use crate::walk::decided;
use crate::walk::entered;
use crate::walk::glob_start;
use crate::walk::list_start;
use crate::walk::noted;
use crate::walk::ActionModel;
use crate::walk::ModeModel;
use crate::walk::TaskModel;
use crate::walk::WalkModel;

verus! {

/// The paths that a walk starts to list along `moves`, in order.
pub open spec fn listed_paths(tree: Tree, start: WalkModel, moves: Seq<Move>) -> Seq<Seq<char>>
    decreases moves.len(),
{
    if moves.len() == 0 {
        Seq::empty()
    } else {
        let before = listed_paths(tree, start, moves.drop_last());
        match action_after(tree, run_of(tree, start, moves.drop_last()), moves.last()) {
            ActionModel::List(task) => before.push(task.path),
            _ => before,
        }
    }
}

/// How often `path` occurs in `paths`.
spec fn occurrences(paths: Seq<Seq<char>>, path: Seq<char>) -> nat
    decreases paths.len(),
{
    if paths.len() == 0 {
        0
    } else {
        occurrences(paths.drop_last(), path) + if paths.last() == path {
            1nat
        } else {
            0nat
        }
    }
}

/// How often a walk enters `path` among the first `n` children of the directory
/// of `task`, and below them.
spec fn entered_among(
    tree: Tree,
    mode: ModeModel,
    task: TaskModel,
    n: int,
    path: Seq<char>,
) -> nat
    decreases (tree.height)(task.path), n,
{
    if n <= 0 {
        0
    } else {
        let child = children_of(tree, task.path)[n - 1];
        let before = entered_among(tree, mode, task, n - 1, path);
        if child_entered(mode, task, child) && (tree.height)(child.path) < (tree.height)(
            task.path,
        ) {
            let here = if child.path == path {
                1nat
            } else {
                0nat
            };
            before + here + entered_among(
                tree,
                mode,
                child_task(mode, task, child),
                children_of(tree, child.path).len() as int,
                path,
            )
        } else {
            before
        }
    }
}

/// How often a walk enters `path` below the directory of `task`.
spec fn entered_below(tree: Tree, mode: ModeModel, task: TaskModel, path: Seq<char>) -> nat {
    entered_among(tree, mode, task, children_of(tree, task.path).len() as int, path)
}

/// How often a walk enters `path` below the directories of `items`.
spec fn entered_below_all(
    tree: Tree,
    mode: ModeModel,
    items: Seq<TaskModel>,
    path: Seq<char>,
) -> nat
    decreases items.len(),
{
    if items.len() == 0 {
        0
    } else {
        entered_below_all(tree, mode, items.drop_last(), path) + entered_below(
            tree,
            mode,
            items.last(),
            path,
        )
    }
}

/// The paths of `items`.
spec fn paths_of(items: Seq<TaskModel>) -> Seq<Seq<char>> {
    Seq::new(items.len(), |k: int| items[k].path)
}

proof fn lemma_occurrences_concat(a: Seq<Seq<char>>, b: Seq<Seq<char>>, path: Seq<char>)
    ensures
        occurrences(a + b, path) == occurrences(a, path) + occurrences(b, path),
    decreases b.len(),
{
    if b.len() == 0 {
        assert(a + b =~= a);
    } else {
        lemma_occurrences_concat(a, b.drop_last(), path);
        assert((a + b).drop_last() =~= a + b.drop_last());
    }
}

proof fn lemma_occurrences_push(a: Seq<Seq<char>>, b: Seq<char>, path: Seq<char>)
    ensures
        occurrences(a.push(b), path) == occurrences(a, path) + if b == path {
            1nat
        } else {
            0nat
        },
{
    assert(a.push(b).drop_last() =~= a);
}

/// What occurs is counted, and what occurs at two places is counted twice.
proof fn lemma_occurrences_at(paths: Seq<Seq<char>>, i: int, j: int)
    requires
        0 <= i < paths.len(),
        0 <= j < paths.len(),
    ensures
        occurrences(paths, paths[i]) > 0,
        i != j && paths[i] == paths[j] ==> occurrences(paths, paths[i]) > 1,
    decreases paths.len(),
{
    let last = paths.len() - 1;
    let front = paths.drop_last();
    if i < last && j < last {
        lemma_occurrences_at(front, i, j);
    } else if i < last {
        lemma_occurrences_at(front, i, i);
    } else if j < last {
        lemma_occurrences_at(front, j, j);
    }
}

proof fn lemma_entered_concat(
    tree: Tree,
    mode: ModeModel,
    a: Seq<TaskModel>,
    b: Seq<TaskModel>,
    path: Seq<char>,
)
    ensures
        entered_below_all(tree, mode, a + b, path) == entered_below_all(tree, mode, a, path)
            + entered_below_all(tree, mode, b, path),
    decreases b.len(),
{
    if b.len() == 0 {
        assert(a + b =~= a);
    } else {
        lemma_entered_concat(tree, mode, a, b.drop_last(), path);
        assert((a + b).drop_last() =~= a + b.drop_last());
    }
}

/// Taking one task out takes out what is entered below it.
proof fn lemma_entered_remove(
    tree: Tree,
    mode: ModeModel,
    items: Seq<TaskModel>,
    k: int,
    path: Seq<char>,
)
    requires
        0 <= k < items.len(),
    ensures
        entered_below_all(tree, mode, items, path) == entered_below_all(
            tree,
            mode,
            items.remove(k),
            path,
        ) + entered_below(tree, mode, items[k], path),
{
    let a = items.take(k);
    let b = items.skip(k + 1);
    let one = seq![items[k]];
    assert(items =~= a + one + b);
    assert(items.remove(k) =~= a + b);
    lemma_entered_concat(tree, mode, a + one, b, path);
    lemma_entered_concat(tree, mode, a, one, path);
    lemma_entered_concat(tree, mode, a, b, path);
    assert(one.drop_last() =~= Seq::empty());
    assert(entered_below_all(tree, mode, one.drop_last(), path) == 0);
}

/// What is entered among children is those that are entered and what is entered
/// below them.
proof fn lemma_entered_among(
    tree: Tree,
    mode: ModeModel,
    task: TaskModel,
    n: int,
    path: Seq<char>,
)
    requires
        is_finite(tree),
        0 <= n <= children_of(tree, task.path).len(),
    ensures
        ({
            let into = entered(mode, task, children_of(tree, task.path).take(n));
            entered_among(tree, mode, task, n, path) == occurrences(paths_of(into), path)
                + entered_below_all(tree, mode, into, path)
        }),
    decreases n,
{
    let children = children_of(tree, task.path);
    if n > 0 {
        let front = children.take(n);
        let child = children[n - 1];
        lemma_entered_among(tree, mode, task, n - 1, path);
        assert(front.drop_last() =~= children.take(n - 1));
        assert(front.last() == child);
        let into = entered(mode, task, front.drop_last());
        if child_entered(mode, task, child) {
            let next = child_task(mode, task, child);
            assert(into.push(next).drop_last() =~= into);
            assert(paths_of(into.push(next)) =~= paths_of(into).push(child.path));
            lemma_occurrences_push(paths_of(into), child.path, path);
            assert(lower_below(tree, task.path));
            assert(children_of(tree, task.path)[n - 1].isdir);
        }
    }
}

/// How often a walk has still to list `path`.
spec fn to_be_listed(tree: Tree, run: Run, path: Seq<char>) -> nat {
    occurrences(paths_of(run.walk.pending), path) + entered_below_all(
        tree,
        run.walk.mode,
        run.walk.pending,
        path,
    ) + entered_below_all(tree, run.walk.mode, run.flying, path)
}

/// One move starts listing nothing that was not to be listed, and loses nothing.
proof fn lemma_move_keeps_balance(tree: Tree, run: Run, step: Move, path: Seq<char>)
    requires
        is_finite(tree),
        can_move(run, step),
    ensures
        to_be_listed(tree, run, path) == to_be_listed(tree, run_after(tree, run, step), path)
            + match action_after(tree, run, step) {
            ActionModel::List(task) => if task.path == path {
                1nat
            } else {
                0nat
            },
            _ => 0nat,
        },
{
    let mode = run.walk.mode;
    let mid = noted(run.walk, event_of(tree, run, step));
    let flying = match step {
        Move::Listed(k) => run.flying.remove(k),
        _ => run.flying,
    };
    // Taking note of the event.
    let after_event = occurrences(paths_of(mid.pending), path) + entered_below_all(
        tree,
        mode,
        mid.pending,
        path,
    ) + entered_below_all(tree, mode, flying, path);
    assert(after_event == to_be_listed(tree, run, path)) by {
        if let Move::Listed(k) = step {
            let task = run.flying[k];
            let children = children_of(tree, task.path);
            let into = entered(mode, task, children);
            lemma_entered_remove(tree, mode, run.flying, k, path);
            lemma_entered_among(tree, mode, task, children.len() as int, path);
            assert(children.take(children.len() as int) =~= children);
            lemma_entered_concat(tree, mode, run.walk.pending, into, path);
            assert(paths_of(run.walk.pending + into) =~= paths_of(run.walk.pending) + paths_of(
                into,
            ));
            lemma_occurrences_concat(paths_of(run.walk.pending), paths_of(into), path);
        }
    }
    // The next action.
    if let ActionModel::List(task) = decided(mid).0 {
        lemma_entered_remove(tree, mode, mid.pending, 0, path);
        assert(mid.pending.remove(0) =~= mid.pending.skip(1));
        assert(flying.push(task).drop_last() =~= flying);
        let one = seq![task.path];
        assert(paths_of(mid.pending) =~= one + paths_of(mid.pending.skip(1)));
        lemma_occurrences_concat(one, paths_of(mid.pending.skip(1)), path);
        assert(one =~= Seq::empty().push(task.path));
        lemma_occurrences_push(Seq::empty(), task.path, path);
    }
}

/// What was listed and what is to be listed make up what there is to be listed.
proof fn lemma_listings_balance(
    tree: Tree,
    start: WalkModel,
    moves: Seq<Move>,
    path: Seq<char>,
)
    requires
        is_finite(tree),
        can_run(tree, start, moves),
    ensures
        occurrences(listed_paths(tree, start, moves), path) + to_be_listed(
            tree,
            run_of(tree, start, moves),
            path,
        ) == occurrences(paths_of(start.pending), path) + entered_below_all(
            tree,
            start.mode,
            start.pending,
            path,
        ),
    decreases moves.len(),
{
    if moves.len() > 0 {
        let run = run_of(tree, start, moves.drop_last());
        lemma_listings_balance(tree, start, moves.drop_last(), path);
        lemma_move_keeps_balance(tree, run, moves.last(), path);
        if let ActionModel::List(task) = action_after(tree, run, moves.last()) {
            lemma_occurrences_push(
                listed_paths(tree, start, moves.drop_last()),
                task.path,
                path,
            );
        }
    }
}

/// The child by way of which a path is entered, and the names that lead to it.
proof fn lemma_entered_path(
    tree: Tree,
    mode: ModeModel,
    task: TaskModel,
    above: Seq<Seq<char>>,
    n: int,
    path: Seq<char>,
) -> (r: (int, Seq<Seq<char>>))
    requires
        is_plain(tree),
        are_names(above),
        task.path == path_of(above),
        n <= children_of(tree, task.path).len(),
        entered_among(tree, mode, task, n, path) > 0,
    ensures
        0 <= r.0 < n,
        r.1.len() > 0,
        are_names(r.1),
        path == path_of(above + r.1),
        children_of(tree, task.path)[r.0].path == path_of(above.push(r.1[0])),
    decreases (tree.height)(task.path), n,
{
    let child = children_of(tree, task.path)[n - 1];
    if entered_among(tree, mode, task, n - 1, path) > 0 {
        lemma_entered_path(tree, mode, task, above, n - 1, path)
    } else {
        assert(is_plain_at(tree, above));
        assert(is_child(above, child));
        let name = base_name(child.path);
        if child.path == path {
            let rest = seq![name];
            assert(above + rest =~= above.push(name));
            (n - 1, rest)
        } else {
            lemma_names_push(above, name);
            let (k, more) = lemma_entered_path(
                tree,
                mode,
                child_task(mode, task, child),
                above.push(name),
                children_of(tree, child.path).len() as int,
                path,
            );
            let rest = seq![name] + more;
            assert(above.push(name) + more =~= above + rest);
            (n - 1, rest)
        }
    }
}

/// A path is entered at most once.
proof fn lemma_entered_once(
    tree: Tree,
    mode: ModeModel,
    task: TaskModel,
    above: Seq<Seq<char>>,
    n: int,
    path: Seq<char>,
)
    requires
        is_plain(tree),
        are_names(above),
        task.path == path_of(above),
        n <= children_of(tree, task.path).len(),
    ensures
        entered_among(tree, mode, task, n, path) <= 1,
    decreases (tree.height)(task.path), n,
{
    if n > 0 {
        let children = children_of(tree, task.path);
        let child = children[n - 1];
        lemma_entered_once(tree, mode, task, above, n - 1, path);
        if child_entered(mode, task, child) && (tree.height)(child.path) < (tree.height)(
            task.path,
        ) {
            assert(is_plain_at(tree, above));
            assert(is_child(above, child));
            let name = base_name(child.path);
            let level = above.push(name);
            let next = child_task(mode, task, child);
            let count = children_of(tree, child.path).len() as int;
            lemma_names_push(above, name);
            lemma_entered_once(tree, mode, next, level, count, path);
            let below = entered_among(tree, mode, next, count, path);
            // The names that lead to the path by way of this child.
            let mut rest = Seq::<Seq<char>>::empty();
            assert(level + rest =~= level);
            if below > 0 {
                let (k, more) = lemma_entered_path(tree, mode, next, level, count, path);
                lemma_names_concat(level, more);
                if child.path == path {
                    lemma_path_determines_names(level, level + more);
                    assert(level.len() < (level + more).len());
                }
                rest = more;
            }
            if (child.path == path || below > 0) && entered_among(tree, mode, task, n - 1, path)
                > 0 {
                let (j, other) = lemma_entered_path(tree, mode, task, above, n - 1, path);
                lemma_names_concat(level, rest);
                lemma_names_concat(above, other);
                lemma_path_determines_names(level + rest, above + other);
                assert((level + rest)[above.len() as int] == name);
                assert((above + other)[above.len() as int] == other[0]);
                assert(children[j].path == child.path);
            }
        }
    }
}

/// A walk that starts with one directory, whose path is made up of names, lists
/// no path twice.
proof fn lemma_lists_once(
    tree: Tree,
    start: WalkModel,
    above: Seq<Seq<char>>,
    moves: Seq<Move>,
)
    requires
        is_finite(tree),
        is_plain(tree),
        are_names(above),
        start.pending.len() <= 1,
        start.pending.len() == 1 ==> start.pending[0].path == path_of(above),
        can_run(tree, start, moves),
    ensures
        listed_paths(tree, start, moves).no_duplicates(),
{
    let listed = listed_paths(tree, start, moves);
    assert forall|path: Seq<char>| #[trigger] occurrences(listed, path) <= 1 by {
        lemma_listings_balance(tree, start, moves, path);
        if start.pending.len() == 1 {
            let task = start.pending[0];
            let n = children_of(tree, task.path).len() as int;
            assert(start.pending.drop_last() =~= Seq::empty());
            assert(entered_below_all(tree, start.mode, start.pending.drop_last(), path) == 0);
            assert(paths_of(start.pending) =~= Seq::empty().push(task.path));
            lemma_occurrences_push(Seq::empty(), task.path, path);
            lemma_entered_once(tree, start.mode, task, above, n, path);
            if task.path == path && entered_below(tree, start.mode, task, path) > 0 {
                let (k, rest) = lemma_entered_path(tree, start.mode, task, above, n, path);
                lemma_names_concat(above, rest);
                lemma_path_determines_names(above, above + rest);
                assert(above.len() < (above + rest).len());
            }
        }
    }
    assert forall|i: int, j: int|
        0 <= i < listed.len() && 0 <= j < listed.len() && i != j implies listed[i]
        != listed[j] by {
        lemma_occurrences_at(listed, i, j);
        assert(occurrences(listed, listed[i]) <= 1);
    }
}

/// Law: a listing lists no directory twice: there is one listing for each
/// directory. The listed path has to be made up of names.
pub proof fn law_list_walk_lists_nothing_twice(
    tree: Tree,
    names: Seq<Seq<char>>,
    recursive: bool,
    max_parallelism: int,
    moves: Seq<Move>,
)
    requires
        is_finite(tree),
        is_plain(tree),
        are_names(names),
        can_run(tree, list_start(path_of(names), recursive, max_parallelism), moves),
    ensures
        listed_paths(
            tree,
            list_start(path_of(names), recursive, max_parallelism),
            moves,
        ).no_duplicates(),
{
    lemma_lists_once(tree, list_start(path_of(names), recursive, max_parallelism), names, moves);
}

/// Law: a glob lists no directory twice, also if alternatives of its pattern
/// overlap: there is one listing for each candidate directory.
pub proof fn law_glob_walk_lists_nothing_twice(
    tree: Tree,
    pattern: Seq<char>,
    max_parallelism: int,
    moves: Seq<Move>,
)
    requires
        is_finite(tree),
        is_plain(tree),
        compiled(pattern) is Ok,
        can_run(tree, glob_start(compiled(pattern)->Ok_0, max_parallelism), moves),
    ensures
        listed_paths(
            tree,
            glob_start(compiled(pattern)->Ok_0, max_parallelism),
            moves,
        ).no_duplicates(),
{
    let above = root_names(pattern);
    law_walk_finds_the_selected_paths(pattern, above, above);
    lemma_root_names(pattern);
    lemma_lists_once(
        tree,
        glob_start(compiled(pattern)->Ok_0, max_parallelism),
        above,
        moves,
    );
}

} // verus!
