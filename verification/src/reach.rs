//! Which entries of a tree a walk finds, in terms of the names that lead to
//! them.

use vstd::prelude::*;

use crate::component::Comp;
use crate::coverage::can_run;
use crate::coverage::children_of;
use crate::coverage::found;
use crate::coverage::found_among;
use crate::coverage::found_by;
use crate::coverage::found_by_stat;
use crate::coverage::found_in_all;
use crate::coverage::is_finite;
use crate::coverage::law_finished_walk_is_complete;
use crate::coverage::lower_below;
use crate::coverage::run_of;
use crate::coverage::times;
use crate::coverage::Move;
use crate::coverage::Tree;
use crate::entry::StatusModel;
use crate::error::ErrorModel;
use crate::glob::compiled;
use crate::glob::literal_names;
use crate::glob::path_of;
use crate::glob::shared_literals;
use crate::glob::step_next;
use crate::selection::law_walk_finds_the_selected_paths;
use crate::selection::selects;
use crate::selection::walk_emits;
use crate::walk::base_name;
use crate::walk::child_emits;
use crate::walk::child_entered;
use crate::walk::child_task;
use crate::walk::considers;
use crate::walk::glob_start;
use crate::walk::list_start;
use crate::walk::ModeModel;
use crate::walk::TaskModel;

verus! {

/// Whether `names`, one for each level, lead from `path` to `entry`, by way of
/// one of the first `n` children of `path`.
pub open spec fn lies_among(
    tree: Tree,
    mode: ModeModel,
    path: Seq<char>,
    n: int,
    names: Seq<Seq<char>>,
    entry: StatusModel,
) -> bool
    decreases names.len(), n,
{
    if names.len() == 0 || n <= 0 {
        false
    } else {
        let child = children_of(tree, path)[n - 1];
        lies_among(tree, mode, path, n - 1, names, entry) || (considers(mode, path, child)
            && base_name(child.path) == names[0] && if names.len() == 1 {
            child == entry
        } else {
            child.isdir && lies_among(
                tree,
                mode,
                child.path,
                children_of(tree, child.path).len() as int,
                names.skip(1),
                entry,
            )
        })
    }
}

/// Whether `names`, one for each level, lead from `path` to `entry`.
pub open spec fn lies_below(
    tree: Tree,
    mode: ModeModel,
    path: Seq<char>,
    names: Seq<Seq<char>>,
    entry: StatusModel,
) -> bool {
    lies_among(tree, mode, path, children_of(tree, path).len() as int, names, entry)
}

/// Whether a walk in a directory with `states` looks for the entry to which
/// `names` lead from there.
pub open spec fn is_wanted(
    mode: ModeModel,
    states: Seq<(int, int)>,
    names: Seq<Seq<char>>,
) -> bool {
    match mode {
        ModeModel::List(recursive) => names.len() == 1 || (recursive && names.len() > 1),
        ModeModel::Glob(plan) => walk_emits(plan.patterns, states, names),
    }
}

/// Without states, nothing is emitted.
proof fn lemma_no_states_emit_nothing(patterns: Seq<Seq<Comp>>, names: Seq<Seq<char>>)
    ensures
        !walk_emits(patterns, Seq::empty(), names),
    decreases names.len(),
{
    if names.len() > 1 {
        assert(step_next(patterns, Seq::empty(), names[0], true) == Seq::<(int, int)>::empty());
        lemma_no_states_emit_nothing(patterns, names.skip(1));
    }
}

/// An entry that names lead to, and that is wanted, is found.
proof fn lemma_wanted_is_found(
    tree: Tree,
    mode: ModeModel,
    task: TaskModel,
    n: int,
    names: Seq<Seq<char>>,
    entry: StatusModel,
)
    requires
        is_finite(tree),
        0 <= n <= children_of(tree, task.path).len(),
        lies_among(tree, mode, task.path, n, names, entry),
        is_wanted(mode, task.states, names),
    ensures
        found_among(tree, mode, task, n, entry) > 0,
    decreases names.len(), n,
{
    let child = children_of(tree, task.path)[n - 1];
    if lies_among(tree, mode, task.path, n - 1, names, entry) {
        lemma_wanted_is_found(tree, mode, task, n - 1, names, entry);
    } else if names.len() > 1 {
        let next = child_task(mode, task, child);
        if next.states.len() == 0 {
            if let ModeModel::Glob(plan) = mode {
                assert(next.states =~= Seq::empty());
                lemma_no_states_emit_nothing(plan.patterns, names.skip(1));
            }
        }
        assert(child_entered(mode, task, child));
        assert(lower_below(tree, task.path));
        lemma_wanted_is_found(
            tree,
            mode,
            next,
            children_of(tree, child.path).len() as int,
            names.skip(1),
            entry,
        );
    }
}

/// An entry that is found is one that names lead to, and that is wanted.
proof fn lemma_found_is_wanted(
    tree: Tree,
    mode: ModeModel,
    task: TaskModel,
    n: int,
    entry: StatusModel,
) -> (names: Seq<Seq<char>>)
    requires
        found_among(tree, mode, task, n, entry) > 0,
    ensures
        lies_among(tree, mode, task.path, n, names, entry),
        is_wanted(mode, task.states, names),
    decreases (tree.height)(task.path), n,
{
    let child = children_of(tree, task.path)[n - 1];
    if found_among(tree, mode, task, n - 1, entry) > 0 {
        lemma_found_is_wanted(tree, mode, task, n - 1, entry)
    } else if child_emits(mode, task, child) && child == entry {
        seq![base_name(child.path)]
    } else {
        let next = child_task(mode, task, child);
        let rest = lemma_found_is_wanted(
            tree,
            mode,
            next,
            children_of(tree, child.path).len() as int,
            entry,
        );
        let names = seq![base_name(child.path)] + rest;
        assert(names.skip(1) =~= rest);
        assert(names.len() > 1);
        names
    }
}

/// Law: a walk finds, below a directory, exactly the entries that names lead to
/// and that it looks for.
pub proof fn law_found_is_what_is_wanted(
    tree: Tree,
    mode: ModeModel,
    task: TaskModel,
    entry: StatusModel,
)
    requires
        is_finite(tree),
    ensures
        found(tree, mode, task, entry) > 0 <==> exists|names: Seq<Seq<char>>|
            #[trigger] lies_below(tree, mode, task.path, names, entry) && is_wanted(
                mode,
                task.states,
                names,
            ),
{
    let n = children_of(tree, task.path).len() as int;
    if found(tree, mode, task, entry) > 0 {
        let names = lemma_found_is_wanted(tree, mode, task, n, entry);
        assert(lies_below(tree, mode, task.path, names, entry));
    }
    assert forall|names: Seq<Seq<char>>|
        #[trigger] lies_below(tree, mode, task.path, names, entry) && is_wanted(
            mode,
            task.states,
            names,
        ) implies found(tree, mode, task, entry) > 0 by {
        lemma_wanted_is_found(tree, mode, task, n, names, entry);
    }
}

/// Law: a listing that ended without an error, and whose consumer did not
/// leave, has handed out exactly the children of the root or, if it is
/// recursive, exactly what lies below the root.
pub proof fn law_list_walk_hands_out_the_subtree(
    tree: Tree,
    root: Seq<char>,
    recursive: bool,
    max_parallelism: int,
    moves: Seq<Move>,
    entry: StatusModel,
)
    requires
        is_finite(tree),
        can_run(tree, list_start(root, recursive, max_parallelism), moves),
        run_of(tree, list_start(root, recursive, max_parallelism), moves).walk.finished,
        run_of(tree, list_start(root, recursive, max_parallelism), moves).reported.len() == 0,
        !run_of(tree, list_start(root, recursive, max_parallelism), moves).left,
    ensures
        times(run_of(tree, list_start(root, recursive, max_parallelism), moves).sent, entry) > 0
            <==> exists|names: Seq<Seq<char>>|
            #[trigger] lies_below(tree, ModeModel::List(recursive), root, names, entry) && (
            recursive || names.len() == 1),
{
    let start = list_start(root, recursive, max_parallelism);
    let mode = start.mode;
    let task = start.pending[0];
    law_finished_walk_is_complete(tree, start, moves, entry);
    assert(start.pending.drop_last() =~= Seq::empty());
    assert(found_in_all(tree, mode, start.pending.drop_last(), entry) == 0);
    law_found_is_what_is_wanted(tree, mode, task, entry);
    if exists|names: Seq<Seq<char>>|
        #[trigger] lies_below(tree, mode, root, names, entry) && (recursive || names.len() == 1) {
        let names = choose|names: Seq<Seq<char>>|
            #[trigger] lies_below(tree, mode, root, names, entry) && (recursive || names.len()
                == 1);
        assert(is_wanted(mode, task.states, names));
    }
    if found(tree, mode, task, entry) > 0 {
        let names = choose|names: Seq<Seq<char>>|
            #[trigger] lies_below(tree, mode, task.path, names, entry) && is_wanted(
                mode,
                task.states,
                names,
            );
        assert(lies_below(tree, mode, root, names, entry));
    }
}

/// The names that make up the root of the plan for `pattern`.
pub open spec fn root_names(pattern: Seq<char>) -> Seq<Seq<char>> {
    literal_names(
        compiled(pattern)->Ok_0.patterns[0],
        shared_literals(compiled(pattern)->Ok_0.patterns, 0),
    )
}

/// Law: a glob that ended without an error, and whose consumer did not leave,
/// has handed out exactly what its pattern selects: the entries below the root
/// whose names the pattern selects, and the root itself, if it exists and some
/// alternative of the pattern is fully literal. (That a `**` right after the
/// root may take zero levels does not make the walk hand out the root.)
pub proof fn law_glob_walk_hands_out_the_selected_entries(
    tree: Tree,
    pattern: Seq<char>,
    max_parallelism: int,
    moves: Seq<Move>,
    entry: StatusModel,
)
    requires
        is_finite(tree),
        compiled(pattern) is Ok,
        can_run(tree, glob_start(compiled(pattern)->Ok_0, max_parallelism), moves),
        run_of(
            tree,
            glob_start(compiled(pattern)->Ok_0, max_parallelism),
            moves,
        ).walk.finished,
        run_of(
            tree,
            glob_start(compiled(pattern)->Ok_0, max_parallelism),
            moves,
        ).reported.len() == 0,
        !run_of(tree, glob_start(compiled(pattern)->Ok_0, max_parallelism), moves).left,
    ensures
        compiled(pattern)->Ok_0.root == path_of(root_names(pattern)),
        times(
            run_of(tree, glob_start(compiled(pattern)->Ok_0, max_parallelism), moves).sent,
            entry,
        ) > 0 <==> {
            ||| compiled(pattern)->Ok_0.emit_root && (tree.stat)(
                path_of(root_names(pattern)),
            ) == Ok::<StatusModel, ErrorModel>(entry)
            ||| exists|names: Seq<Seq<char>>|
                #[trigger] lies_below(
                    tree,
                    ModeModel::Glob(compiled(pattern)->Ok_0),
                    path_of(root_names(pattern)),
                    names,
                    entry,
                ) && selects(pattern, root_names(pattern) + names)
        },
{
    let plan = compiled(pattern)->Ok_0;
    let start = glob_start(plan, max_parallelism);
    let mode = start.mode;
    let above = root_names(pattern);
    let root = path_of(above);
    let task = TaskModel { path: plan.root, states: plan.initial };
    law_finished_walk_is_complete(tree, start, moves, entry);
    law_walk_finds_the_selected_paths(pattern, above, above);
    // The walk below the root.
    assert forall|names: Seq<Seq<char>>| #[trigger]
        lies_below(tree, mode, root, names, entry) implies selects(pattern, above + names)
        == is_wanted(mode, task.states, names) by {
        law_walk_finds_the_selected_paths(pattern, above, above + names);
        assert((above + names).take(above.len() as int) =~= above);
        assert((above + names).skip(above.len() as int) =~= names);
        assert(names.len() > 0);
    }
    law_found_is_what_is_wanted(tree, mode, task, entry);
    if plan.initial.len() > 0 {
        assert(start.pending.drop_last() =~= Seq::empty());
        assert(found_in_all(tree, mode, start.pending.drop_last(), entry) == 0);
        assert(start.pending.last() == task);
    } else {
        assert(plan.initial =~= Seq::empty());
        if found(tree, mode, task, entry) > 0 {
            let names = choose|names: Seq<Seq<char>>|
                #[trigger] lies_below(tree, mode, task.path, names, entry) && is_wanted(
                    mode,
                    task.states,
                    names,
                );
            lemma_no_states_emit_nothing(plan.patterns, names);
        }
    }
    assert(found_by(tree, start, entry) == found_by_stat(tree, start.stat_due, entry) + found(
        tree,
        mode,
        task,
        entry,
    ));
    if found(tree, mode, task, entry) > 0 {
        let names = choose|names: Seq<Seq<char>>|
            #[trigger] lies_below(tree, mode, task.path, names, entry) && is_wanted(
                mode,
                task.states,
                names,
            );
        assert(lies_below(tree, mode, root, names, entry) && selects(pattern, above + names));
    }
}

} // verus!
