//! Which directories a walk lists: none in which there is nothing to look for.

use vstd::prelude::*;

use crate::braces::expansion;
use crate::braces::law_expansions_are_brace_free;
use crate::choice::law_path_matches_concat;
use crate::choice::law_path_matches_one;
use crate::choice::path_divides;
use crate::component::comp_matches;
use crate::component::components_of;
use crate::component::Comp;
use crate::coverage::action_after;
use crate::coverage::can_run;
use crate::coverage::children_of;
use crate::coverage::run_of;
use crate::coverage::Move;
use crate::coverage::Run;
use crate::coverage::Tree;
use crate::entry::StatusModel;
use crate::glob::compiled;
use crate::glob::component_lists;
use crate::glob::literal_names;
use crate::glob::path_of;
use crate::glob::plan_of;
use crate::glob::position_next;
use crate::glob::shared_literals;
use crate::glob::start_states;
use crate::glob::step_next;
use crate::glob::PlanModel;
use crate::guarantees::is_chain;
use crate::guarantees::lists;
use crate::listings::listed_paths;
use crate::names::are_names;
use crate::names::lemma_names_push;
use crate::names::lemma_root_names;
use crate::once::is_child;
use crate::once::is_plain;
use crate::once::is_plain_at;
use crate::reach::root_names;
use crate::selection::law_walk_finds_the_selected_paths;
use crate::selection::lemma_literal_prefix;
use crate::selection::lemma_start_states;
use crate::selection::lemma_starts_with_root;
use crate::selection::lemma_step_next_contains;
use crate::selection::path_matches;
use crate::walk::base_name;
use crate::walk::child_entered;
use crate::walk::child_task;
use crate::walk::entered;
use crate::walk::glob_start;
use crate::walk::list_start;
use crate::walk::ActionModel;
use crate::walk::ModeModel;
use crate::walk::TaskModel;
use crate::walk::WalkModel;

verus! {

/// Whether `components` can match something below the path with the given
/// `names`: a start of them matches the names, and there is more to match or a
/// `**` that goes on.
pub open spec fn goes_on_below(components: Seq<Comp>, names: Seq<Seq<char>>) -> bool {
    exists|j: int| stops_at(components, names, j)
}

/// Whether the first `j` of `components` match `names`, and there is more to
/// match or a `**` that goes on.
pub open spec fn stops_at(components: Seq<Comp>, names: Seq<Seq<char>>, j: int) -> bool {
    &&& 0 <= j <= components.len()
    &&& path_matches(components.take(j), names)
    &&& j < components.len() || (j > 0 && components[j - 1] is Crawl)
}

/// What the states of a directory with the given `names` are about.
spec fn is_state_of(
    patterns: Seq<Seq<Comp>>,
    q: (int, int),
    names: Seq<Seq<char>>,
) -> bool {
    &&& 0 <= q.0 < patterns.len()
    &&& 0 <= q.1 < patterns[q.0].len()
    &&& path_matches(patterns[q.0].take(q.1), names) || (patterns[q.0][q.1] is Crawl
        && path_matches(patterns[q.0].take(q.1 + 1), names))
}

/// One component more matches one name more.
proof fn lemma_one_more(components: Seq<Comp>, j: int, names: Seq<Seq<char>>, name: Seq<char>)
    requires
        0 <= j < components.len(),
        path_matches(components.take(j), names),
        components[j] is Crawl || comp_matches(components[j], name),
    ensures
        path_matches(components.take(j + 1), names.push(name)),
{
    let c = components[j];
    let longer = names.push(name);
    let n = names.len() as int;
    assert(components.take(j + 1) =~= components.take(j) + seq![c]);
    assert(longer.take(n) =~= names);
    assert(longer.skip(n) =~= seq![name]);
    law_path_matches_one(c, seq![name]);
    assert(path_divides(components.take(j), seq![c], longer, n));
    law_path_matches_concat(components.take(j), seq![c], longer);
}

/// A `**` takes one name more, or none.
proof fn lemma_crawl_takes_more(
    components: Seq<Comp>,
    j: int,
    names: Seq<Seq<char>>,
    name: Seq<char>,
)
    requires
        0 <= j < components.len(),
        components[j] is Crawl,
        path_matches(components.take(j), names) || path_matches(components.take(j + 1), names),
    ensures
        path_matches(components.take(j + 1), names),
        path_matches(components.take(j + 1), names.push(name)),
{
    let c = components[j];
    let a = components.take(j);
    let longer = names.push(name);
    assert(components.take(j + 1) =~= a + seq![c]);
    law_path_matches_concat(a, seq![c], names);
    law_path_matches_concat(a, seq![c], longer);
    let k = if path_matches(a, names) {
        assert(names.take(names.len() as int) =~= names);
        names.len() as int
    } else {
        choose|k: int| path_divides(a, seq![c], names, k)
    };
    law_path_matches_one(c, names.skip(k));
    law_path_matches_one(c, longer.skip(k));
    assert(longer.take(k) =~= names.take(k));
    assert(path_divides(a, seq![c], names, k));
    assert(path_divides(a, seq![c], longer, k));
}

/// The states that a name leads to are about the longer path.
proof fn lemma_next_state(
    patterns: Seq<Seq<Comp>>,
    q: (int, int),
    names: Seq<Seq<char>>,
    name: Seq<char>,
    next: (int, int),
)
    requires
        is_state_of(patterns, q, names),
        position_next(patterns, q, name, true).contains(next),
    ensures
        is_state_of(patterns, next, names.push(name)),
{
    let components = patterns[q.0];
    if components[q.1] is Crawl {
        lemma_crawl_takes_more(components, q.1, names, name);
        if next != q {
            lemma_one_more(components, q.1 + 1, names, name);
        }
    } else {
        lemma_one_more(components, q.1, names, name);
    }
}

/// What a task of a glob is about.
spec fn is_task_of(
    patterns: Seq<Seq<Comp>>,
    task: TaskModel,
    names: Seq<Seq<char>>,
) -> bool {
    &&& are_names(names)
    &&& task.path == path_of(names)
    &&& task.states.len() > 0
    &&& forall|i: int|
        0 <= i < task.states.len() ==> is_state_of(patterns, #[trigger] task.states[i], names)
}

spec fn is_task(patterns: Seq<Seq<Comp>>, task: TaskModel) -> bool {
    exists|names: Seq<Seq<char>>| is_task_of(patterns, task, names)
}

spec fn are_tasks(
    patterns: Seq<Seq<Comp>>,
    items: Seq<TaskModel>,
) -> bool {
    forall|k: int| 0 <= k < items.len() ==> is_task(patterns, #[trigger] items[k])
}

proof fn lemma_child_is_a_task(
    tree: Tree,
    plan: PlanModel,
    task: TaskModel,
    child: StatusModel,
)
    requires
        is_plain(tree),
        is_task(plan.patterns, task),
        children_of(tree, task.path).contains(child),
        child_entered(ModeModel::Glob(plan), task, child),
    ensures
        is_task(plan.patterns, child_task(ModeModel::Glob(plan), task, child)),
{
    let patterns = plan.patterns;
    let names = choose|names: Seq<Seq<char>>| is_task_of(patterns, task, names);
    let children = children_of(tree, task.path);
    let k = choose|k: int| 0 <= k < children.len() && children[k] == child;
    assert(is_plain_at(tree, names));
    assert(is_child(names, child));
    let name = base_name(child.path);
    let next = child_task(ModeModel::Glob(plan), task, child);
    lemma_names_push(names, name);
    assert forall|i: int| 0 <= i < next.states.len() implies is_state_of(
        patterns,
        #[trigger] next.states[i],
        names.push(name),
    ) by {
        let q2 = next.states[i];
        assert(step_next(patterns, task.states, name, true).contains(q2));
        lemma_step_next_contains(patterns, task.states, name, true, q2);
        let j = choose|j: int|
            0 <= j < task.states.len() && position_next(
                patterns,
                #[trigger] task.states[j],
                name,
                true,
            ).contains(q2);
        lemma_next_state(patterns, task.states[j], names, name, q2);
    }
    assert(is_task_of(patterns, next, names.push(name)));
}

proof fn lemma_entered_are_tasks(
    tree: Tree,
    plan: PlanModel,
    task: TaskModel,
    children: Seq<StatusModel>,
)
    requires
        is_plain(tree),
        is_task(plan.patterns, task),
        forall|c: StatusModel| #[trigger]
            children.contains(c) ==> children_of(tree, task.path).contains(c),
    ensures
        are_tasks(plan.patterns, entered(ModeModel::Glob(plan), task, children)),
    decreases children.len(),
{
    if children.len() > 0 {
        let front = children.drop_last();
        assert forall|c: StatusModel| #[trigger]
            front.contains(c) implies children_of(tree, task.path).contains(c) by {
            let k = choose|k: int| 0 <= k < front.len() && front[k] == c;
            assert(children[k] == c);
            assert(children.contains(c));
        }
        lemma_entered_are_tasks(tree, plan, task, front);
        assert(children.contains(children.last()));
        if child_entered(ModeModel::Glob(plan), task, children.last()) {
            lemma_child_is_a_task(tree, plan, task, children.last());
        }
    }
}

spec fn has_tasks(plan: PlanModel, run: Run) -> bool {
    &&& run.walk.mode == ModeModel::Glob(plan)
    &&& are_tasks(plan.patterns, run.walk.pending)
    &&& are_tasks(plan.patterns, run.flying)
}

proof fn lemma_run_has_tasks(
    tree: Tree,
    plan: PlanModel,
    start: WalkModel,
    moves: Seq<Move>,
)
    requires
        is_plain(tree),
        start.mode == ModeModel::Glob(plan),
        are_tasks(plan.patterns, start.pending),
        can_run(tree, start, moves),
    ensures
        has_tasks(plan, run_of(tree, start, moves)),
        forall|i: int|
            0 <= i < listed_paths(tree, start, moves).len() ==> exists|task: TaskModel|
                #[trigger] is_task(plan.patterns, task) && task.path
                    == #[trigger] listed_paths(tree, start, moves)[i],
    decreases moves.len(),
{
    if moves.len() > 0 {
        let before = run_of(tree, start, moves.drop_last());
        lemma_run_has_tasks(tree, plan, start, moves.drop_last());
        if let Move::Listed(k) = moves.last() {
            let task = before.flying[k];
            assert(is_task(plan.patterns, task));
            lemma_entered_are_tasks(tree, plan, task, children_of(tree, task.path));
        }
        let earlier = listed_paths(tree, start, moves.drop_last());
        let listed = listed_paths(tree, start, moves);
        assert forall|i: int| 0 <= i < listed.len() implies exists|task: TaskModel|
            #[trigger] is_task(plan.patterns, task) && task.path
                == #[trigger] listed[i] by {
            if i < earlier.len() {
                assert(listed[i] == earlier[i]);
            } else {
                if let ActionModel::List(task) = action_after(tree, before, moves.last()) {
                    assert(is_task(plan.patterns, task));
                }
            }
        }
    }
}

/// Whether a directory is one in which a pattern has something to look for:
/// `path` is made up of `names`, and an alternative of the pattern can match
/// something below it.
pub open spec fn is_candidate(
    pattern: Seq<char>,
    path: Seq<char>,
    names: Seq<Seq<char>>,
    k: int,
) -> bool {
    &&& are_names(names)
    &&& path == path_of(names)
    &&& 0 <= k < expansion(pattern)->Ok_0.len()
    &&& goes_on_below(components_of(expansion(pattern)->Ok_0[k]), names)
}

/// Law: a glob lists only directories in which its pattern has something to look
/// for: a start of one of its alternatives matches the directory, and there is
/// more to match.
pub proof fn law_glob_lists_candidates_only(
    tree: Tree,
    pattern: Seq<char>,
    max_parallelism: int,
    moves: Seq<Move>,
    i: int,
)
    requires
        is_plain(tree),
        compiled(pattern) is Ok,
        can_run(tree, glob_start(compiled(pattern)->Ok_0, max_parallelism), moves),
        0 <= i < listed_paths(
            tree,
            glob_start(compiled(pattern)->Ok_0, max_parallelism),
            moves,
        ).len(),
    ensures
        exists|names: Seq<Seq<char>>, k: int|
            is_candidate(
                pattern,
                listed_paths(
                    tree,
                    glob_start(compiled(pattern)->Ok_0, max_parallelism),
                    moves,
                )[i],
                names,
                k,
            ),
{
    let plan = compiled(pattern)->Ok_0;
    let start = glob_start(plan, max_parallelism);
    let expansions = expansion(pattern)->Ok_0;
    let patterns = component_lists(expansions);
    let above = root_names(pattern);
    let n = shared_literals(patterns, 0);
    let path = listed_paths(tree, start, moves)[i];
    law_expansions_are_brace_free(pattern);
    assert(plan == plan_of(patterns));
    law_walk_finds_the_selected_paths(pattern, above, above);
    lemma_root_names(pattern);
    lemma_start_states(patterns, n, patterns.len() as int);
    if start.pending.len() > 0 {
        let task = start.pending[0];
        assert forall|j: int| 0 <= j < task.states.len() implies is_state_of(
            patterns,
            #[trigger] task.states[j],
            above,
        ) by {
            let q = task.states[j];
            assert(q == start_states(patterns, n, patterns.len() as int)[j]);
            lemma_starts_with_root(patterns, q.0, n);
            let front = patterns[q.0].take(n);
            assert forall|m: int| 0 <= m < n implies (#[trigger] front[m]) is Literal by {
                assert(patterns[q.0][m] is Literal);
            }
            lemma_literal_prefix(front, n, above);
            assert(literal_names(front, n) =~= literal_names(patterns[q.0], n));
            assert(above.take(n) =~= above);
            assert(above.skip(n) =~= Seq::empty());
            assert(front.skip(n) =~= Seq::empty());
        }
        assert(is_task_of(patterns, task, above));
    }
    lemma_run_has_tasks(tree, plan, start, moves);
    let task = choose|task: TaskModel|
        #[trigger] is_task(plan.patterns, task) && task.path == path;
    let names = choose|names: Seq<Seq<char>>| is_task_of(patterns, task, names);
    let q = task.states[0];
    assert(is_state_of(patterns, q, names));
    let components = patterns[q.0];
    assert(components == components_of(expansions[q.0]));
    if path_matches(components.take(q.1), names) {
        assert(stops_at(components, names, q.1));
    } else {
        assert(stops_at(components, names, q.1 + 1));
    }
    assert(is_candidate(pattern, path, names, q.0));
}

/// Whether a listing of `root` has to list `path`: it is the root or, if the
/// listing is recursive, a directory that a chain of directories leads to.
pub open spec fn is_to_be_listed(
    tree: Tree,
    root: Seq<char>,
    recursive: bool,
    path: Seq<char>,
) -> bool {
    path == root || (recursive && exists|chain: Seq<StatusModel>| #[trigger]
        is_chain(tree, root, chain) && chain.last().isdir && chain.last().path == path)
}

proof fn lemma_chain_extends(
    tree: Tree,
    path: Seq<char>,
    chain: Seq<StatusModel>,
    entry: StatusModel,
)
    requires
        is_chain(tree, path, chain),
        chain.last().isdir,
        lists(tree, chain.last().path, entry),
    ensures
        is_chain(tree, path, chain.push(entry)),
    decreases chain.len(),
{
    let longer = chain.push(entry);
    let rest = chain.drop_first();
    assert(longer.drop_first() =~= rest.push(entry));
    if chain.len() == 1 {
        assert(rest.push(entry)[0] == entry);
        assert(rest.push(entry).len() == 1);
        assert(is_chain(tree, chain[0].path, rest.push(entry)));
    } else {
        assert(rest.last() == chain.last());
        lemma_chain_extends(tree, chain[0].path, rest, entry);
    }
}

proof fn lemma_child_is_to_be_listed(
    tree: Tree,
    root: Seq<char>,
    path: Seq<char>,
    child: StatusModel,
)
    requires
        is_to_be_listed(tree, root, true, path),
        lists(tree, path, child),
        child.isdir,
    ensures
        is_to_be_listed(tree, root, true, child.path),
{
    if path == root {
        let chain = seq![child];
        assert(is_chain(tree, root, chain));
        assert(chain.last() == child);
    } else {
        let chain = choose|chain: Seq<StatusModel>| #[trigger]
            is_chain(tree, root, chain) && chain.last().isdir && chain.last().path == path;
        lemma_chain_extends(tree, root, chain, child);
        assert(chain.push(child).last() == child);
    }
}

spec fn all_to_be_listed(
    tree: Tree,
    root: Seq<char>,
    recursive: bool,
    items: Seq<TaskModel>,
) -> bool {
    forall|k: int|
        0 <= k < items.len() ==> is_to_be_listed(
            tree,
            root,
            recursive,
            (#[trigger] items[k]).path,
        )
}

proof fn lemma_entered_are_to_be_listed(
    tree: Tree,
    root: Seq<char>,
    recursive: bool,
    task: TaskModel,
    children: Seq<StatusModel>,
)
    requires
        is_to_be_listed(tree, root, recursive, task.path),
        forall|c: StatusModel| #[trigger]
            children.contains(c) ==> children_of(tree, task.path).contains(c),
    ensures
        all_to_be_listed(
            tree,
            root,
            recursive,
            entered(ModeModel::List(recursive), task, children),
        ),
    decreases children.len(),
{
    if children.len() > 0 {
        let front = children.drop_last();
        let last = children.last();
        assert forall|c: StatusModel| #[trigger]
            front.contains(c) implies children_of(tree, task.path).contains(c) by {
            let k = choose|k: int| 0 <= k < front.len() && front[k] == c;
            assert(children[k] == c);
            assert(children.contains(c));
        }
        lemma_entered_are_to_be_listed(tree, root, recursive, task, front);
        assert(children.contains(last));
        if child_entered(ModeModel::List(recursive), task, last) {
            assert(lists(tree, task.path, last));
            lemma_child_is_to_be_listed(tree, root, task.path, last);
        }
    }
}

proof fn lemma_run_is_to_be_listed(
    tree: Tree,
    root: Seq<char>,
    recursive: bool,
    max_parallelism: int,
    moves: Seq<Move>,
)
    requires
        can_run(tree, list_start(root, recursive, max_parallelism), moves),
    ensures
        ({
            let start = list_start(root, recursive, max_parallelism);
            let run = run_of(tree, start, moves);
            let listed = listed_paths(tree, start, moves);
            &&& run.walk.mode == ModeModel::List(recursive)
            &&& all_to_be_listed(tree, root, recursive, run.walk.pending)
            &&& all_to_be_listed(tree, root, recursive, run.flying)
            &&& forall|i: int|
                0 <= i < listed.len() ==> is_to_be_listed(
                    tree,
                    root,
                    recursive,
                    #[trigger] listed[i],
                )
        }),
    decreases moves.len(),
{
    if moves.len() > 0 {
        let start = list_start(root, recursive, max_parallelism);
        let before = run_of(tree, start, moves.drop_last());
        lemma_run_is_to_be_listed(tree, root, recursive, max_parallelism, moves.drop_last());
        if let Move::Listed(k) = moves.last() {
            let task = before.flying[k];
            assert(is_to_be_listed(tree, root, recursive, before.flying[k].path));
            lemma_entered_are_to_be_listed(
                tree,
                root,
                recursive,
                task,
                children_of(tree, task.path),
            );
        }
        let earlier = listed_paths(tree, start, moves.drop_last());
        let listed = listed_paths(tree, start, moves);
        assert forall|i: int| 0 <= i < listed.len() implies is_to_be_listed(
            tree,
            root,
            recursive,
            #[trigger] listed[i],
        ) by {
            if i < earlier.len() {
                assert(listed[i] == earlier[i]);
            }
        }
    }
}

/// Law: a listing lists its root and, if it is recursive, the directories below
/// it, and nothing else.
pub proof fn law_listing_lists_directories_only(
    tree: Tree,
    root: Seq<char>,
    recursive: bool,
    max_parallelism: int,
    moves: Seq<Move>,
    i: int,
)
    requires
        can_run(tree, list_start(root, recursive, max_parallelism), moves),
        0 <= i < listed_paths(
            tree,
            list_start(root, recursive, max_parallelism),
            moves,
        ).len(),
    ensures
        is_to_be_listed(
            tree,
            root,
            recursive,
            listed_paths(tree, list_start(root, recursive, max_parallelism), moves)[i],
        ),
{
    lemma_run_is_to_be_listed(tree, root, recursive, max_parallelism, moves);
}

} // verus!
