//! What a walk does, told from the tree that it walks and nothing else.

use vstd::prelude::*;

use crate::coverage::action_after;
use crate::coverage::can_move;
use crate::coverage::can_run;
use crate::coverage::children_of;
use crate::coverage::first_failure;
use crate::coverage::is_finite;
use crate::coverage::law_errors_are_handed_out;
use crate::coverage::law_listings_in_flight_are_bounded;
use crate::coverage::run_after;
use crate::coverage::run_of;
use crate::coverage::times;
use crate::coverage::Move;
use crate::coverage::Run;
use crate::coverage::Tree;
use crate::entry::statuses;
use crate::entry::FileStatus;
use crate::entry::StatusModel;
use crate::error::BridgeError;
use crate::error::ErrorModel;
use crate::glob::compiled;
use crate::glob::path_of;
use crate::glob::PlanModel;
use crate::names::are_names;
use crate::names::lemma_base_name;
use crate::names::lemma_names_concat;
use crate::names::lemma_names_push;
use crate::names::lemma_path_determines_names;
use crate::names::lemma_root_names;
use crate::once::is_child;
use crate::once::is_plain;
use crate::once::is_plain_at;
use crate::once::lemma_lies_at_its_path;
use crate::once::lemma_lies_by_way_of;
use crate::once::lemma_times_at;
use crate::reach::law_glob_walk_hands_out_the_selected_entries;
use crate::reach::law_list_walk_hands_out_the_subtree;
use crate::reach::lies_among;
use crate::reach::lies_below;
use crate::reach::root_names;
use crate::selection::selects;
use crate::walk::base_name;
use crate::walk::child_emits;
use crate::walk::child_entered;
use crate::walk::child_task;
use crate::walk::considers;
use crate::walk::decided;
use crate::walk::emitted;
use crate::walk::entered;
use crate::walk::glob_start;
use crate::walk::list_start;
use crate::walk::noted;
use crate::walk::ActionModel;
use crate::walk::EventModel;
use crate::walk::ModeModel;
use crate::walk::Task;
use crate::walk::TaskModel;
use crate::walk::WalkAction;
use crate::walk::WalkEvent;
use crate::walk::WalkModel;

verus! {

/// Law: the name at the end of a path is what follows its last `/`, and all of a
/// path that has none.
pub proof fn law_base_name(front: Seq<char>, name: Seq<char>)
    requires
        !name.contains('/'),
    ensures
        base_name(name) == name,
        base_name(front + seq!['/'] + name) == name,
    decreases name.len(),
{
    lemma_base_name(front + seq!['/'], name);
    if name.len() > 0 {
        let shorter = name.drop_last();
        assert(name.contains(name.last()));
        assert forall|k: int| 0 <= k < shorter.len() implies shorter[k] != '/' by {
            assert(name.contains(name[k]));
        }
        law_base_name(front, shorter);
        assert(shorter.push(name.last()) =~= name);
    } else {
        assert(name =~= Seq::empty());
    }
}

/// Whether listing `path` gives `entry`.
pub open spec fn lists(tree: Tree, path: Seq<char>, entry: StatusModel) -> bool {
    (tree.listing)(path) is Ok && (tree.listing)(path)->Ok_0.contains(entry)
}

/// Whether `chain` leads down from `path`: listing `path` gives its first entry,
/// each entry but the last is a directory, and listing it gives the next one.
pub open spec fn is_chain(tree: Tree, path: Seq<char>, chain: Seq<StatusModel>) -> bool
    decreases chain.len(),
{
    &&& chain.len() > 0
    &&& lists(tree, path, chain[0])
    &&& chain.len() == 1 || (chain[0].isdir && is_chain(
        tree,
        chain[0].path,
        chain.drop_first(),
    ))
}

proof fn lemma_chain_of_one(tree: Tree, path: Seq<char>, entry: StatusModel)
    requires
        lists(tree, path, entry),
    ensures
        is_chain(tree, path, seq![entry]),
{
}

proof fn lemma_chain_from(
    tree: Tree,
    path: Seq<char>,
    first: StatusModel,
    rest: Seq<StatusModel>,
)
    requires
        lists(tree, path, first),
        first.isdir,
        is_chain(tree, first.path, rest),
    ensures
        is_chain(tree, path, seq![first] + rest),
        (seq![first] + rest).last() == rest.last(),
{
    assert((seq![first] + rest).drop_first() =~= rest);
}

/// Names that lead to an entry come with a chain of entries.
proof fn lemma_names_have_a_chain(
    tree: Tree,
    mode: ModeModel,
    path: Seq<char>,
    names: Seq<Seq<char>>,
    entry: StatusModel,
) -> (chain: Seq<StatusModel>)
    requires
        lies_below(tree, mode, path, names, entry),
    ensures
        is_chain(tree, path, chain),
        chain.len() == names.len(),
        chain.last() == entry,
    decreases names.len(),
{
    let children = children_of(tree, path);
    let k = lemma_lies_by_way_of(tree, mode, path, children.len() as int, names, entry);
    let child = children[k];
    assert((tree.listing)(path) is Ok);
    assert((tree.listing)(path)->Ok_0[k] == child);
    assert(lists(tree, path, child));
    if names.len() == 1 {
        lemma_chain_of_one(tree, path, entry);
        seq![entry]
    } else {
        let rest = lemma_names_have_a_chain(tree, mode, child.path, names.skip(1), entry);
        lemma_chain_from(tree, path, child, rest);
        seq![child] + rest
    }
}

/// A child that leads on makes names lead on.
proof fn lemma_lies_by_child(
    tree: Tree,
    mode: ModeModel,
    path: Seq<char>,
    n: int,
    k: int,
    names: Seq<Seq<char>>,
    entry: StatusModel,
)
    requires
        0 <= k < n <= children_of(tree, path).len(),
        names.len() > 0,
        considers(mode, path, children_of(tree, path)[k]),
        base_name(children_of(tree, path)[k].path) == names[0],
        names.len() == 1 ==> children_of(tree, path)[k] == entry,
        names.len() > 1 ==> children_of(tree, path)[k].isdir && lies_below(
            tree,
            mode,
            children_of(tree, path)[k].path,
            names.skip(1),
            entry,
        ),
    ensures
        lies_among(tree, mode, path, n, names, entry),
    decreases n,
{
    if k < n - 1 {
        lemma_lies_by_child(tree, mode, path, n - 1, k, names, entry);
    }
}

/// A chain of entries gives names that lead to its last one, where every child
/// is looked at.
proof fn lemma_chain_has_names(
    tree: Tree,
    recursive: bool,
    path: Seq<char>,
    chain: Seq<StatusModel>,
) -> (names: Seq<Seq<char>>)
    requires
        is_chain(tree, path, chain),
    ensures
        lies_below(tree, ModeModel::List(recursive), path, names, chain.last()),
        names.len() == chain.len(),
    decreases chain.len(),
{
    let children = children_of(tree, path);
    let child = chain[0];
    let k = choose|k: int| 0 <= k < children.len() && children[k] == child;
    let first = base_name(child.path);
    let names = if chain.len() == 1 {
        seq![first]
    } else {
        assert(chain.drop_first().last() == chain.last());
        let rest = lemma_chain_has_names(tree, recursive, child.path, chain.drop_first());
        assert((seq![first] + rest).skip(1) =~= rest);
        seq![first] + rest
    };
    lemma_lies_by_child(
        tree,
        ModeModel::List(recursive),
        path,
        children.len() as int,
        k,
        names,
        chain.last(),
    );
    names
}

proof fn lemma_times_is_contains(items: Seq<StatusModel>, entry: StatusModel)
    ensures
        times(items, entry) > 0 <==> items.contains(entry),
    decreases items.len(),
{
    if items.len() > 0 {
        lemma_times_is_contains(items.drop_last(), entry);
        if items.contains(entry) {
            let k = choose|k: int| 0 <= k < items.len() && items[k] == entry;
            lemma_times_at(items, k, k);
        }
        if times(items, entry) > 0 {
            if items.last() == entry {
                assert(items[items.len() - 1] == entry);
            } else {
                let k = choose|k: int|
                    0 <= k < items.drop_last().len() && items.drop_last()[k] == entry;
                assert(items[k] == entry);
            }
        }
    }
}

/// Whether a listing of `root` is about `entry`: listing `root` gives it or, if
/// the listing is recursive, a chain of directories leads to it.
pub open spec fn is_below(
    tree: Tree,
    root: Seq<char>,
    recursive: bool,
    entry: StatusModel,
) -> bool {
    lists(tree, root, entry) || (recursive && exists|chain: Seq<StatusModel>| #[trigger]
        is_chain(tree, root, chain) && chain.last() == entry)
}

/// Law: a listing that ended without an error, and whose consumer did not leave,
/// has handed out every entry that listing the root gives, whatever its
/// metadata, and, if it is recursive, every entry that listing a directory below
/// gives; and nothing else.
pub proof fn law_listing_hands_out_every_child(
    tree: Tree,
    root: Seq<char>,
    recursive: bool,
    max_parallelism: int,
    moves: Seq<Move>,
    entry: StatusModel,
)
    requires
        is_finite(tree),
        can_run(tree, list_start(root, recursive, max_parallelism), moves),
        run_of(tree, list_start(root, recursive, max_parallelism), moves).walk.finished,
        run_of(tree, list_start(root, recursive, max_parallelism), moves).reported.len() == 0,
        !run_of(tree, list_start(root, recursive, max_parallelism), moves).left,
    ensures
        run_of(tree, list_start(root, recursive, max_parallelism), moves).sent.contains(entry)
            <==> is_below(tree, root, recursive, entry),
{
    let mode = ModeModel::List(recursive);
    let sent = run_of(tree, list_start(root, recursive, max_parallelism), moves).sent;
    law_list_walk_hands_out_the_subtree(tree, root, recursive, max_parallelism, moves, entry);
    lemma_times_is_contains(sent, entry);
    if sent.contains(entry) {
        let names = choose|names: Seq<Seq<char>>|
            #[trigger] lies_below(tree, mode, root, names, entry) && (recursive || names.len()
                == 1);
        let chain = lemma_names_have_a_chain(tree, mode, root, names, entry);
        if chain.len() == 1 {
            assert(chain[0] == entry);
        }
    }
    if lists(tree, root, entry) {
        lemma_chain_of_one(tree, root, entry);
        let names = lemma_chain_has_names(tree, recursive, root, seq![entry]);
        assert(seq![entry].last() == entry);
    } else if is_below(tree, root, recursive, entry) {
        let chain = choose|chain: Seq<StatusModel>| #[trigger]
            is_chain(tree, root, chain) && chain.last() == entry;
        let names = lemma_chain_has_names(tree, recursive, root, chain);
    }
}

/// Law: the children that a listing gives are handed out in the order in which
/// it gives them, all of them, and after what was found before.
pub proof fn law_children_are_handed_out_in_order(
    walk: WalkModel,
    task: TaskModel,
    children: Seq<StatusModel>,
)
    requires
        walk.mode is List,
    ensures
        noted(walk, EventModel::Listing(task, Ok(children))).outbox == walk.outbox + children,
{
    lemma_all_emitted(walk.mode, task, children);
}

proof fn lemma_all_emitted(mode: ModeModel, task: TaskModel, children: Seq<StatusModel>)
    requires
        mode is List,
    ensures
        emitted(mode, task, children) == children,
    decreases children.len(),
{
    if children.len() == 0 {
        assert(children =~= Seq::empty());
    } else {
        lemma_all_emitted(mode, task, children.drop_last());
        assert(children.drop_last().push(children.last()) =~= children);
    }
}

/// Law: what a walk keeps of a listing, of whatever kind the walk is, it keeps
/// child by child and in order: a listing of some children and then others
/// leaves what the two parts leave one after the other, whatever the walk held,
/// and one child leaves at most itself to hand out and at most one directory,
/// that child, to list.
pub proof fn law_listings_are_kept_child_by_child(
    walk: WalkModel,
    task: TaskModel,
    some: Seq<StatusModel>,
    others: Seq<StatusModel>,
    child: StatusModel,
)
    ensures
        ({
            let empty = noted(walk, EventModel::Listing(task, Ok(Seq::empty())));
            let both = noted(walk, EventModel::Listing(task, Ok(some + others)));
            let first = noted(walk, EventModel::Listing(task, Ok(some)));
            let then = noted(first, EventModel::Listing(task, Ok(others)));
            let one = noted(walk, EventModel::Listing(task, Ok(seq![child])));
            &&& empty == (WalkModel { in_flight: walk.in_flight - 1, ..walk })
            &&& both.outbox == then.outbox
            &&& both.pending == then.pending
            &&& both.error == walk.error
            &&& both.in_flight == walk.in_flight - 1
            &&& both.finished == walk.finished
            &&& both.stat_due == walk.stat_due
            &&& both.limit == walk.limit
            &&& both.mode == walk.mode
            &&& one.outbox == walk.outbox || one.outbox == walk.outbox.push(child)
            &&& one.pending == walk.pending || {
                &&& one.pending.len() == walk.pending.len() + 1
                &&& one.pending.drop_last() == walk.pending
                &&& one.pending.last().path == child.path
                &&& child.isdir
            }
        }),
{
    let mode = walk.mode;
    lemma_kept_of_parts(mode, task, some, others);
    let both = noted(walk, EventModel::Listing(task, Ok(some + others)));
    let first = noted(walk, EventModel::Listing(task, Ok(some)));
    let then = noted(first, EventModel::Listing(task, Ok(others)));
    assert(both.outbox =~= then.outbox);
    assert(both.pending =~= then.pending);
    let empty = noted(walk, EventModel::Listing(task, Ok(Seq::empty())));
    assert(empty.outbox =~= walk.outbox);
    assert(empty.pending =~= walk.pending);
    let one = noted(walk, EventModel::Listing(task, Ok(seq![child])));
    assert(seq![child].drop_last() =~= Seq::empty());
    assert(seq![child].last() == child);
    assert(emitted(mode, task, seq![child].drop_last()) =~= Seq::empty());
    assert(entered(mode, task, seq![child].drop_last()) =~= Seq::empty());
    if child_emits(mode, task, child) {
        assert(one.outbox =~= walk.outbox.push(child));
    } else {
        assert(one.outbox =~= walk.outbox);
    }
    if child_entered(mode, task, child) {
        assert(one.pending =~= walk.pending.push(child_task(mode, task, child)));
        assert(one.pending.drop_last() =~= walk.pending);
    } else {
        assert(one.pending =~= walk.pending);
    }
}

proof fn lemma_kept_of_parts(
    mode: ModeModel,
    task: TaskModel,
    some: Seq<StatusModel>,
    others: Seq<StatusModel>,
)
    ensures
        emitted(mode, task, some + others) == emitted(mode, task, some) + emitted(
            mode,
            task,
            others,
        ),
        entered(mode, task, some + others) == entered(mode, task, some) + entered(
            mode,
            task,
            others,
        ),
    decreases others.len(),
{
    if others.len() == 0 {
        assert(some + others =~= some);
        assert(emitted(mode, task, some) + emitted(mode, task, others) =~= emitted(
            mode,
            task,
            some,
        ));
        assert(entered(mode, task, some) + entered(mode, task, others) =~= entered(
            mode,
            task,
            some,
        ));
    } else {
        lemma_kept_of_parts(mode, task, some, others.drop_last());
        assert((some + others).drop_last() =~= some + others.drop_last());
        assert((some + others).last() == others.last());
        assert(emitted(mode, task, some + others) =~= emitted(mode, task, some) + emitted(
            mode,
            task,
            others,
        ));
        assert(entered(mode, task, some + others) =~= entered(mode, task, some) + entered(
            mode,
            task,
            others,
        ));
    }
}

/// Law: a glob whose root is itself a match asks for the status of the root
/// before anything else, and hands out the root, if it exists, before it lists
/// anything.
pub proof fn law_root_comes_first(plan: PlanModel, max_parallelism: int, status: StatusModel)
    ensures
        ({
            let (action, walk) = decided(glob_start(plan, max_parallelism));
            let (next, _) = decided(noted(walk, EventModel::RootStatus(Ok(status))));
            &&& action is Stat <==> plan.emit_root
            &&& plan.emit_root ==> action == ActionModel::Stat(plan.root) && next
                == ActionModel::Send(status)
        }),
{
}

/// Law: directories are listed in the order in which they were found: a walk
/// that has nothing to hand out and nothing to ask for lists the first one next,
/// if it may list another, and keeps the others in order.
pub proof fn law_directories_are_listed_in_order(walk: WalkModel)
    requires
        !walk.finished,
        walk.outbox.len() == 0,
        walk.error is None,
        walk.stat_due is None,
        walk.in_flight < walk.limit,
        walk.pending.len() > 0,
    ensures
        decided(walk).0 == ActionModel::List(walk.pending[0]),
        decided(walk).1 == (WalkModel {
            pending: walk.pending.drop_first(),
            in_flight: walk.in_flight + 1,
            ..walk
        }),
{
    assert(walk.pending.skip(1) =~= walk.pending.drop_first());
}

/// Law: what was found is handed out first to last, before an error and before
/// anything else is done.
pub proof fn law_found_entries_come_first(walk: WalkModel)
    requires
        !walk.finished,
        walk.outbox.len() > 0,
    ensures
        decided(walk).0 == ActionModel::Send(walk.outbox[0]),
        decided(walk).1.outbox == walk.outbox.drop_first(),
        !decided(walk).1.finished,
        decided(walk).1.error == walk.error,
{
    assert(walk.outbox.skip(1) =~= walk.outbox.drop_first());
}

/// Law: a walk whose consumer leaves stops at once.
pub proof fn law_leaving_ends_the_walk(walk: WalkModel)
    ensures
        decided(noted(walk, EventModel::ConsumerGone)).0 == ActionModel::Stop,
        decided(noted(walk, EventModel::ConsumerGone)).1.finished,
{
}

/// The error that a move brings, if it brings one.
pub open spec fn error_met(tree: Tree, run: Run, step: Move) -> Option<ErrorModel> {
    match step {
        Move::Stated => match (tree.stat)(run.asked->Some_0) {
            Err(e) => Some(e),
            Ok(_) => None,
        },
        Move::Listed(k) => match (tree.listing)(run.flying[k].path) {
            Err(e) => Some(e),
            Ok(_) => None,
        },
        _ => None,
    }
}

/// The first error that `moves` bring and, if the walk is a glob, that is not
/// that of a missing path.
pub open spec fn first_error(
    tree: Tree,
    start: WalkModel,
    moves: Seq<Move>,
    is_glob: bool,
) -> Option<ErrorModel>
    decreases moves.len(),
{
    if moves.len() == 0 {
        None
    } else {
        let before = run_of(tree, start, moves.drop_last());
        match first_error(tree, start, moves.drop_last(), is_glob) {
            Some(e) => Some(e),
            None => match error_met(tree, before, moves.last()) {
                Some(e) => if is_glob && e.kind is FileNotFound {
                    None
                } else {
                    Some(e)
                },
                None => None,
            },
        }
    }
}

proof fn lemma_first_error(tree: Tree, start: WalkModel, moves: Seq<Move>)
    ensures
        first_error(tree, start, moves, start.mode is Glob) == first_failure(tree, start, moves),
    decreases moves.len(),
{
    if moves.len() > 0 {
        lemma_first_error(tree, start, moves.drop_last());
    }
}

/// Law: a glob hands out the first error that it meets, in asking for a status
/// or in listing, whose kind is any other than that of a missing path, and no
/// other error. If it ends with its consumer still there, it has handed out that
/// error exactly if it met one.
pub proof fn law_glob_forwards_errors(
    tree: Tree,
    plan: PlanModel,
    max_parallelism: int,
    moves: Seq<Move>,
)
    requires
        can_run(tree, glob_start(plan, max_parallelism), moves),
    ensures
        ({
            let start = glob_start(plan, max_parallelism);
            let run = run_of(tree, start, moves);
            let error = first_error(tree, start, moves, true);
            &&& run.reported.len() > 0 ==> run.walk.finished && error is Some && run.reported
                == seq![error->Some_0]
            &&& run.walk.finished && !run.left ==> (run.reported.len() > 0 <==> error is Some)
        }),
{
    let start = glob_start(plan, max_parallelism);
    law_errors_are_handed_out(tree, start, moves);
    lemma_first_error(tree, start, moves);
    let run = run_of(tree, start, moves);
    assert(run.reported.len() == 1 ==> run.reported =~= seq![run.reported[0]]);
}

/// Law: a listing hands out the first error that it meets, of whatever kind, and
/// no other error. If it ends with its consumer still there, it has handed out
/// that error exactly if it met one.
pub proof fn law_listing_forwards_errors(
    tree: Tree,
    root: Seq<char>,
    recursive: bool,
    max_parallelism: int,
    moves: Seq<Move>,
)
    requires
        can_run(tree, list_start(root, recursive, max_parallelism), moves),
    ensures
        ({
            let start = list_start(root, recursive, max_parallelism);
            let run = run_of(tree, start, moves);
            let error = first_error(tree, start, moves, false);
            &&& run.reported.len() > 0 ==> run.walk.finished && error is Some && run.reported
                == seq![error->Some_0]
            &&& run.walk.finished && !run.left ==> (run.reported.len() > 0 <==> error is Some)
        }),
{
    let start = list_start(root, recursive, max_parallelism);
    law_errors_are_handed_out(tree, start, moves);
    lemma_first_error(tree, start, moves);
    let run = run_of(tree, start, moves);
    assert(run.reported.len() == 1 ==> run.reported =~= seq![run.reported[0]]);
}

/// Law: an error ends a walk at once, if all that was found before has been
/// handed out: a walk that is not over, and has met no error, hands it out next
/// and is over then, unless it is a glob and the error's kind is that of a
/// missing path.
pub proof fn law_error_is_handed_out_next(tree: Tree, run: Run, step: Move)
    requires
        can_move(run, step),
        !run.walk.finished,
        run.walk.outbox.len() == 0,
        run.walk.error is None,
        error_met(tree, run, step) is Some,
        run.walk.mode is List || !(error_met(tree, run, step)->Some_0.kind is FileNotFound),
    ensures
        action_after(tree, run, step) == ActionModel::SendError(
            error_met(tree, run, step)->Some_0,
        ),
        run_after(tree, run, step).walk.finished,
{
}

/// Law: as many listings of a listing are in flight as `max_parallelism` allows, but
/// one at least is allowed: never more, and the walk waits with fewer only if no
/// directory is left to be listed.
pub proof fn law_listing_parallelism(
    tree: Tree,
    root: Seq<char>,
    recursive: bool,
    max_parallelism: int,
    moves: Seq<Move>,
    step: Move,
)
    requires
        can_run(tree, list_start(root, recursive, max_parallelism), moves),
        can_move(run_of(tree, list_start(root, recursive, max_parallelism), moves), step),
    ensures
        ({
            let run = run_of(tree, list_start(root, recursive, max_parallelism), moves);
            let after = run_after(tree, run, step);
            &&& run.flying.len() <= max_parallelism || run.flying.len() <= 1
            &&& action_after(tree, run, step) is Wait ==> after.flying.len() >= max_parallelism
                || after.walk.pending.len() == 0
        }),
{
    law_listings_in_flight_are_bounded(tree, list_start(root, recursive, max_parallelism), moves, step);
}

/// Law: as many listings of a glob are in flight as `max_parallelism` allows, but
/// one at least is allowed: never more, and the walk waits with fewer only if no
/// directory is left to be listed.
pub proof fn law_glob_parallelism(
    tree: Tree,
    plan: PlanModel,
    max_parallelism: int,
    moves: Seq<Move>,
    step: Move,
)
    requires
        can_run(tree, glob_start(plan, max_parallelism), moves),
        can_move(run_of(tree, glob_start(plan, max_parallelism), moves), step),
    ensures
        ({
            let run = run_of(tree, glob_start(plan, max_parallelism), moves);
            let after = run_after(tree, run, step);
            &&& run.flying.len() <= max_parallelism || run.flying.len() <= 1
            &&& action_after(tree, run, step) is Wait ==> after.flying.len() >= max_parallelism
                || after.walk.pending.len() == 0
        }),
{
    law_listings_in_flight_are_bounded(tree, glob_start(plan, max_parallelism), moves, step);
}

/// A chain of entries in a tree whose paths are made up of names: the names of
/// its entries lead to its last one, unless that is a file that lists itself.
proof fn lemma_chain_in_plain_tree(
    tree: Tree,
    plan: PlanModel,
    above: Seq<Seq<char>>,
    chain: Seq<StatusModel>,
) -> (names: Seq<Seq<char>>)
    requires
        is_plain(tree),
        are_names(above),
        is_chain(tree, path_of(above), chain),
    ensures
        are_names(names),
        chain.last().path == path_of(above + names),
        names.len() == chain.len() || names.len() == chain.len() - 1,
        names.len() == chain.len() ==> lies_below(
            tree,
            ModeModel::Glob(plan),
            path_of(above),
            names,
            chain.last(),
        ),
    decreases chain.len(),
{
    let mode = ModeModel::Glob(plan);
    let path = path_of(above);
    let children = children_of(tree, path);
    let child = chain[0];
    let k = choose|k: int| 0 <= k < children.len() && children[k] == child;
    assert(is_plain_at(tree, above));
    if is_child(above, child) {
        let name = base_name(child.path);
        let level = above.push(name);
        lemma_names_push(above, name);
        if child.path == path {
            lemma_path_determines_names(above, level);
            assert(above.len() < level.len());
        }
        if chain.len() == 1 {
            let names = seq![name];
            assert(above + names =~= level);
            lemma_lies_by_child(tree, mode, path, children.len() as int, k, names, child);
            names
        } else {
            assert(chain.drop_first().last() == chain.last());
            let rest = lemma_chain_in_plain_tree(tree, plan, level, chain.drop_first());
            let names = seq![name] + rest;
            assert(names.skip(1) =~= rest);
            assert(level + rest =~= above + names);
            if rest.len() == chain.len() - 1 {
                lemma_lies_by_child(
                    tree,
                    mode,
                    path,
                    children.len() as int,
                    k,
                    names,
                    chain.last(),
                );
            }
            names
        }
    } else {
        // A file, which is all that its listing gives.
        if chain.len() > 1 {
            assert(chain.drop_first().last() == chain.last());
        }
        let names = Seq::<Seq<char>>::empty();
        assert(above + names =~= above);
        names
    }
}

/// Whether the tree has `entry` below the root of the plan for `pattern`, at a
/// path whose names the pattern selects.
pub open spec fn is_selected_below(
    tree: Tree,
    pattern: Seq<char>,
    chain: Seq<StatusModel>,
    names: Seq<Seq<char>>,
    entry: StatusModel,
) -> bool {
    &&& is_chain(tree, path_of(root_names(pattern)), chain)
    &&& chain.last() == entry
    &&& are_names(names)
    &&& names.len() == chain.len()
    &&& entry.path == path_of(root_names(pattern) + names)
    &&& selects(pattern, root_names(pattern) + names)
}

/// Law: in a tree whose paths are made up of names, a glob that ended without an
/// error, and whose consumer did not leave, has handed out every entry below its
/// root whose path's names its pattern selects, and the root itself if some
/// alternative is fully literal and the root exists; and nothing else.
pub proof fn law_glob_hands_out_every_match(
    tree: Tree,
    pattern: Seq<char>,
    max_parallelism: int,
    moves: Seq<Move>,
    entry: StatusModel,
)
    requires
        is_finite(tree),
        is_plain(tree),
        compiled(pattern) is Ok,
        can_run(tree, glob_start(compiled(pattern)->Ok_0, max_parallelism), moves),
        run_of(
            tree,
            glob_start(compiled(pattern)->Ok_0, max_parallelism),
            moves,
        ).walk.finished,
        run_of(
            tree,
            glob_start(compiled(pattern)->Ok_0, max_parallelism),
            moves,
        ).reported.len() == 0,
        !run_of(tree, glob_start(compiled(pattern)->Ok_0, max_parallelism), moves).left,
    ensures
        compiled(pattern)->Ok_0.root == path_of(root_names(pattern)),
        run_of(
            tree,
            glob_start(compiled(pattern)->Ok_0, max_parallelism),
            moves,
        ).sent.contains(entry) <==> {
            ||| compiled(pattern)->Ok_0.emit_root && (tree.stat)(path_of(root_names(pattern))) == Ok::<
                StatusModel,
                ErrorModel,
            >(entry)
            ||| exists|chain: Seq<StatusModel>, names: Seq<Seq<char>>|
                is_selected_below(tree, pattern, chain, names, entry)
        },
{
    let plan = compiled(pattern)->Ok_0;
    let mode = ModeModel::Glob(plan);
    let above = root_names(pattern);
    let root = path_of(above);
    let sent = run_of(tree, glob_start(plan, max_parallelism), moves).sent;
    law_glob_walk_hands_out_the_selected_entries(tree, pattern, max_parallelism, moves, entry);
    lemma_times_is_contains(sent, entry);
    lemma_root_names(pattern);
    assert forall|names: Seq<Seq<char>>| #[trigger]
        lies_below(tree, mode, root, names, entry) && selects(
            pattern,
            above + names,
        ) implies exists|chain: Seq<StatusModel>, names: Seq<Seq<char>>|
        is_selected_below(tree, pattern, chain, names, entry) by {
        let chain = lemma_names_have_a_chain(tree, mode, root, names, entry);
        lemma_lies_at_its_path(tree, mode, above, names, entry);
        assert(is_selected_below(tree, pattern, chain, names, entry));
    }
    if exists|chain: Seq<StatusModel>, names: Seq<Seq<char>>|
        is_selected_below(tree, pattern, chain, names, entry) {
        let (chain, names) = choose|chain: Seq<StatusModel>, names: Seq<Seq<char>>|
            is_selected_below(tree, pattern, chain, names, entry);
        let found = lemma_chain_in_plain_tree(tree, plan, above, chain);
        lemma_names_concat(above, names);
        lemma_names_concat(above, found);
        lemma_path_determines_names(above + names, above + found);
        assert((above + names).len() == (above + found).len());
        assert((above + names).skip(above.len() as int) =~= names);
        assert((above + found).skip(above.len() as int) =~= found);
        assert(lies_below(tree, mode, root, names, entry));
    }
}

/// Law: what stands for an event of a walk has all that the event brings.
pub proof fn law_walk_event_models(
    task: Task,
    children: Vec<FileStatus>,
    status: FileStatus,
    error: BridgeError,
    k: int,
)
    ensures
        WalkEvent::Ready@ == EventModel::Ready,
        WalkEvent::ConsumerGone@ == EventModel::ConsumerGone,
        WalkEvent::RootStatus(Ok(status))@ == EventModel::RootStatus(Ok(status@)),
        WalkEvent::RootStatus(Err(error))@ == EventModel::RootStatus(Err(error@)),
        WalkEvent::Listing(task, Err(error))@ == EventModel::Listing(task@, Err(error@)),
        WalkEvent::Listing(task, Ok(children))@ == EventModel::Listing(
            task@,
            Ok(statuses(children@)),
        ),
        statuses(children@).len() == children@.len(),
        0 <= k < children@.len() ==> statuses(children@)[k] == children@[k]@,
{
}

/// Law: what stands for an action of a walk has all that the action is about.
pub proof fn law_walk_action_models(
    task: Task,
    path: String,
    status: FileStatus,
    error: BridgeError,
)
    ensures
        WalkAction::Stat(path)@ == ActionModel::Stat(path@),
        WalkAction::List(task)@ == ActionModel::List(task@),
        WalkAction::Wait@ == ActionModel::Wait,
        WalkAction::Send(status)@ == ActionModel::Send(status@),
        WalkAction::SendError(error)@ == ActionModel::SendError(error@),
        WalkAction::Stop@ == ActionModel::Stop,
{
}

} // verus!
