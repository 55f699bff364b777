//! What a walk hands out, whatever the order in which its listings end.
//!
//! The laws here speak of a [`Tree`] that does not change, and of a [`Run`]: a
//! walk over the tree, driven by any sequence of [`Move`]s. Listings may end in
//! any order.

use vstd::prelude::*;

use crate::entry::StatusModel;
use crate::error::ErrorModel;
use crate::walk::child_emits;
use crate::walk::child_entered;
use crate::walk::child_task;
use crate::walk::decided;
use crate::walk::emitted;
use crate::walk::entered;
use crate::walk::list_start;
use crate::walk::noted;
use crate::walk::passes_over;
use crate::walk::ActionModel;
use crate::walk::EventModel;
use crate::walk::ModeModel;
use crate::walk::TaskModel;
use crate::walk::WalkModel;

verus! {

/// A tree of files and directories, as far as it is seen by asking for it.
pub struct Tree {
    /// What listing a path gives.
    pub listing: spec_fn(Seq<char>) -> Result<Seq<StatusModel>, ErrorModel>,
    /// What asking for the status of a path gives.
    pub stat: spec_fn(Seq<char>) -> Result<StatusModel, ErrorModel>,
    /// How many levels of directories there are below a path.
    pub height: spec_fn(Seq<char>) -> nat,
}

/// The children of `path`: none if it cannot be listed.
pub open spec fn children_of(tree: Tree, path: Seq<char>) -> Seq<StatusModel> {
    match (tree.listing)(path) {
        Ok(children) => children,
        Err(_) => Seq::empty(),
    }
}

/// Whether the directories that listing `path` gives are lower than `path`.
pub open spec fn lower_below(tree: Tree, path: Seq<char>) -> bool {
    forall|k: int|
        0 <= k < children_of(tree, path).len() && (#[trigger] children_of(tree, path)[k]).isdir
            ==> (tree.height)(children_of(tree, path)[k].path) < (tree.height)(path)
}

/// Whether no directory of the tree is below itself.
pub open spec fn is_finite(tree: Tree) -> bool {
    forall|path: Seq<char>| #[trigger] lower_below(tree, path)
}

/// How often `entry` occurs in `items`.
pub open spec fn times(items: Seq<StatusModel>, entry: StatusModel) -> nat
    decreases items.len(),
{
    if items.len() == 0 {
        0
    } else {
        times(items.drop_last(), entry) + if items.last() == entry {
            1nat
        } else {
            0nat
        }
    }
}

/// How often a walk finds `entry` among the first `n` children of the directory
/// of `task`, and below them.
pub open spec fn found_among(
    tree: Tree,
    mode: ModeModel,
    task: TaskModel,
    n: int,
    entry: StatusModel,
) -> nat
    decreases (tree.height)(task.path), n,
{
    if n <= 0 {
        0
    } else {
        let child = children_of(tree, task.path)[n - 1];
        let before = found_among(tree, mode, task, n - 1, entry);
        let here = if child_emits(mode, task, child) && child == entry {
            1nat
        } else {
            0nat
        };
        let below = if child_entered(mode, task, child) && (tree.height)(child.path) < (tree.height)(
            task.path,
        ) {
            found_among(
                tree,
                mode,
                child_task(mode, task, child),
                children_of(tree, child.path).len() as int,
                entry,
            )
        } else {
            0nat
        };
        before + here + below
    }
}

/// How often a walk finds `entry` below the directory of `task`.
pub open spec fn found(tree: Tree, mode: ModeModel, task: TaskModel, entry: StatusModel) -> nat {
    found_among(tree, mode, task, children_of(tree, task.path).len() as int, entry)
}

/// How often a walk finds `entry` below the directories of `items`.
pub open spec fn found_in_all(
    tree: Tree,
    mode: ModeModel,
    items: Seq<TaskModel>,
    entry: StatusModel,
) -> nat
    decreases items.len(),
{
    if items.len() == 0 {
        0
    } else {
        found_in_all(tree, mode, items.drop_last(), entry) + found(
            tree,
            mode,
            items.last(),
            entry,
        )
    }
}

/// How often a walk finds `entry` by asking for the status of a path.
pub open spec fn found_by_stat(tree: Tree, path: Option<Seq<char>>, entry: StatusModel) -> nat {
    match path {
        Some(p) => if (tree.stat)(p) == Ok::<StatusModel, ErrorModel>(entry) {
            1
        } else {
            0
        },
        None => 0,
    }
}

/// How often a walk that is about to start finds `entry` in all.
pub open spec fn found_by(tree: Tree, start: WalkModel, entry: StatusModel) -> nat {
    found_by_stat(tree, start.stat_due, entry) + found_in_all(
        tree,
        start.mode,
        start.pending,
        entry,
    )
}

/// A walk in progress, with what became of its actions.
pub struct Run {
    pub walk: WalkModel,
    /// The listings in flight.
    pub flying: Seq<TaskModel>,
    /// The path whose status was asked for and has not arrived.
    pub asked: Option<Seq<char>>,
    /// The entries that were handed out, in order.
    pub sent: Seq<StatusModel>,
    /// The errors that were handed out, in order.
    pub reported: Seq<ErrorModel>,
    /// Whether the consumer has left.
    pub left: bool,
}

/// What can happen to a walk in progress.
pub enum Move {
    /// The last action was carried out.
    Continue,
    /// The status that was asked for arrives.
    Stated,
    /// The listing with the given index among those in flight ends.
    Listed(int),
    /// The consumer leaves.
    Leave,
}

/// Whether a move can be made. A walk that has asked for a status waits for it.
pub open spec fn can_move(run: Run, step: Move) -> bool {
    match step {
        Move::Continue => run.asked is None,
        Move::Stated => run.asked is Some,
        Move::Listed(k) => run.asked is None && 0 <= k < run.flying.len(),
        Move::Leave => true,
    }
}

/// What the walk is told of a move.
pub open spec fn event_of(tree: Tree, run: Run, step: Move) -> EventModel {
    match step {
        Move::Continue => EventModel::Ready,
        Move::Stated => EventModel::RootStatus((tree.stat)(run.asked->Some_0)),
        Move::Listed(k) => EventModel::Listing(
            run.flying[k],
            (tree.listing)(run.flying[k].path),
        ),
        Move::Leave => EventModel::ConsumerGone,
    }
}

/// The error of an event that is a failure which a walk does not pass over.
pub open spec fn failure_of(mode: ModeModel, event: EventModel) -> Option<ErrorModel> {
    match event {
        EventModel::RootStatus(Err(e)) => if passes_over(mode, e) {
            None
        } else {
            Some(e)
        },
        EventModel::Listing(_, Err(e)) => if passes_over(mode, e) {
            None
        } else {
            Some(e)
        },
        _ => None,
    }
}

/// What the walk does next after a move.
pub open spec fn action_after(tree: Tree, run: Run, step: Move) -> ActionModel {
    decided(noted(run.walk, event_of(tree, run, step))).0
}

/// The run after a move.
pub open spec fn run_after(tree: Tree, run: Run, step: Move) -> Run {
    let action = action_after(tree, run, step);
    let flying = match step {
        Move::Listed(k) => run.flying.remove(k),
        _ => run.flying,
    };
    Run {
        walk: decided(noted(run.walk, event_of(tree, run, step))).1,
        flying: match action {
            ActionModel::List(task) => flying.push(task),
            _ => flying,
        },
        asked: match action {
            ActionModel::Stat(path) => Some(path),
            _ => if step is Stated {
                None
            } else {
                run.asked
            },
        },
        sent: match action {
            ActionModel::Send(entry) => run.sent.push(entry),
            _ => run.sent,
        },
        reported: match action {
            ActionModel::SendError(e) => run.reported.push(e),
            _ => run.reported,
        },
        left: run.left || step is Leave,
    }
}

/// A walk that is about to start.
pub open spec fn run_start(start: WalkModel) -> Run {
    Run {
        walk: start,
        flying: Seq::empty(),
        asked: None,
        sent: Seq::empty(),
        reported: Seq::empty(),
        left: false,
    }
}

/// The run of a walk after all of `moves`.
pub open spec fn run_of(tree: Tree, start: WalkModel, moves: Seq<Move>) -> Run
    decreases moves.len(),
{
    if moves.len() == 0 {
        run_start(start)
    } else {
        run_after(tree, run_of(tree, start, moves.drop_last()), moves.last())
    }
}

/// Whether all of `moves` can be made, one after the other.
pub open spec fn can_run(tree: Tree, start: WalkModel, moves: Seq<Move>) -> bool
    decreases moves.len(),
{
    moves.len() == 0 || (can_run(tree, start, moves.drop_last()) && can_move(
        run_of(tree, start, moves.drop_last()),
        moves.last(),
    ))
}

/// The error of the first of `moves` that is a failure which the walk does not
/// pass over.
pub open spec fn first_failure(tree: Tree, start: WalkModel, moves: Seq<Move>) -> Option<ErrorModel>
    decreases moves.len(),
{
    if moves.len() == 0 {
        None
    } else {
        match first_failure(tree, start, moves.drop_last()) {
            Some(e) => Some(e),
            None => failure_of(
                start.mode,
                event_of(tree, run_of(tree, start, moves.drop_last()), moves.last()),
            ),
        }
    }
}

/// Whether `walk` is a walk that nothing has happened to yet.
pub open spec fn is_start(walk: WalkModel) -> bool {
    &&& walk.limit >= 1
    &&& walk.in_flight == 0
    &&& walk.outbox.len() == 0
    &&& walk.error is None
    &&& !walk.finished
}

proof fn lemma_times_concat(a: Seq<StatusModel>, b: Seq<StatusModel>, entry: StatusModel)
    ensures
        times(a + b, entry) == times(a, entry) + times(b, entry),
    decreases b.len(),
{
    if b.len() == 0 {
        assert(a + b =~= a);
    } else {
        lemma_times_concat(a, b.drop_last(), entry);
        assert((a + b).drop_last() =~= a + b.drop_last());
    }
}

proof fn lemma_found_concat(
    tree: Tree,
    mode: ModeModel,
    a: Seq<TaskModel>,
    b: Seq<TaskModel>,
    entry: StatusModel,
)
    ensures
        found_in_all(tree, mode, a + b, entry) == found_in_all(tree, mode, a, entry)
            + found_in_all(tree, mode, b, entry),
    decreases b.len(),
{
    if b.len() == 0 {
        assert(a + b =~= a);
    } else {
        lemma_found_concat(tree, mode, a, b.drop_last(), entry);
        assert((a + b).drop_last() =~= a + b.drop_last());
    }
}

proof fn lemma_found_one(tree: Tree, mode: ModeModel, task: TaskModel, entry: StatusModel)
    ensures
        found_in_all(tree, mode, seq![task], entry) == found(tree, mode, task, entry),
{
    assert(seq![task].drop_last() =~= Seq::empty());
    assert(found_in_all(tree, mode, seq![task].drop_last(), entry) == 0);
}

/// Taking one task out takes out what is found below it.
proof fn lemma_found_remove(
    tree: Tree,
    mode: ModeModel,
    items: Seq<TaskModel>,
    k: int,
    entry: StatusModel,
)
    requires
        0 <= k < items.len(),
    ensures
        found_in_all(tree, mode, items, entry) == found_in_all(
            tree,
            mode,
            items.remove(k),
            entry,
        ) + found(tree, mode, items[k], entry),
{
    let a = items.take(k);
    let b = items.skip(k + 1);
    let one = seq![items[k]];
    assert(items =~= a + one + b);
    assert(items.remove(k) =~= a + b);
    lemma_found_concat(tree, mode, a + one, b, entry);
    lemma_found_concat(tree, mode, a, one, entry);
    lemma_found_concat(tree, mode, a, b, entry);
    lemma_found_one(tree, mode, items[k], entry);
}

/// What is found among children is what is handed out of them and what is found
/// below those that are entered.
proof fn lemma_found_among(
    tree: Tree,
    mode: ModeModel,
    task: TaskModel,
    n: int,
    entry: StatusModel,
)
    requires
        is_finite(tree),
        0 <= n <= children_of(tree, task.path).len(),
    ensures
        found_among(tree, mode, task, n, entry) == times(
            emitted(mode, task, children_of(tree, task.path).take(n)),
            entry,
        ) + found_in_all(
            tree,
            mode,
            entered(mode, task, children_of(tree, task.path).take(n)),
            entry,
        ),
    decreases n,
{
    let children = children_of(tree, task.path);
    if n > 0 {
        let front = children.take(n);
        let child = children[n - 1];
        lemma_found_among(tree, mode, task, n - 1, entry);
        assert(front.drop_last() =~= children.take(n - 1));
        assert(front.last() == child);
        let out = emitted(mode, task, front.drop_last());
        let into = entered(mode, task, front.drop_last());
        if child_emits(mode, task, child) {
            assert(out.push(child).drop_last() =~= out);
        }
        if child_entered(mode, task, child) {
            let next = child_task(mode, task, child);
            assert(into.push(next).drop_last() =~= into);
            assert(lower_below(tree, task.path));
            assert(children_of(tree, task.path)[n - 1].isdir);
        }
    }
}

/// What a walk has found and not handed out yet, and what it will find.
pub open spec fn outstanding(tree: Tree, run: Run, entry: StatusModel) -> nat {
    times(run.walk.outbox, entry) + found_by_stat(tree, run.walk.stat_due, entry) + found_by_stat(
        tree,
        run.asked,
        entry,
    ) + found_in_all(tree, run.walk.mode, run.walk.pending, entry) + found_in_all(
        tree,
        run.walk.mode,
        run.flying,
        entry,
    )
}

/// One move hands out nothing that was not outstanding, and loses nothing.
proof fn lemma_move_keeps_balance(tree: Tree, run: Run, step: Move, entry: StatusModel)
    requires
        is_finite(tree),
        can_move(run, step),
        run.asked is Some ==> run.walk.stat_due is None,
    ensures
        times(run_after(tree, run, step).sent, entry) + outstanding(
            tree,
            run_after(tree, run, step),
            entry,
        ) == times(run.sent, entry) + outstanding(tree, run, entry),
{
    let mode = run.walk.mode;
    let event = event_of(tree, run, step);
    let mid = noted(run.walk, event);
    let next = run_after(tree, run, step);
    let flying = match step {
        Move::Listed(k) => run.flying.remove(k),
        _ => run.flying,
    };
    let asked = if step is Stated {
        None
    } else {
        run.asked
    };
    // Taking note of the event.
    let after_event = times(mid.outbox, entry) + found_by_stat(tree, mid.stat_due, entry)
        + found_by_stat(tree, asked, entry) + found_in_all(tree, mode, mid.pending, entry)
        + found_in_all(tree, mode, flying, entry);
    assert(after_event == outstanding(tree, run, entry)) by {
        match step {
            Move::Listed(k) => {
                let task = run.flying[k];
                lemma_found_remove(tree, mode, run.flying, k, entry);
                let children = children_of(tree, task.path);
                lemma_found_among(tree, mode, task, children.len() as int, entry);
                assert(children.take(children.len() as int) =~= children);
                lemma_times_concat(run.walk.outbox, emitted(mode, task, children), entry);
                lemma_found_concat(
                    tree,
                    mode,
                    run.walk.pending,
                    entered(mode, task, children),
                    entry,
                );
            },
            Move::Stated => {
                if let Ok(status) = (tree.stat)(run.asked->Some_0) {
                    assert(run.walk.outbox.push(status).drop_last() =~= run.walk.outbox);
                }
            },
            _ => {},
        }
    }
    // The next action.
    match decided(mid).0 {
        ActionModel::Send(status) => {
            assert(mid.outbox =~= seq![status] + mid.outbox.skip(1));
            lemma_times_concat(seq![status], mid.outbox.skip(1), entry);
            assert(seq![status].drop_last() =~= Seq::empty());
            assert(times(seq![status].drop_last(), entry) == 0);
            assert(run.sent.push(status).drop_last() =~= run.sent);
        },
        ActionModel::List(task) => {
            lemma_found_remove(tree, mode, mid.pending, 0, entry);
            assert(mid.pending.remove(0) =~= mid.pending.skip(1));
            assert(flying.push(task).drop_last() =~= flying);
        },
        _ => {},
    }
}

/// Whether `error` is an error of the tree that a walk does not pass over.
pub open spec fn is_error_of(tree: Tree, mode: ModeModel, error: ErrorModel) -> bool {
    &&& !passes_over(mode, error)
    &&& exists|path: Seq<char>|
        (#[trigger] (tree.listing)(path)) == Err::<Seq<StatusModel>, ErrorModel>(error)
            || (tree.stat)(path) == Err::<StatusModel, ErrorModel>(error)
}

/// Whether nothing is left to be done or handed out.
pub open spec fn is_exhausted(run: Run) -> bool {
    &&& run.walk.outbox.len() == 0
    &&& run.walk.stat_due is None
    &&& run.asked is None
    &&& run.walk.pending.len() == 0
    &&& run.flying.len() == 0
    &&& run.walk.error is None
}

/// What holds of a run at all times, with `failure` being its first failure.
spec fn is_sound(
    tree: Tree,
    start: WalkModel,
    run: Run,
    failure: Option<ErrorModel>,
) -> bool {
    &&& run.walk.mode == start.mode
    &&& run.walk.limit == start.limit
    &&& run.walk.in_flight == run.flying.len() <= start.limit
    &&& run.asked is Some ==> run.walk.stat_due is None
    &&& failure matches Some(e) ==> is_error_of(tree, start.mode, e)
    &&& run.reported.len() <= 1
    &&& if run.reported.len() > 0 {
        run.walk.finished && failure == Some(run.reported[0])
    } else {
        failure == run.walk.error
    }
    &&& run.walk.finished ==> run.reported.len() > 0 || run.left || is_exhausted(run)
}

proof fn lemma_run_is_sound(tree: Tree, start: WalkModel, moves: Seq<Move>)
    requires
        is_start(start),
        can_run(tree, start, moves),
    ensures
        is_sound(
            tree,
            start,
            run_of(tree, start, moves),
            first_failure(tree, start, moves),
        ),
    decreases moves.len(),
{
    if moves.len() > 0 {
        let run = run_of(tree, start, moves.drop_last());
        let step = moves.last();
        lemma_run_is_sound(tree, start, moves.drop_last());
        match step {
            Move::Listed(k) => {
                let path = run.flying[k].path;
                let result = (tree.listing)(path);
            },
            Move::Stated => {
                let path = run.asked->Some_0;
                let result = (tree.listing)(path);
            },
            _ => {},
        }
    }
}

/// Law: never are more listings in flight than the walk allows, and the walk
/// waits only if one is in flight, and only if as many are as it allows or no
/// directory is left to be listed.
pub proof fn law_listings_in_flight_are_bounded(
    tree: Tree,
    start: WalkModel,
    moves: Seq<Move>,
    step: Move,
)
    requires
        is_start(start),
        can_run(tree, start, moves),
        can_move(run_of(tree, start, moves), step),
    ensures
        run_of(tree, start, moves).flying.len() <= start.limit,
        action_after(tree, run_of(tree, start, moves), step) is Wait ==> run_after(
            tree,
            run_of(tree, start, moves),
            step,
        ).flying.len() > 0,
        action_after(tree, run_of(tree, start, moves), step) is Wait ==> run_after(
            tree,
            run_of(tree, start, moves),
            step,
        ).flying.len() == start.limit || run_after(
            tree,
            run_of(tree, start, moves),
            step,
        ).walk.pending.len() == 0,
{
    lemma_run_is_sound(tree, start, moves);
}

/// Law: at all times, what was handed out and what is outstanding make up what
/// there is to be found. So nothing is lost, nothing is handed out that is not
/// to be found, and nothing is handed out more often than it is found.
pub proof fn law_walk_loses_nothing(
    tree: Tree,
    start: WalkModel,
    moves: Seq<Move>,
    entry: StatusModel,
)
    requires
        is_finite(tree),
        is_start(start),
        can_run(tree, start, moves),
    ensures
        times(run_of(tree, start, moves).sent, entry) + outstanding(
            tree,
            run_of(tree, start, moves),
            entry,
        ) == found_by(tree, start, entry),
    decreases moves.len(),
{
    if moves.len() > 0 {
        let run = run_of(tree, start, moves.drop_last());
        law_walk_loses_nothing(tree, start, moves.drop_last(), entry);
        lemma_run_is_sound(tree, start, moves.drop_last());
        lemma_move_keeps_balance(tree, run, moves.last(), entry);
    }
}

/// Law: a walk that ended without an error, and whose consumer did not leave,
/// has handed out all that there is to be found, whatever the order in which
/// its listings ended.
pub proof fn law_finished_walk_is_complete(
    tree: Tree,
    start: WalkModel,
    moves: Seq<Move>,
    entry: StatusModel,
)
    requires
        is_finite(tree),
        is_start(start),
        can_run(tree, start, moves),
        run_of(tree, start, moves).walk.finished,
        run_of(tree, start, moves).reported.len() == 0,
        !run_of(tree, start, moves).left,
    ensures
        times(run_of(tree, start, moves).sent, entry) == found_by(tree, start, entry),
{
    law_walk_loses_nothing(tree, start, moves, entry);
    lemma_run_is_sound(tree, start, moves);
}

/// Law: the first error that the walk does not pass over ends the walk and is
/// handed out. At most one error is handed out, it is the one of the first
/// failure and one of the tree, and the walk is over then; and a walk that ends
/// without one, with its consumer still there, has met none.
pub proof fn law_errors_are_handed_out(tree: Tree, start: WalkModel, moves: Seq<Move>)
    requires
        is_start(start),
        can_run(tree, start, moves),
    ensures
        run_of(tree, start, moves).reported.len() <= 1,
        run_of(tree, start, moves).reported.len() == 1 ==> {
            &&& run_of(tree, start, moves).walk.finished
            &&& first_failure(tree, start, moves) == Some(run_of(tree, start, moves).reported[0])
            &&& is_error_of(tree, start.mode, run_of(tree, start, moves).reported[0])
        },
        run_of(tree, start, moves).walk.finished && !run_of(tree, start, moves).left ==> (
        first_failure(tree, start, moves) is Some <==> run_of(tree, start, moves).reported.len()
            == 1),
{
    lemma_run_is_sound(tree, start, moves);
}

/// Law: a walk that is over does nothing more, whatever happens.
pub proof fn law_finished_walk_does_nothing(walk: WalkModel, event: EventModel)
    requires
        walk.finished,
    ensures
        decided(noted(walk, event)).0 == ActionModel::Stop,
        decided(noted(walk, event)).1.finished,
{
}

/// Law: a glob over a tree in which nothing fails but for paths that are
/// missing hands out no error.
pub proof fn law_missing_paths_are_no_error(tree: Tree, start: WalkModel, moves: Seq<Move>)
    requires
        is_start(start),
        start.mode is Glob,
        can_run(tree, start, moves),
        forall|path: Seq<char>|
            (#[trigger] (tree.listing)(path)) matches Err(e) ==> e.kind is FileNotFound,
        forall|path: Seq<char>|
            (#[trigger] (tree.stat)(path)) matches Err(e) ==> e.kind is FileNotFound,
    ensures
        run_of(tree, start, moves).reported.len() == 0,
{
    lemma_run_is_sound(tree, start, moves);
    let run = run_of(tree, start, moves);
    if run.reported.len() > 0 {
        let error = run.reported[0];
        let path = choose|path: Seq<char>|
            (#[trigger] (tree.listing)(path)) == Err::<Seq<StatusModel>, ErrorModel>(error)
                || (tree.stat)(path) == Err::<StatusModel, ErrorModel>(error);
        assert((tree.listing)(path) is Err || (tree.stat)(path) is Err);
    }
}

/// What holds of the listing of a root that cannot be listed, at all times.
spec fn is_futile(run: Run, root: TaskModel, error: ErrorModel) -> bool {
    &&& run.walk.mode is List
    &&& run.walk.outbox.len() == 0
    &&& run.walk.stat_due is None
    &&& run.asked is None
    &&& run.sent.len() == 0
    &&& forall|k: int| 0 <= k < run.walk.pending.len() ==> run.walk.pending[k] == root
    &&& forall|k: int| 0 <= k < run.flying.len() ==> run.flying[k] == root
    &&& run.left ==> run.walk.finished
    &&& !run.left ==> {
        ||| {
            &&& run.walk.pending.len() + run.flying.len() == 1
            &&& run.walk.in_flight == run.flying.len()
            &&& run.walk.error is None
            &&& run.reported.len() == 0
            &&& !run.walk.finished
        }
        ||| {
            &&& run.flying.len() == 0
            &&& run.reported == seq![error]
            &&& run.walk.finished
        }
    }
}

/// Law: a listing of a path that cannot be listed, be it that the path is
/// missing, hands out the error and nothing else.
pub proof fn law_unlistable_root_is_an_error(
    tree: Tree,
    root: Seq<char>,
    recursive: bool,
    max_parallelism: int,
    moves: Seq<Move>,
)
    requires
        (tree.listing)(root) is Err,
        can_run(tree, list_start(root, recursive, max_parallelism), moves),
    ensures
        run_of(tree, list_start(root, recursive, max_parallelism), moves).sent.len() == 0,
        ({
            let run = run_of(tree, list_start(root, recursive, max_parallelism), moves);
            run.walk.finished && !run.left ==> run.reported == seq![(tree.listing)(root)->Err_0]
        }),
{
    lemma_run_is_futile(tree, root, recursive, max_parallelism, moves);
}

proof fn lemma_run_is_futile(
    tree: Tree,
    root: Seq<char>,
    recursive: bool,
    max_parallelism: int,
    moves: Seq<Move>,
)
    requires
        (tree.listing)(root) is Err,
        can_run(tree, list_start(root, recursive, max_parallelism), moves),
    ensures
        is_futile(
            run_of(tree, list_start(root, recursive, max_parallelism), moves),
            TaskModel { path: root, states: Seq::empty() },
            (tree.listing)(root)->Err_0,
        ),
        run_of(tree, list_start(root, recursive, max_parallelism), moves).walk.limit >= 1,
    decreases moves.len(),
{
    let start = list_start(root, recursive, max_parallelism);
    if moves.len() > 0 {
        lemma_run_is_futile(tree, root, recursive, max_parallelism, moves.drop_last());
        let run = run_of(tree, start, moves);
        assert(run.reported.len() == 1 ==> run.reported =~= seq![run.reported[0]]);
    }
}

/// How much there is to do below the first `n` children of the directory of
/// `task`: an entry to be handed out counts once, a directory to be entered
/// twice.
pub open spec fn work_among(tree: Tree, mode: ModeModel, task: TaskModel, n: int) -> nat
    decreases (tree.height)(task.path), n,
{
    if n <= 0 {
        0
    } else {
        let child = children_of(tree, task.path)[n - 1];
        let before = work_among(tree, mode, task, n - 1);
        let here = if child_emits(mode, task, child) {
            1nat
        } else {
            0nat
        };
        let below = if child_entered(mode, task, child) && (tree.height)(child.path) < (tree.height)(
            task.path,
        ) {
            2 + work_among(
                tree,
                mode,
                child_task(mode, task, child),
                children_of(tree, child.path).len() as int,
            )
        } else {
            0nat
        };
        before + here + below
    }
}

/// How much there is to do below the directory of `task`.
pub open spec fn work_below(tree: Tree, mode: ModeModel, task: TaskModel) -> nat {
    work_among(tree, mode, task, children_of(tree, task.path).len() as int)
}

/// How much there is to do for all of `items`, with `each` more for each.
pub open spec fn work_for_all(
    tree: Tree,
    mode: ModeModel,
    items: Seq<TaskModel>,
    each: nat,
) -> nat
    decreases items.len(),
{
    if items.len() == 0 {
        0
    } else {
        work_for_all(tree, mode, items.drop_last(), each) + each + work_below(
            tree,
            mode,
            items.last(),
        )
    }
}

/// How much a walk has still to do.
pub open spec fn work_left(tree: Tree, run: Run) -> nat {
    let ending = if run.walk.finished {
        0nat
    } else {
        1nat
    };
    let asking = if run.walk.stat_due is Some {
        3nat
    } else {
        0nat
    };
    let asked = if run.asked is Some {
        2nat
    } else {
        0nat
    };
    ending + asking + asked + run.walk.outbox.len() + work_for_all(
        tree,
        run.walk.mode,
        run.walk.pending,
        2,
    ) + work_for_all(tree, run.walk.mode, run.flying, 1)
}

proof fn lemma_work_concat(
    tree: Tree,
    mode: ModeModel,
    a: Seq<TaskModel>,
    b: Seq<TaskModel>,
    each: nat,
)
    ensures
        work_for_all(tree, mode, a + b, each) == work_for_all(tree, mode, a, each)
            + work_for_all(tree, mode, b, each),
    decreases b.len(),
{
    if b.len() == 0 {
        assert(a + b =~= a);
    } else {
        lemma_work_concat(tree, mode, a, b.drop_last(), each);
        assert((a + b).drop_last() =~= a + b.drop_last());
    }
}

proof fn lemma_work_remove(
    tree: Tree,
    mode: ModeModel,
    items: Seq<TaskModel>,
    k: int,
    each: nat,
)
    requires
        0 <= k < items.len(),
    ensures
        work_for_all(tree, mode, items, each) == work_for_all(tree, mode, items.remove(k), each)
            + each + work_below(tree, mode, items[k]),
{
    let a = items.take(k);
    let b = items.skip(k + 1);
    let one = seq![items[k]];
    assert(items =~= a + one + b);
    assert(items.remove(k) =~= a + b);
    lemma_work_concat(tree, mode, a + one, b, each);
    lemma_work_concat(tree, mode, a, one, each);
    lemma_work_concat(tree, mode, a, b, each);
    assert(one.drop_last() =~= Seq::empty());
    assert(work_for_all(tree, mode, one.drop_last(), each) == 0);
}

proof fn lemma_work_among(tree: Tree, mode: ModeModel, task: TaskModel, n: int)
    requires
        is_finite(tree),
        0 <= n <= children_of(tree, task.path).len(),
    ensures
        work_among(tree, mode, task, n) == emitted(
            mode,
            task,
            children_of(tree, task.path).take(n),
        ).len() + work_for_all(
            tree,
            mode,
            entered(mode, task, children_of(tree, task.path).take(n)),
            2,
        ),
    decreases n,
{
    let children = children_of(tree, task.path);
    if n > 0 {
        let front = children.take(n);
        let child = children[n - 1];
        lemma_work_among(tree, mode, task, n - 1);
        assert(front.drop_last() =~= children.take(n - 1));
        assert(front.last() == child);
        let into = entered(mode, task, front.drop_last());
        if child_entered(mode, task, child) {
            let next = child_task(mode, task, child);
            assert(into.push(next).drop_last() =~= into);
            assert(lower_below(tree, task.path));
            assert(children_of(tree, task.path)[n - 1].isdir);
        }
    }
}

/// Law: as long as a walk is not over, every move leaves it with less to do,
/// but for one: to go on where the walk waits for a listing.
pub proof fn law_every_move_is_progress(
    tree: Tree,
    start: WalkModel,
    moves: Seq<Move>,
    step: Move,
)
    requires
        is_finite(tree),
        is_start(start),
        can_run(tree, start, moves),
        can_move(run_of(tree, start, moves), step),
        !run_of(tree, start, moves).walk.finished,
        !(step is Continue && action_after(tree, run_of(tree, start, moves), step) is Wait),
    ensures
        work_left(tree, run_after(tree, run_of(tree, start, moves), step)) < work_left(
            tree,
            run_of(tree, start, moves),
        ),
{
    let run = run_of(tree, start, moves);
    lemma_run_is_sound(tree, start, moves);
    let mode = run.walk.mode;
    let mid = noted(run.walk, event_of(tree, run, step));
    let flying = match step {
        Move::Listed(k) => run.flying.remove(k),
        _ => run.flying,
    };
    if let Move::Listed(k) = step {
        let task = run.flying[k];
        lemma_work_remove(tree, mode, run.flying, k, 1);
        let children = children_of(tree, task.path);
        lemma_work_among(tree, mode, task, children.len() as int);
        assert(children.take(children.len() as int) =~= children);
        lemma_work_concat(tree, mode, run.walk.pending, entered(mode, task, children), 2);
    }
    if let ActionModel::List(task) = decided(mid).0 {
        lemma_work_remove(tree, mode, mid.pending, 0, 2);
        assert(mid.pending.remove(0) =~= mid.pending.skip(1));
        assert(flying.push(task).drop_last() =~= flying);
    }
}

/// Whether all of `moves` were made while the walk was not over, and none of
/// them was to go on where the walk waits for a listing.
pub open spec fn wastes_no_move(tree: Tree, start: WalkModel, moves: Seq<Move>) -> bool
    decreases moves.len(),
{
    moves.len() == 0 || {
        let before = run_of(tree, start, moves.drop_last());
        &&& wastes_no_move(tree, start, moves.drop_last())
        &&& !before.walk.finished
        &&& !(moves.last() is Continue && action_after(tree, before, moves.last()) is Wait)
    }
}

/// Law: a walk over a finite tree ends, after no more moves than there was to
/// do when it started.
pub proof fn law_walk_ends(tree: Tree, start: WalkModel, moves: Seq<Move>)
    requires
        is_finite(tree),
        is_start(start),
        can_run(tree, start, moves),
        wastes_no_move(tree, start, moves),
    ensures
        moves.len() + work_left(tree, run_of(tree, start, moves)) <= work_left(
            tree,
            run_start(start),
        ),
    decreases moves.len(),
{
    if moves.len() > 0 {
        law_walk_ends(tree, start, moves.drop_last());
        law_every_move_is_progress(tree, start, moves.drop_last(), moves.last());
    }
}

} // verus!
