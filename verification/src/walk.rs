//! The scheduling of a directory walk.
//!
//! A [`Walk`] decides what a walk does next; its caller does it and reports
//! back with a [`WalkEvent`]. Directories are listed from a flat work queue
//! with a bounded number of listings in flight; directories found by any
//! listing are appended to the queue. A walk either lists a directory
//! (optionally with everything below it) or finds what a glob pattern matches.

use std::collections::VecDeque;

use vstd::prelude::*;

use crate::entry::statuses;
use crate::entry::FileStatus;
use crate::entry::StatusModel;
use crate::error::BridgeError;
use crate::error::ErrorKind;
use crate::error::ErrorModel;
use crate::glob::is_walkable;
use crate::glob::positions;
use crate::glob::step_emits;
use crate::glob::step_next;
use crate::glob::valid_positions;
use crate::glob::GlobPlan;
use crate::glob::PlanModel;
use crate::glob::Pos;
use crate::glob::Step;
use crate::text::chars_of;
use crate::text::string_of;

verus! {

/// A directory to be listed, with the states that its children are matched
/// against (none if nothing is matched).
pub struct Task {
    path: String,
    states: Vec<Pos>,
}

/// What a [`Task`] stands for.
#[verifier::ext_equal]
pub struct TaskModel {
    pub path: Seq<char>,
    pub states: Seq<(int, int)>,
}

impl View for Task {
    type V = TaskModel;

    closed spec fn view(&self) -> TaskModel {
        TaskModel { path: self.path@, states: positions(self.states@) }
    }
}

impl Task {
    /// The directory.
    pub fn path(&self) -> (r: &str)
        ensures
            r@ == self@.path,
    {
        self.path.as_str()
    }
}

/// What a sequence of tasks stands for.
pub open spec fn tasks(items: Seq<Task>) -> Seq<TaskModel> {
    Seq::new(items.len(), |k: int| items[k]@)
}

/// What a walk looks for.
enum Mode {
    /// The children of a directory, or everything below it.
    List { recursive: bool },
    /// What a pattern matches.
    Glob(GlobPlan),
}

/// What a walk looks for.
pub enum ModeModel {
    /// The children of a directory or, if the flag is set, everything below it.
    List(bool),
    /// What a pattern matches.
    Glob(PlanModel),
}

impl View for Mode {
    type V = ModeModel;

    closed spec fn view(&self) -> ModeModel {
        match *self {
            Mode::List { recursive } => ModeModel::List(recursive),
            Mode::Glob(plan) => ModeModel::Glob(plan@),
        }
    }
}

/// What happened since the last action.
pub enum WalkEvent {
    /// The last action was carried out.
    Ready,
    /// The status that was asked for has arrived.
    RootStatus(Result<FileStatus, BridgeError>),
    /// One of the listings in flight has ended.
    Listing(Task, Result<Vec<FileStatus>, BridgeError>),
    /// The consumer does not want any more entries.
    ConsumerGone,
}

/// What a [`WalkEvent`] stands for.
pub enum EventModel {
    Ready,
    RootStatus(Result<StatusModel, ErrorModel>),
    Listing(TaskModel, Result<Seq<StatusModel>, ErrorModel>),
    ConsumerGone,
}

impl View for WalkEvent {
    type V = EventModel;

    open spec fn view(&self) -> EventModel {
        match *self {
            WalkEvent::Ready => EventModel::Ready,
            WalkEvent::RootStatus(Ok(status)) => EventModel::RootStatus(Ok(status@)),
            WalkEvent::RootStatus(Err(e)) => EventModel::RootStatus(Err(e@)),
            WalkEvent::Listing(task, Ok(children)) => EventModel::Listing(
                task@,
                Ok(statuses(children@)),
            ),
            WalkEvent::Listing(task, Err(e)) => EventModel::Listing(task@, Err(e@)),
            WalkEvent::ConsumerGone => EventModel::ConsumerGone,
        }
    }
}

/// What the walk wants to be done next.
pub enum WalkAction {
    /// Ask for the status of a path, and report it.
    Stat(String),
    /// Start listing a directory, without what is below its children.
    List(Task),
    /// Wait until one of the listings in flight ends, and report it.
    Wait,
    /// Hand an entry to the consumer.
    Send(FileStatus),
    /// Hand an error to the consumer.
    SendError(BridgeError),
    /// Nothing: the walk is over.
    Stop,
}

/// What a [`WalkAction`] stands for.
#[verifier::ext_equal]
pub enum ActionModel {
    Stat(Seq<char>),
    List(TaskModel),
    Wait,
    Send(StatusModel),
    SendError(ErrorModel),
    Stop,
}

impl View for WalkAction {
    type V = ActionModel;

    open spec fn view(&self) -> ActionModel {
        match *self {
            WalkAction::Stat(path) => ActionModel::Stat(path@),
            WalkAction::List(task) => ActionModel::List(task@),
            WalkAction::Wait => ActionModel::Wait,
            WalkAction::Send(status) => ActionModel::Send(status@),
            WalkAction::SendError(e) => ActionModel::SendError(e@),
            WalkAction::Stop => ActionModel::Stop,
        }
    }
}

/// The state of a walk.
pub struct Walk {
    mode: Mode,
    /// How many listings may be in flight.
    limit: usize,
    /// The path whose status is still to be asked for, and handed out.
    stat_due: Option<String>,
    pending: VecDeque<Task>,
    in_flight: usize,
    /// Entries that were found and not handed out yet.
    outbox: VecDeque<FileStatus>,
    /// The error that ends the walk.
    error: Option<BridgeError>,
    finished: bool,
}

/// What a [`Walk`] stands for.
#[verifier::ext_equal]
pub struct WalkModel {
    pub mode: ModeModel,
    pub limit: int,
    pub stat_due: Option<Seq<char>>,
    pub pending: Seq<TaskModel>,
    pub in_flight: int,
    pub outbox: Seq<StatusModel>,
    pub error: Option<ErrorModel>,
    pub finished: bool,
}

impl View for Walk {
    type V = WalkModel;

    closed spec fn view(&self) -> WalkModel {
        WalkModel {
            mode: self.mode@,
            limit: self.limit as int,
            stat_due: match self.stat_due {
                Some(path) => Some(path@),
                None => None,
            },
            pending: tasks(self.pending@),
            in_flight: self.in_flight as int,
            outbox: statuses(self.outbox@),
            error: match self.error {
                Some(e) => Some(e@),
                None => None,
            },
            finished: self.finished,
        }
    }
}

/// The name at the end of a path: what follows the last `/`, or all of it if
/// there is none.
pub open spec fn base_name(path: Seq<char>) -> Seq<char>
    decreases path.len(),
{
    if path.len() == 0 || path.last() == '/' {
        Seq::empty()
    } else {
        base_name(path.drop_last()).push(path.last())
    }
}

/// Whether a walk looks at `child`, found by listing `path`. Listing a file
/// returns the file itself, which has no children to match.
pub open spec fn considers(mode: ModeModel, path: Seq<char>, child: StatusModel) -> bool {
    mode is List || child.path != path
}

/// Whether a walk hands out `child`, found by listing the directory of `task`.
pub open spec fn child_emits(mode: ModeModel, task: TaskModel, child: StatusModel) -> bool {
    considers(mode, task.path, child) && match mode {
        ModeModel::List(_) => true,
        ModeModel::Glob(plan) => step_emits(plan.patterns, task.states, base_name(child.path)),
    }
}

/// The states with which a walk enters `child`, found by listing the directory
/// of `task`.
pub open spec fn child_states(mode: ModeModel, task: TaskModel, child: StatusModel) -> Seq<
    (int, int),
> {
    match mode {
        ModeModel::List(_) => Seq::empty(),
        ModeModel::Glob(plan) => step_next(
            plan.patterns,
            task.states,
            base_name(child.path),
            child.isdir,
        ),
    }
}

/// Whether a walk enters `child`, found by listing the directory of `task`.
pub open spec fn child_entered(mode: ModeModel, task: TaskModel, child: StatusModel) -> bool {
    considers(mode, task.path, child) && child.isdir && match mode {
        ModeModel::List(recursive) => recursive,
        ModeModel::Glob(_) => child_states(mode, task, child).len() > 0,
    }
}

/// The task of entering `child`, found by listing the directory of `task`.
pub open spec fn child_task(mode: ModeModel, task: TaskModel, child: StatusModel) -> TaskModel {
    TaskModel { path: child.path, states: child_states(mode, task, child) }
}

/// The children that a walk hands out, in order.
pub open spec fn emitted(
    mode: ModeModel,
    task: TaskModel,
    children: Seq<StatusModel>,
) -> Seq<StatusModel>
    decreases children.len(),
{
    if children.len() == 0 {
        Seq::empty()
    } else {
        let before = emitted(mode, task, children.drop_last());
        if child_emits(mode, task, children.last()) {
            before.push(children.last())
        } else {
            before
        }
    }
}

/// The children that a walk enters, in order.
pub open spec fn entered(
    mode: ModeModel,
    task: TaskModel,
    children: Seq<StatusModel>,
) -> Seq<TaskModel>
    decreases children.len(),
{
    if children.len() == 0 {
        Seq::empty()
    } else {
        let before = entered(mode, task, children.drop_last());
        if child_entered(mode, task, children.last()) {
            before.push(child_task(mode, task, children.last()))
        } else {
            before
        }
    }
}

/// Whether a walk passes over an error. A path that is missing is no match for
/// a pattern; every other error ends the walk.
pub open spec fn passes_over(mode: ModeModel, error: ErrorModel) -> bool {
    mode is Glob && error.kind is FileNotFound
}

/// The error that a walk keeps for the consumer when it meets `error`: the
/// first that it does not pass over.
pub open spec fn kept_error(walk: WalkModel, error: ErrorModel) -> Option<ErrorModel> {
    if walk.error is Some || passes_over(walk.mode, error) {
        walk.error
    } else {
        Some(error)
    }
}

/// The walk after it took note of an event.
pub open spec fn noted(walk: WalkModel, event: EventModel) -> WalkModel {
    match event {
        EventModel::Ready => walk,
        EventModel::ConsumerGone => WalkModel { finished: true, ..walk },
        EventModel::RootStatus(Ok(status)) => WalkModel {
            outbox: walk.outbox.push(status),
            ..walk
        },
        EventModel::RootStatus(Err(e)) => WalkModel { error: kept_error(walk, e), ..walk },
        EventModel::Listing(task, Ok(children)) => WalkModel {
            in_flight: walk.in_flight - 1,
            outbox: walk.outbox + emitted(walk.mode, task, children),
            pending: walk.pending + entered(walk.mode, task, children),
            ..walk
        },
        EventModel::Listing(_, Err(e)) => WalkModel {
            in_flight: walk.in_flight - 1,
            error: kept_error(walk, e),
            ..walk
        },
    }
}

/// What a walk does next, and what it is afterwards.
pub open spec fn decided(walk: WalkModel) -> (ActionModel, WalkModel) {
    if walk.finished {
        (ActionModel::Stop, walk)
    } else if walk.outbox.len() > 0 {
        (
            ActionModel::Send(walk.outbox[0]),
            WalkModel { outbox: walk.outbox.skip(1), ..walk },
        )
    } else if walk.error is Some {
        (
            ActionModel::SendError(walk.error->Some_0),
            WalkModel { error: None, finished: true, ..walk },
        )
    } else if walk.stat_due is Some {
        (ActionModel::Stat(walk.stat_due->Some_0), WalkModel { stat_due: None, ..walk })
    } else if walk.in_flight < walk.limit && walk.pending.len() > 0 {
        (
            ActionModel::List(walk.pending[0]),
            WalkModel { pending: walk.pending.skip(1), in_flight: walk.in_flight + 1, ..walk },
        )
    } else if walk.in_flight > 0 {
        (ActionModel::Wait, walk)
    } else {
        (ActionModel::Stop, WalkModel { finished: true, ..walk })
    }
}

/// Whether the states of `task` are states of the walk.
pub open spec fn valid_task(mode: ModeModel, task: TaskModel) -> bool {
    match mode {
        ModeModel::List(_) => true,
        ModeModel::Glob(plan) => valid_positions(plan.patterns, task.states),
    }
}

/// Whether the states of all of `items` are states of the walk.
pub open spec fn valid_tasks(mode: ModeModel, items: Seq<TaskModel>) -> bool {
    forall|k: int| 0 <= k < items.len() ==> valid_task(mode, #[trigger] items[k])
}

/// Whether an event can happen to the walk: a listing ends only if one is in
/// flight, and only one that was started.
pub open spec fn possible(walk: WalkModel, event: EventModel) -> bool {
    match event {
        EventModel::Listing(task, _) => walk.in_flight > 0 && valid_task(walk.mode, task),
        _ => true,
    }
}

/// The walk that lists `root`.
pub open spec fn list_start(root: Seq<char>, recursive: bool, max_parallelism: int) -> WalkModel {
    WalkModel {
        mode: ModeModel::List(recursive),
        limit: if max_parallelism < 1 {
            1
        } else {
            max_parallelism
        },
        stat_due: None,
        pending: seq![TaskModel { path: root, states: Seq::empty() }],
        in_flight: 0,
        outbox: Seq::empty(),
        error: None,
        finished: false,
    }
}

/// The walk that finds what a pattern matches. An all-literal pattern (or brace
/// alternative) matches the root itself.
pub open spec fn glob_start(plan: PlanModel, max_parallelism: int) -> WalkModel {
    WalkModel {
        mode: ModeModel::Glob(plan),
        limit: if max_parallelism < 1 {
            1
        } else {
            max_parallelism
        },
        stat_due: if plan.emit_root {
            Some(plan.root)
        } else {
            None
        },
        pending: if plan.initial.len() > 0 {
            seq![TaskModel { path: plan.root, states: plan.initial }]
        } else {
            Seq::empty()
        },
        in_flight: 0,
        outbox: Seq::empty(),
        error: None,
        finished: false,
    }
}

/// The name at the end of a path: what follows the last `/`, or all of it if
/// there is none.
fn name_of(path: &str) -> (r: String)
    ensures
        r@ == base_name(path@),
{
    let chars: Vec<char> = chars_of(path);
    let n: usize = chars.len();
    let mut from: usize = n;
    assert(chars@.subrange(n as int, n as int) =~= Seq::empty());
    assert(chars@.take(n as int) =~= chars@);
    assert(base_name(chars@) =~= base_name(chars@.take(n as int)) + Seq::empty());
    while from > 0 && chars[from - 1] != '/'
        invariant
            n == chars@.len(),
            from <= n,
            base_name(chars@) == base_name(chars@.take(from as int)) + chars@.subrange(
                from as int,
                n as int,
            ),
        decreases from,
    {
        proof {
            let front = chars@.take(from as int);
            assert(front.drop_last() =~= chars@.take(from - 1));
            assert(base_name(front) == base_name(front.drop_last()).push(front.last()));
            assert(base_name(front) + chars@.subrange(from as int, n as int) =~= base_name(
                chars@.take(from - 1),
            ) + chars@.subrange(from - 1, n as int));
        }
        from -= 1;
    }
    proof {
        let front = chars@.take(from as int);
        assert(base_name(front) =~= Seq::empty());
        assert(base_name(chars@) =~= chars@.subrange(from as int, n as int));
    }
    string_of(chars.as_slice(), from, n)
}

/// `n`, but at least one.
fn at_least_one(n: usize) -> (r: usize)
    ensures
        r == if n < 1 {
            1int
        } else {
            n as int
        },
{
    if n < 1 {
        1
    } else {
        n
    }
}

impl Walk {
    /// Whether the walk is one that can be run: its states are states of a walk
    /// along its plan, and no more listings are in flight than allowed.
    pub open spec fn wf(&self) -> bool {
        &&& self@.mode matches ModeModel::Glob(plan) ==> is_walkable(plan)
        &&& valid_tasks(self@.mode, self@.pending)
        &&& 1 <= self@.limit
        &&& 0 <= self@.in_flight <= self@.limit
    }

    /// Walk `root`, handing out its children or, if `recursive` is true, the
    /// whole subtree. `max_parallelism` (clamped to at least one) bounds the
    /// number of listings in flight.
    pub fn list(root: String, recursive: bool, max_parallelism: usize) -> (r: Walk)
        ensures
            r.wf(),
            r@ == list_start(root@, recursive, max_parallelism as int),
    {
        let task = Task { path: root, states: Vec::new() };
        let ghost model = task@;
        let mut pending: VecDeque<Task> = VecDeque::new();
        pending.push_back(task);
        let r = Walk {
            mode: Mode::List { recursive },
            limit: at_least_one(max_parallelism),
            stat_due: None,
            pending,
            in_flight: 0,
            outbox: VecDeque::new(),
            error: None,
            finished: false,
        };
        proof {
            assert(model.states =~= Seq::empty());
            assert(r@.pending =~= seq![model]);
            assert(r@.outbox =~= Seq::empty());
        }
        r
    }

    /// Walk along `plan`, handing out every entry that matches.
    /// `max_parallelism` (clamped to at least one) bounds the number of
    /// listings in flight.
    pub fn glob(plan: GlobPlan, max_parallelism: usize) -> (r: Walk)
        requires
            plan.wf(),
        ensures
            r.wf(),
            r@ == glob_start(plan@, max_parallelism as int),
    {
        let ghost plan_model = plan@;
        let stat_due: Option<String> = if plan.emit_root() {
            Some(plan.root().to_owned())
        } else {
            None
        };
        let mut states: Vec<Pos> = Vec::new();
        let initial: &[Pos] = plan.initial();
        let mut i: usize = 0;
        while i < initial.len()
            invariant
                i <= initial@.len(),
                states@ == initial@.take(i as int),
            decreases initial@.len() - i,
        {
            states.push(initial[i]);
            i += 1;
        }
        assert(states@ =~= initial@);
        let ghost task_model = TaskModel { path: plan_model.root, states: plan_model.initial };
        let mut pending: VecDeque<Task> = VecDeque::new();
        if states.len() > 0 {
            let task = Task { path: plan.root().to_owned(), states };
            pending.push_back(task);
            assert(tasks(pending@) =~= seq![task_model]);
        } else {
            assert(tasks(pending@) =~= Seq::empty());
        }
        let r = Walk {
            mode: Mode::Glob(plan),
            limit: at_least_one(max_parallelism),
            stat_due,
            pending,
            in_flight: 0,
            outbox: VecDeque::new(),
            error: None,
            finished: false,
        };
        assert(r@.outbox =~= Seq::empty());
        r
    }

    /// How many listings are in flight.
    pub fn in_flight(&self) -> (r: usize)
        ensures
            r == self@.in_flight,
    {
        self.in_flight
    }

    /// Take note of `event`, and decide what to do next.
    pub fn advance(&mut self, event: WalkEvent) -> (action: WalkAction)
        requires
            old(self).wf(),
            possible(old(self)@, event@),
        ensures
            final(self).wf(),
            (action@, final(self)@) == decided(noted(old(self)@, event@)),
            action@ matches ActionModel::List(task) ==> valid_task(final(self)@.mode, task),
    {
        self.note(event);
        self.decide()
    }

    /// Take note of `event`.
    fn note(&mut self, event: WalkEvent)
        requires
            old(self).wf(),
            possible(old(self)@, event@),
        ensures
            final(self).wf(),
            final(self)@ == noted(old(self)@, event@),
    {
        let ghost before = self@;
        match event {
            WalkEvent::Ready => {},
            WalkEvent::ConsumerGone => {
                self.finished = true;
            },
            WalkEvent::RootStatus(Ok(status)) => {
                let ghost model = status@;
                self.outbox.push_back(status);
                assert(self@.outbox =~= before.outbox.push(model));
            },
            WalkEvent::RootStatus(Err(e)) => {
                self.note_error(e);
            },
            WalkEvent::Listing(task, Ok(children)) => {
                self.in_flight = self.in_flight - 1;
                self.note_children(&task, children);
            },
            WalkEvent::Listing(_, Err(e)) => {
                self.in_flight = self.in_flight - 1;
                self.note_error(e);
            },
        }
    }

    /// Keep an error for the consumer, unless the walk passes over it or keeps
    /// one already.
    fn note_error(&mut self, e: BridgeError)
        requires
            old(self).wf(),
        ensures
            final(self).wf(),
            final(self)@ == (WalkModel { error: kept_error(old(self)@, e@), ..old(self)@ }),
    {
        if let Mode::Glob(_) = &self.mode {
            if let ErrorKind::FileNotFound = &e.kind {
                // The root (or, in a race, a directory found earlier) is gone:
                // that's zero matches down this branch, not an error.
                return ;
            }
        }
        if self.error.is_none() {
            self.error = Some(e);
        }
    }

    /// Keep the children found by listing the directory of `task`: those to be
    /// handed out, and those to be entered.
    fn note_children(&mut self, task: &Task, children: Vec<FileStatus>)
        requires
            old(self).wf(),
            valid_task(old(self)@.mode, task@),
        ensures
            final(self).wf(),
            final(self)@ == (WalkModel {
                outbox: old(self)@.outbox + emitted(
                    old(self)@.mode,
                    task@,
                    statuses(children@),
                ),
                pending: old(self)@.pending + entered(
                    old(self)@.mode,
                    task@,
                    statuses(children@),
                ),
                ..old(self)@
            }),
    {
        let ghost before = self@;
        let ghost mode = self@.mode;
        let ghost all = statuses(children@);
        let ghost given = children@;
        proof {
            assert(all.take(0) =~= Seq::empty());
            assert(before.outbox + emitted(mode, task@, all.take(0)) =~= before.outbox);
            assert(before.pending + entered(mode, task@, all.take(0)) =~= before.pending);
        }
        for child in it: children
            invariant
                it.seq() == given,
                all == statuses(given),
                self.wf(),
                mode == before.mode,
                valid_task(mode, task@),
                self@ == (WalkModel {
                    outbox: before.outbox + emitted(mode, task@, all.take(it.index() as int)),
                    pending: before.pending + entered(mode, task@, all.take(it.index() as int)),
                    ..before
                }),
        {
            let ghost k = it.index() as int;
            proof {
                assert(all[k] == child@);
                assert(all.take(k + 1).drop_last() =~= all.take(k));
                assert(all.take(k + 1).last() == child@);
            }
            self.note_child(task, child);
            proof {
                assert(self@.outbox =~= before.outbox + emitted(mode, task@, all.take(k + 1)));
                assert(self@.pending =~= before.pending + entered(mode, task@, all.take(k + 1)));
            }
        }
        assert(all.take(all.len() as int) =~= all);
    }

    /// Keep one child found by listing the directory of `task`, if it is to be
    /// handed out or to be entered.
    fn note_child(&mut self, task: &Task, child: FileStatus)
        requires
            old(self).wf(),
            valid_task(old(self)@.mode, task@),
        ensures
            final(self).wf(),
            final(self)@.outbox == (if child_emits(old(self)@.mode, task@, child@) {
                old(self)@.outbox.push(child@)
            } else {
                old(self)@.outbox
            }),
            final(self)@.pending == (if child_entered(old(self)@.mode, task@, child@) {
                old(self)@.pending.push(child_task(old(self)@.mode, task@, child@))
            } else {
                old(self)@.pending
            }),
            final(self)@ == (WalkModel {
                outbox: final(self)@.outbox,
                pending: final(self)@.pending,
                ..old(self)@
            }),
    {
        let ghost before = self@;
        let ghost model = child@;
        let (emit, enter, states): (bool, bool, Vec<Pos>) = match &self.mode {
            Mode::List { recursive } => (true, *recursive && child.isdir, Vec::new()),
            Mode::Glob(plan) => {
                // Listing a file returns the file itself; it has no children to
                // match.
                if child.path == task.path {
                    return ;
                }
                let name: String = name_of(child.path.as_str());
                let step: Step = plan.step(task.states.as_slice(), name.as_str(), child.isdir);
                (step.emit, child.isdir && step.next.len() > 0, step.next)
            },
        };
        if enter {
            let next = Task { path: child.path.as_str().to_owned(), states };
            let ghost next_model = next@;
            self.pending.push_back(next);
            proof {
                assert(next_model =~= child_task(before.mode, task@, model));
                assert(self@.pending =~= before.pending.push(next_model));
            }
        }
        if emit {
            self.outbox.push_back(child);
            assert(self@.outbox =~= before.outbox.push(model));
        }
    }

    /// Decide what to do next.
    fn decide(&mut self) -> (action: WalkAction)
        requires
            old(self).wf(),
        ensures
            final(self).wf(),
            (action@, final(self)@) == decided(old(self)@),
            action@ matches ActionModel::List(task) ==> valid_task(final(self)@.mode, task),
    {
        let ghost before = self@;
        if self.finished {
            return WalkAction::Stop;
        }
        if let Some(status) = self.outbox.pop_front() {
            assert(self@.outbox =~= before.outbox.skip(1));
            return WalkAction::Send(status);
        }
        if let Some(e) = self.error.take() {
            self.finished = true;
            return WalkAction::SendError(e);
        }
        if let Some(path) = self.stat_due.take() {
            return WalkAction::Stat(path);
        }
        if self.in_flight < self.limit {
            if let Some(task) = self.pending.pop_front() {
                self.in_flight = self.in_flight + 1;
                proof {
                    assert(before.pending[0] == task@);
                    assert(self@.pending =~= before.pending.skip(1));
                }
                return WalkAction::List(task);
            }
        }
        if self.in_flight > 0 {
            WalkAction::Wait
        } else {
            self.finished = true;
            WalkAction::Stop
        }
    }
}

} // verus!
