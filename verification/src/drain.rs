//! What a caller gets that asks a stream for batch after batch.

use vstd::prelude::*;

use crate::entry::statuses;
use crate::entry::FileStatus;
use crate::entry::StatusModel;
use crate::error::error_code;
use crate::error::BridgeError;
use crate::error::ErrorModel;
use crate::error::IoErrorKind;
use crate::error::KindModel;
use crate::error::HDFS_ERR_IO;
use crate::report::law_messages_hold_no_nul;
use crate::report::quoted;
use crate::stream::answers;
use crate::stream::awaited_after;
use crate::stream::entries_as_items;
use crate::stream::failure_error;
use crate::stream::failure_status;
use crate::stream::is_waiting;
use crate::stream::items_brought;
use crate::stream::items_held;
use crate::stream::items_returned;
use crate::stream::law_new_stream_waits_to_be_asked;
use crate::stream::law_stream_hands_out_what_it_receives;
use crate::stream::law_stream_waits_on;
use crate::stream::stream_after;
use crate::stream::stream_start;
use crate::stream::Awaited;
use crate::stream::FailureModel;
use crate::stream::StreamAction;
use crate::stream::StreamActionModel;
use crate::stream::StreamEvent;
use crate::stream::StreamEventModel;
use crate::stream::StreamFailure;
use crate::stream::StreamModel;

verus! {

/// A stream that is being drained, with what went in and what came out.
pub struct Drain {
    pub stream: StreamModel,
    /// What the stream waits for.
    pub awaited: Awaited,
    /// How many entries were asked for last.
    pub asked: int,
    /// The items that came out of the channel, in order.
    pub brought: Seq<Result<StatusModel, ErrorModel>>,
    /// The items that were handed out, in order.
    pub returned: Seq<Result<StatusModel, ErrorModel>>,
    /// The batches and failures that were handed out, in order.
    pub results: Seq<Result<Seq<StatusModel>, FailureModel>>,
}

/// A stream that nothing has been asked of yet.
pub open spec fn drain_start(path: Seq<char>) -> Drain {
    Drain {
        stream: stream_start(path),
        awaited: Awaited::Next,
        asked: 0,
        brought: Seq::empty(),
        returned: Seq::empty(),
        results: Seq::empty(),
    }
}

/// The drain after an event.
pub open spec fn drain_after(drain: Drain, event: StreamEventModel) -> Drain {
    let (action, stream) = stream_after(drain.stream, event);
    Drain {
        stream,
        awaited: awaited_after(action),
        asked: match event {
            StreamEventModel::Next(max_entries) => max_entries,
            _ => drain.asked,
        },
        brought: drain.brought + items_brought(event),
        returned: drain.returned + items_returned(action),
        results: match action {
            StreamActionModel::Return(result) => drain.results.push(result),
            _ => drain.results,
        },
    }
}

/// The drain of a new stream after all of `events`.
pub open spec fn drain_of(path: Seq<char>, events: Seq<StreamEventModel>) -> Drain
    decreases events.len(),
{
    if events.len() == 0 {
        drain_start(path)
    } else {
        drain_after(drain_of(path, events.drop_last()), events.last())
    }
}

/// Whether each of `events` answers what the stream waits for then.
pub open spec fn answer_all(path: Seq<char>, events: Seq<StreamEventModel>) -> bool
    decreases events.len(),
{
    events.len() == 0 || (answer_all(path, events.drop_last()) && answers(
        drain_of(path, events.drop_last()).awaited,
        events.last(),
    ))
}

/// Law: over a whole drain, a stream hands out what it receives, in the same
/// order, each item once: what was handed out and what is held make up what
/// came out of the channel.
pub proof fn law_drain_hands_out_what_it_receives(
    path: Seq<char>,
    events: Seq<StreamEventModel>,
)
    requires
        answer_all(path, events),
    ensures
        is_waiting(drain_of(path, events).stream, drain_of(path, events).awaited),
        drain_of(path, events).returned + items_held(drain_of(path, events).stream) == drain_of(
            path,
            events,
        ).brought,
    decreases events.len(),
{
    let after = drain_of(path, events);
    if events.len() == 0 {
        law_new_stream_waits_to_be_asked(path);
        assert(after.returned + items_held(after.stream) =~= after.brought);
    } else {
        let before = drain_of(path, events.drop_last());
        let event = events.last();
        let action = stream_after(before.stream, event).0;
        law_drain_hands_out_what_it_receives(path, events.drop_last());
        law_stream_waits_on(before.stream, before.awaited, event);
        law_stream_hands_out_what_it_receives(before.stream, before.awaited, event);
        assert(after.returned + items_held(after.stream) =~= before.returned + (items_returned(
            action,
        ) + items_held(after.stream)));
        assert(before.returned + (items_held(before.stream) + items_brought(event)) =~= (
        before.returned + items_held(before.stream)) + items_brought(event));
    }
}

/// The items that a walk puts into the channel: its entries and, if it ends
/// with an error, the error.
pub open spec fn items_of(entries: Seq<StatusModel>, end: Option<FailureModel>) -> Seq<
    Result<StatusModel, ErrorModel>,
> {
    match end {
        Some(FailureModel::Walk(e)) => entries_as_items(entries).push(Err(e)),
        _ => entries_as_items(entries),
    }
}

/// Whether `event` can happen to a drain whose walk puts `entries` into the
/// channel and then ends: cleanly, with an error or by dying. Items come out of
/// the channel in order, the channel is closed only when all have come out, and
/// the walk is said to have died only if it has.
pub open spec fn agrees(
    entries: Seq<StatusModel>,
    end: Option<FailureModel>,
    drain: Drain,
    event: StreamEventModel,
) -> bool {
    let items = items_of(entries, end);
    let count = drain.brought.len() as int;
    match event {
        StreamEventModel::Received(item) => count < items.len() && item == items[count],
        StreamEventModel::Closed => count == items.len(),
        StreamEventModel::Joined(how) => how == match end {
            Some(FailureModel::Died(how)) => Some(how),
            _ => None,
        },
        _ => true,
    }
}

/// Whether each of `events` can happen to a drain whose walk puts `entries` into
/// the channel and then ends as `end` says.
pub open spec fn agree_all(
    path: Seq<char>,
    entries: Seq<StatusModel>,
    end: Option<FailureModel>,
    events: Seq<StreamEventModel>,
) -> bool
    decreases events.len(),
{
    events.len() == 0 || (agree_all(path, entries, end, events.drop_last()) && agrees(
        entries,
        end,
        drain_of(path, events.drop_last()),
        events.last(),
    ))
}

/// The entries of all batches, one after the other.
pub open spec fn entries_of(results: Seq<Result<Seq<StatusModel>, FailureModel>>) -> Seq<
    StatusModel,
>
    decreases results.len(),
{
    if results.len() == 0 {
        Seq::empty()
    } else {
        entries_of(results.drop_last()) + match results.last() {
            Ok(batch) => batch,
            Err(_) => Seq::empty(),
        }
    }
}

/// Whether `results` are what a caller should get of a walk that puts `entries`
/// into the channel and then ends as `end` says, with the end's turn being the
/// result at index `turn`: before it batches with entries, from the first entry
/// on and in order; at it, when all entries have been handed out, the failure
/// or, after a clean end, an empty batch; and after it empty batches only.
pub open spec fn are_results_of(
    entries: Seq<StatusModel>,
    end: Option<FailureModel>,
    results: Seq<Result<Seq<StatusModel>, FailureModel>>,
    turn: int,
) -> bool {
    let none = Ok::<Seq<StatusModel>, FailureModel>(Seq::empty());
    &&& 0 <= turn <= results.len()
    &&& forall|i: int|
        0 <= i < turn ==> ((#[trigger] results[i]) matches Ok(batch) && batch.len() > 0)
    &&& entries_of(results.take(turn)).is_prefix_of(entries)
    &&& turn < results.len() ==> {
        &&& entries_of(results.take(turn)) == entries
        &&& results[turn] == match end {
            Some(failure) => Err(failure),
            None => none,
        }
    }
    &&& forall|i: int| turn < i < results.len() ==> #[trigger] results[i] == none
}

/// What holds of a drain at all times, with the end's turn being the result at
/// index `turn`.
spec fn is_on_course(
    entries: Seq<StatusModel>,
    end: Option<FailureModel>,
    drain: Drain,
    turn: int,
) -> bool {
    let items = items_of(entries, end);
    let count = drain.brought.len() as int;
    let stream = drain.stream;
    let taken = if count < entries.len() {
        entries.take(count)
    } else {
        entries
    };
    &&& is_waiting(stream, drain.awaited)
    &&& count <= items.len()
    &&& are_results_of(entries, end, drain.results, turn)
    &&& entries_of(drain.results.take(turn)) + stream.batch == taken
    &&& if turn == drain.results.len() {
        // The end has not had its turn.
        &&& stream.pending_error == match end {
            Some(FailureModel::Walk(e)) => if count == items.len() {
                Some(e)
            } else {
                None
            },
            _ => None,
        }
        &&& stream.joined ==> drain.awaited is End && count == items.len()
    } else {
        &&& count == items.len()
        &&& stream.batch.len() == 0
        &&& stream.pending_error is None
        &&& (end matches Some(FailureModel::Walk(_))) || (stream.joined && !(drain.awaited is End))
    }
    &&& drain.awaited is End ==> stream.joined
}

/// Adding a batch adds its entries.
proof fn lemma_entries_of_push(
    results: Seq<Result<Seq<StatusModel>, FailureModel>>,
    result: Result<Seq<StatusModel>, FailureModel>,
)
    ensures
        entries_of(results.push(result)) == entries_of(results) + match result {
            Ok(batch) => batch,
            Err(_) => Seq::empty(),
        },
{
    assert(results.push(result).drop_last() =~= results);
}

/// One event keeps a drain on course; the end's turn moves on as long as there
/// are entries to be handed out.
proof fn lemma_stays_on_course(
    entries: Seq<StatusModel>,
    end: Option<FailureModel>,
    drain: Drain,
    event: StreamEventModel,
    turn: int,
) -> (next: int)
    requires
        is_on_course(entries, end, drain, turn),
        answers(drain.awaited, event),
        agrees(entries, end, drain, event),
    ensures
        is_on_course(entries, end, drain_after(drain, event), next),
{
    let after = drain_after(drain, event);
    let (action, stream) = stream_after(drain.stream, event);
    let results = drain.results;
    let count = drain.brought.len() as int;
    law_stream_waits_on(drain.stream, drain.awaited, event);
    // One more entry is taken, if one came.
    let taken = entries_of(results.take(turn)) + drain.stream.batch;
    if let StreamEventModel::Received(Ok(entry)) = event {
        assert(count < entries.len() && entry == entries[count]);
        assert(entries.take(count + 1) =~= entries.take(count).push(entry));
        assert(taken.push(entry) =~= entries_of(results.take(turn)) + drain.stream.batch.push(
            entry,
        ));
        assert(entries.take(entries.len() as int) =~= entries);
    }
    if let StreamEventModel::Received(Err(e)) = event {
        assert(count == entries.len());
    }
    assert(drain.stream.batch.len() == 0 ==> drain.stream.batch =~= Seq::empty());
    if turn < results.len() {
        assert(after.results.take(turn) =~= results.take(turn));
        turn
    } else {
        assert(results.take(turn) =~= results);
        match action {
            StreamActionModel::Return(result) => {
                lemma_entries_of_push(results, result);
                assert(after.results.take(turn) =~= results);
                assert(after.results.take(turn + 1) =~= after.results);
                assert(stream.batch =~= Seq::empty());
                assert(entries_of(after.results) + stream.batch =~= entries_of(after.results));
                assert(entries_of(results) + stream.batch =~= entries_of(results));
                if result is Ok && result->Ok_0.len() > 0 {
                    turn + 1
                } else {
                    turn
                }
            },
            _ => turn,
        }
    }
}

proof fn lemma_drain_is_on_course(
    path: Seq<char>,
    entries: Seq<StatusModel>,
    end: Option<FailureModel>,
    events: Seq<StreamEventModel>,
) -> (turn: int)
    requires
        answer_all(path, events),
        agree_all(path, entries, end, events),
    ensures
        is_on_course(entries, end, drain_of(path, events), turn),
    decreases events.len(),
{
    if events.len() == 0 {
        let start = drain_start(path);
        assert(start.results.take(0) =~= Seq::empty());
        assert(entries_of(start.results.take(0)) =~= Seq::empty());
        assert(entries.take(0) =~= Seq::empty());
        assert(entries.len() == 0 ==> entries =~= Seq::empty());
        assert(entries_of(start.results.take(0)) + start.stream.batch =~= Seq::empty());
        0
    } else {
        let turn = lemma_drain_is_on_course(path, entries, end, events.drop_last());
        lemma_stays_on_course(
            entries,
            end,
            drain_of(path, events.drop_last()),
            events.last(),
            turn,
        )
    }
}

/// Law: whoever asks for batch after batch, of whatever sizes, gets the entries
/// of the walk in order, in batches that are not empty; then, once, the error
/// with which the walk ended, or how it died, if it did not end cleanly; and
/// then empty batches for ever. An error met in the middle of a batch neither
/// drops the entries before it nor is lost or repeated.
pub proof fn law_drain_gives_the_entries_and_then_the_end(
    path: Seq<char>,
    entries: Seq<StatusModel>,
    end: Option<FailureModel>,
    events: Seq<StreamEventModel>,
)
    requires
        answer_all(path, events),
        agree_all(path, entries, end, events),
    ensures
        exists|turn: int|
            are_results_of(entries, end, drain_of(path, events).results, turn),
{
    let turn = lemma_drain_is_on_course(path, entries, end, events);
    assert(are_results_of(entries, end, drain_of(path, events).results, turn));
}

/// `n`, but at least one.
pub open spec fn at_least(n: int) -> int {
    if n > 1 {
        n
    } else {
        1
    }
}

/// While a stream waits for items, it knows how many were asked for.
proof fn lemma_limit_is_what_was_asked(path: Seq<char>, events: Seq<StreamEventModel>)
    requires
        answer_all(path, events),
    ensures
        ({
            let drain = drain_of(path, events);
            &&& drain.stream.path == path
            &&& drain.awaited is First || drain.awaited is More ==> drain.stream.limit
                == at_least(drain.asked)
            &&& drain.awaited is First ==> drain.stream.batch.len() == 0
        }),
    decreases events.len(),
{
    law_drain_hands_out_what_it_receives(path, events);
    if events.len() > 0 {
        lemma_limit_is_what_was_asked(path, events.drop_last());
        law_drain_hands_out_what_it_receives(path, events.drop_last());
    }
}

/// Law: a batch has at most as many entries as were asked for, one being asked
/// for at least. It has fewer only if the channel has no item right then, if an
/// error comes out of it, or if the listing is exhausted.
pub proof fn law_batches_have_what_was_asked_for(
    path: Seq<char>,
    events: Seq<StreamEventModel>,
    event: StreamEventModel,
)
    requires
        answer_all(path, events.push(event)),
    ensures
        ({
            let drain = drain_of(path, events);
            stream_after(drain.stream, event).0 matches StreamActionModel::Return(Ok(batch)) ==> {
                &&& batch.len() <= at_least(drain.asked)
                &&& batch.len() < at_least(drain.asked) ==> {
                    ||| event is Empty
                    ||| event is Closed
                    ||| event is Joined
                    ||| event matches StreamEventModel::Received(Err(_))
                }
            }
        }),
{
    assert(events.push(event).drop_last() =~= events);
    assert(events.push(event).last() == event);
    lemma_limit_is_what_was_asked(path, events);
    law_drain_hands_out_what_it_receives(path, events);
}

/// Law: a stream keeps the path that it is for.
pub proof fn law_stream_keeps_its_path(path: Seq<char>, events: Seq<StreamEventModel>)
    requires
        answer_all(path, events),
    ensures
        drain_of(path, events).stream.path == path,
{
    lemma_limit_is_what_was_asked(path, events);
}

/// Law: what stands for an event of a stream, and for an action, has all that
/// they bring.
pub proof fn law_stream_models(
    entry: FileStatus,
    batch: Vec<FileStatus>,
    error: BridgeError,
    text: String,
    n: usize,
    k: int,
)
    ensures
        StreamEvent::Next(n)@ == StreamEventModel::Next(n as int),
        StreamEvent::Received(Ok(entry))@ == StreamEventModel::Received(Ok(entry@)),
        StreamEvent::Received(Err(error))@ == StreamEventModel::Received(Err(error@)),
        StreamEvent::Empty@ == StreamEventModel::Empty,
        StreamEvent::Closed@ == StreamEventModel::Closed,
        StreamEvent::Joined(Some(text))@ == StreamEventModel::Joined(Some(text@)),
        StreamEvent::Joined(None)@ == StreamEventModel::Joined(None),
        StreamAction::Receive@ == StreamActionModel::Receive,
        StreamAction::TryReceive@ == StreamActionModel::TryReceive,
        StreamAction::Join@ == StreamActionModel::Join,
        StreamAction::Return(Ok(batch))@ == StreamActionModel::Return(Ok(statuses(batch@))),
        StreamAction::Return(Err(StreamFailure::Walk(error)))@ == StreamActionModel::Return(
            Err(FailureModel::Walk(error@)),
        ),
        StreamAction::Return(Err(StreamFailure::Died(text)))@ == StreamActionModel::Return(
            Err(FailureModel::Died(text@)),
        ),
        statuses(batch@).len() == batch@.len(),
        0 <= k < batch@.len() ==> statuses(batch@)[k] == batch@[k]@,
{
}

/// Law: a failure is told in full: an error of the walk is passed on as it is,
/// and is reported with its text behind what was listed; the death of a walk is
/// an IO error that tells how it died.
pub proof fn law_failures_are_told(path: Seq<char>, error: ErrorModel, how: Seq<char>)
    ensures
        failure_error(FailureModel::Walk(error)) == error,
        failure_error(FailureModel::Died(how)).kind == KindModel::IOError(IoErrorKind::Other),
        failure_error(FailureModel::Died(how)).text
            == "IO error occurred while communicating with HDFS: walker task died: "@ + how,
        failure_status(path, FailureModel::Walk(error)).code == error_code(error.kind),
        failure_status(path, FailureModel::Died(how)).code == HDFS_ERR_IO,
        !path.contains('\0') && !error.text.contains('\0') ==> failure_status(
            path,
            FailureModel::Walk(error),
        ).msg == "list '"@ + path + "' failed: "@ + error.text,
        !path.contains('\0') && !how.contains('\0') ==> failure_status(
            path,
            FailureModel::Died(how),
        ).msg == "list '"@ + path + "' failed: walker task died: "@ + how,
{
    reveal_strlit("IO error occurred while communicating with HDFS: ");
    reveal_strlit("walker task died: ");
    reveal_strlit("IO error occurred while communicating with HDFS: walker task died: ");
    reveal_strlit("list ");
    reveal_strlit("'");
    reveal_strlit(" failed");
    reveal_strlit(": ");
    reveal_strlit(": walker task died: ");
    reveal_strlit("list '");
    reveal_strlit("' failed: ");
    reveal_strlit("' failed: walker task died: ");
    assert("IO error occurred while communicating with HDFS: "@ + ("walker task died: "@ + how)
        =~= "IO error occurred while communicating with HDFS: walker task died: "@ + how);
    let context = quoted("list "@, path, " failed"@);
    let walk = "list '"@ + path + "' failed: "@ + error.text;
    let died = "list '"@ + path + "' failed: walker task died: "@ + how;
    assert(context + ": "@ + error.text =~= walk);
    assert(context + ": walker task died: "@ + how =~= died);
    law_messages_hold_no_nul(error_code(error.kind), walk);
    law_messages_hold_no_nul(HDFS_ERR_IO, died);
    if !path.contains('\0') {
        assert forall|k: int| 0 <= k < path.len() implies path[k] != '\0' by {
            assert(path.contains(path[k]));
        }
        if !error.text.contains('\0') {
            assert forall|k: int| 0 <= k < error.text.len() implies error.text[k] != '\0' by {
                assert(error.text.contains(error.text[k]));
            }
            assert(!walk.contains('\0'));
        }
        if !how.contains('\0') {
            assert forall|k: int| 0 <= k < how.len() implies how[k] != '\0' by {
                assert(how.contains(how[k]));
            }
            assert(!died.contains('\0'));
        }
    }
}

} // verus!
