//! Draining a walk in batches.
//!
//! A walk feeds entries and at most one error through a channel. A
//! [`BridgeListStream`] decides how to drain the channel; its caller receives
//! from the channel and reports back with a [`StreamEvent`].

use vstd::prelude::*;

use crate::entry::statuses;
use crate::entry::FileStatus;
use crate::entry::StatusModel;
use crate::error::error_code;
use crate::error::io_text;
use crate::error::BridgeError;
use crate::error::ErrorModel;
use crate::error::IoErrorKind;
use crate::error::KindModel;
use crate::error::HDFS_ERR_IO;
use crate::report::error_status;
use crate::report::quoted;
use crate::report::set_status;
use crate::report::status_of;
use crate::report::Operation;
use crate::report::ReportModel;
use crate::report::Status;

verus! {

/// Why a batch could not be fetched.
#[derive(Debug)]
pub enum StreamFailure {
    /// The walk handed out an error.
    Walk(BridgeError),
    /// The walk died without reporting, with a description of how.
    Died(String),
}

/// What a [`StreamFailure`] stands for.
pub enum FailureModel {
    Walk(ErrorModel),
    Died(Seq<char>),
}

impl View for StreamFailure {
    type V = FailureModel;

    open spec fn view(&self) -> FailureModel {
        match *self {
            StreamFailure::Walk(e) => FailureModel::Walk(e@),
            StreamFailure::Died(how) => FailureModel::Died(how@),
        }
    }
}

/// The error that stands for a failure.
pub open spec fn failure_error(failure: FailureModel) -> ErrorModel {
    match failure {
        FailureModel::Walk(e) => e,
        FailureModel::Died(how) => ErrorModel {
            kind: KindModel::IOError(IoErrorKind::Other),
            text: io_text("walker task died: "@ + how),
        },
    }
}

/// The status for a failure to list `path`.
pub open spec fn failure_status(path: Seq<char>, failure: FailureModel) -> ReportModel {
    let context = quoted("list "@, path, " failed"@);
    match failure {
        FailureModel::Walk(e) => error_status(context, e),
        FailureModel::Died(how) => status_of(
            HDFS_ERR_IO,
            context + ": walker task died: "@ + how,
        ),
    }
}

impl StreamFailure {
    /// The error that stands for this failure.
    pub fn into_error(self) -> (r: BridgeError)
        ensures
            r@ == failure_error(self@),
    {
        match self {
            StreamFailure::Walk(e) => e,
            StreamFailure::Died(how) => {
                let mut message = String::from_str("walker task died: ");
                message.append(how.as_str());
                BridgeError::io_other(message.as_str())
            },
        }
    }

    /// The status for this failure to list `path`.
    pub fn report(&self, path: &str) -> (r: Status)
        ensures
            r@ == failure_status(path@, self@),
    {
        let op = Operation::List(path.to_owned());
        match self {
            StreamFailure::Walk(e) => op.failed(e),
            StreamFailure::Died(how) => {
                let mut message: String = op.context();
                message.append(": walker task died: ");
                message.append(how.as_str());
                set_status(HDFS_ERR_IO, message.as_str())
            },
        }
    }
}

/// Law: a failure has one category, whether it is passed on as an error or
/// reported as a status.
pub proof fn law_failure_has_one_category(path: Seq<char>, failure: FailureModel)
    ensures
        failure_status(path, failure).code == error_code(failure_error(failure).kind),
{
}

/// What happened since the last action.
pub enum StreamEvent {
    /// A batch of at most the given number of entries is asked for.
    Next(usize),
    /// An item came out of the channel.
    Received(Result<FileStatus, BridgeError>),
    /// The channel has no item right now.
    Empty,
    /// The channel is closed, and all its items have been received.
    Closed,
    /// The walk has ended: cleanly or, with a description, by dying.
    Joined(Option<String>),
}

/// What a [`StreamEvent`] stands for.
pub enum StreamEventModel {
    Next(int),
    Received(Result<StatusModel, ErrorModel>),
    Empty,
    Closed,
    Joined(Option<Seq<char>>),
}

impl View for StreamEvent {
    type V = StreamEventModel;

    open spec fn view(&self) -> StreamEventModel {
        match *self {
            StreamEvent::Next(max_entries) => StreamEventModel::Next(max_entries as int),
            StreamEvent::Received(Ok(entry)) => StreamEventModel::Received(Ok(entry@)),
            StreamEvent::Received(Err(e)) => StreamEventModel::Received(Err(e@)),
            StreamEvent::Empty => StreamEventModel::Empty,
            StreamEvent::Closed => StreamEventModel::Closed,
            StreamEvent::Joined(Some(how)) => StreamEventModel::Joined(Some(how@)),
            StreamEvent::Joined(None) => StreamEventModel::Joined(None),
        }
    }
}

/// What is to be done next.
pub enum StreamAction {
    /// Receive an item, waiting for it, and report it or that the channel is
    /// closed.
    Receive,
    /// Receive an item if there is one right now, and report it or that there
    /// is none.
    TryReceive,
    /// Wait for the walk to end, and report how it ended.
    Join,
    /// Hand out a batch or a failure. An empty batch means that the listing is
    /// exhausted.
    Return(Result<Vec<FileStatus>, StreamFailure>),
}

/// What a [`StreamAction`] stands for.
pub enum StreamActionModel {
    Receive,
    TryReceive,
    Join,
    Return(Result<Seq<StatusModel>, FailureModel>),
}

impl View for StreamAction {
    type V = StreamActionModel;

    open spec fn view(&self) -> StreamActionModel {
        match *self {
            StreamAction::Receive => StreamActionModel::Receive,
            StreamAction::TryReceive => StreamActionModel::TryReceive,
            StreamAction::Join => StreamActionModel::Join,
            StreamAction::Return(Ok(batch)) => StreamActionModel::Return(Ok(statuses(batch@))),
            StreamAction::Return(Err(failure)) => StreamActionModel::Return(Err(failure@)),
        }
    }
}

/// A streaming directory listing, as far as it decides how the channel is
/// drained.
pub struct BridgeListStream {
    /// The listed path, for error messages.
    path: String,
    /// An error received mid-batch; handed out with the following batch's turn.
    pending_error: Option<BridgeError>,
    /// Whether the walk's end has been waited for, to distinguish a completed
    /// walk from one that died.
    joined: bool,
    /// The largest size of the current batch.
    limit: usize,
    batch: Vec<FileStatus>,
}

/// What a [`BridgeListStream`] stands for.
#[verifier::ext_equal]
pub struct StreamModel {
    pub path: Seq<char>,
    pub pending_error: Option<ErrorModel>,
    pub joined: bool,
    pub limit: int,
    pub batch: Seq<StatusModel>,
}

impl View for BridgeListStream {
    type V = StreamModel;

    closed spec fn view(&self) -> StreamModel {
        StreamModel {
            path: self.path@,
            pending_error: match self.pending_error {
                Some(e) => Some(e@),
                None => None,
            },
            joined: self.joined,
            limit: self.limit as int,
            batch: statuses(self.batch@),
        }
    }
}

/// A stream that nothing has been asked of yet.
pub open spec fn stream_start(path: Seq<char>) -> StreamModel {
    StreamModel { path, pending_error: None, joined: false, limit: 1, batch: Seq::empty() }
}

/// The stream after it handed out its batch, and the action of doing so.
pub open spec fn batch_returned(stream: StreamModel) -> (StreamActionModel, StreamModel) {
    (
        StreamActionModel::Return(Ok(stream.batch)),
        StreamModel { batch: Seq::empty(), ..stream },
    )
}

/// What a stream does after an event, and what it is then.
pub open spec fn stream_after(stream: StreamModel, event: StreamEventModel) -> (
    StreamActionModel,
    StreamModel,
) {
    match event {
        StreamEventModel::Next(max_entries) => match stream.pending_error {
            Some(e) => (
                StreamActionModel::Return(Err(FailureModel::Walk(e))),
                StreamModel { pending_error: None, ..stream },
            ),
            None => (
                StreamActionModel::Receive,
                StreamModel {
                    limit: if max_entries < 1 {
                        1
                    } else {
                        max_entries
                    },
                    ..stream
                },
            ),
        },
        StreamEventModel::Received(Ok(entry)) => {
            let longer = StreamModel { batch: stream.batch.push(entry), ..stream };
            if longer.batch.len() < longer.limit {
                (StreamActionModel::TryReceive, longer)
            } else {
                batch_returned(longer)
            }
        },
        StreamEventModel::Received(Err(e)) => if stream.batch.len() == 0 {
            (StreamActionModel::Return(Err(FailureModel::Walk(e))), stream)
        } else {
            // Hand out what there is; the error's turn is next.
            batch_returned(StreamModel { pending_error: Some(e), ..stream })
        },
        StreamEventModel::Empty => batch_returned(stream),
        StreamEventModel::Closed => if stream.joined {
            batch_returned(stream)
        } else {
            (StreamActionModel::Join, StreamModel { joined: true, ..stream })
        },
        StreamEventModel::Joined(None) => batch_returned(stream),
        StreamEventModel::Joined(Some(how)) => (
            StreamActionModel::Return(Err(FailureModel::Died(how))),
            stream,
        ),
    }
}

impl BridgeListStream {
    /// A stream for the listing of `path`.
    pub fn new(path: String) -> (r: BridgeListStream)
        ensures
            r@ == stream_start(path@),
    {
        let r = BridgeListStream {
            path,
            pending_error: None,
            joined: false,
            limit: 1,
            batch: Vec::new(),
        };
        assert(r@.batch =~= Seq::empty());
        r
    }

    /// The listed path, for error messages.
    pub fn path(&self) -> (r: &str)
        ensures
            r@ == self@.path,
    {
        self.path.as_str()
    }

    /// Take a step towards the next batch of entries: take note of `event`, and
    /// decide what to do next. A batch starts when it is asked for, and ends
    /// when it is handed out.
    pub fn next_batch(&mut self, event: StreamEvent) -> (action: StreamAction)
        ensures
            (action@, final(self)@) == stream_after(old(self)@, event@),
    {
        let ghost before = self@;
        match event {
            StreamEvent::Next(max_entries) => {
                if let Some(e) = self.pending_error.take() {
                    return StreamAction::Return(Err(StreamFailure::Walk(e)));
                }
                self.limit = if max_entries < 1 {
                    1
                } else {
                    max_entries
                };
                StreamAction::Receive
            },
            StreamEvent::Received(Ok(entry)) => {
                let ghost model = entry@;
                self.batch.push(entry);
                assert(self@.batch =~= before.batch.push(model));
                if self.batch.len() < self.limit {
                    StreamAction::TryReceive
                } else {
                    self.return_batch()
                }
            },
            StreamEvent::Received(Err(e)) => {
                if self.batch.len() == 0 {
                    return StreamAction::Return(Err(StreamFailure::Walk(e)));
                }
                // Hand out what there is; the error's turn is next.
                self.pending_error = Some(e);
                self.return_batch()
            },
            StreamEvent::Empty => self.return_batch(),
            StreamEvent::Closed => {
                // The walk finished, or it died without reporting, which must
                // not masquerade as a clean end of the stream.
                if self.joined {
                    self.return_batch()
                } else {
                    self.joined = true;
                    StreamAction::Join
                }
            },
            StreamEvent::Joined(None) => self.return_batch(),
            StreamEvent::Joined(Some(how)) => {
                StreamAction::Return(Err(StreamFailure::Died(how)))
            },
        }
    }

    /// Hand out the batch.
    fn return_batch(&mut self) -> (action: StreamAction)
        ensures
            (action@, final(self)@) == batch_returned(old(self)@),
    {
        let mut batch: Vec<FileStatus> = Vec::new();
        batch.append(&mut self.batch);
        assert(batch@ =~= old(self).batch@);
        assert(self@.batch =~= Seq::empty());
        StreamAction::Return(Ok(batch))
    }
}

/// What a stream waits for.
pub enum Awaited {
    /// To be asked for a batch.
    Next,
    /// The first item of a batch.
    First,
    /// A further item of a batch, if there is one.
    More,
    /// The end of the walk.
    End,
}

/// What a stream waits for after an action.
pub open spec fn awaited_after(action: StreamActionModel) -> Awaited {
    match action {
        StreamActionModel::Receive => Awaited::First,
        StreamActionModel::TryReceive => Awaited::More,
        StreamActionModel::Join => Awaited::End,
        StreamActionModel::Return(_) => Awaited::Next,
    }
}

/// Whether `event` is one that the stream waits for.
pub open spec fn answers(awaited: Awaited, event: StreamEventModel) -> bool {
    match event {
        StreamEventModel::Next(_) => awaited is Next,
        StreamEventModel::Received(_) => awaited is First || awaited is More,
        StreamEventModel::Empty => awaited is More,
        StreamEventModel::Closed => awaited is First,
        StreamEventModel::Joined(_) => awaited is End,
    }
}

/// Whether the stream can wait for what it waits for: it holds entries exactly
/// while it waits for further ones, and fewer than the batch may have.
pub open spec fn is_waiting(stream: StreamModel, awaited: Awaited) -> bool {
    &&& stream.limit >= 1
    &&& if awaited is More {
        0 < stream.batch.len() < stream.limit
    } else {
        stream.batch.len() == 0
    }
    &&& stream.pending_error is Some ==> awaited is Next
}

/// Law: a new stream waits to be asked for a batch.
pub proof fn law_new_stream_waits_to_be_asked(path: Seq<char>)
    ensures
        is_waiting(stream_start(path), Awaited::Next),
{
}

/// Law: a stream that is answered what it waits for can wait for what it waits
/// for next.
pub proof fn law_stream_waits_on(stream: StreamModel, awaited: Awaited, event: StreamEventModel)
    requires
        is_waiting(stream, awaited),
        answers(awaited, event),
    ensures
        is_waiting(
            stream_after(stream, event).1,
            awaited_after(stream_after(stream, event).0),
        ),
{
}

/// The items that a stream has received and not handed out.
pub open spec fn items_held(stream: StreamModel) -> Seq<Result<StatusModel, ErrorModel>> {
    entries_as_items(stream.batch) + match stream.pending_error {
        Some(e) => seq![Err(e)],
        None => Seq::empty(),
    }
}

/// Entries as items of the channel.
pub open spec fn entries_as_items(batch: Seq<StatusModel>) -> Seq<
    Result<StatusModel, ErrorModel>,
> {
    Seq::new(batch.len(), |k: int| Ok(batch[k]))
}

/// The items that an event brings.
pub open spec fn items_brought(event: StreamEventModel) -> Seq<Result<StatusModel, ErrorModel>> {
    match event {
        StreamEventModel::Received(item) => seq![item],
        _ => Seq::empty(),
    }
}

/// The items that an action hands out.
pub open spec fn items_returned(action: StreamActionModel) -> Seq<
    Result<StatusModel, ErrorModel>,
> {
    match action {
        StreamActionModel::Return(Ok(batch)) => entries_as_items(batch),
        StreamActionModel::Return(Err(FailureModel::Walk(e))) => seq![Err(e)],
        _ => Seq::empty(),
    }
}

/// Law: a stream hands out what it receives, in the same order, each item once:
/// what it held and what an event brings is what it hands out and what it holds
/// then. An error received mid-batch comes after the entries before it.
pub proof fn law_stream_hands_out_what_it_receives(
    stream: StreamModel,
    awaited: Awaited,
    event: StreamEventModel,
)
    requires
        is_waiting(stream, awaited),
        answers(awaited, event),
    ensures
        items_held(stream) + items_brought(event) == items_returned(
            stream_after(stream, event).0,
        ) + items_held(stream_after(stream, event).1),
{
    let (action, after) = stream_after(stream, event);
    assert(items_held(stream) + items_brought(event) =~= items_returned(action) + items_held(
        after,
    ));
}

/// Law: a batch has at most as many entries as were asked for, but at least
/// one, unless the listing is exhausted: an empty batch comes only of a channel
/// that is closed, after a walk that did not die.
pub proof fn law_batches_are_bounded(
    stream: StreamModel,
    awaited: Awaited,
    event: StreamEventModel,
)
    requires
        is_waiting(stream, awaited),
        answers(awaited, event),
    ensures
        stream_after(stream, event).0 matches StreamActionModel::Return(Ok(batch)) ==> {
            &&& batch.len() <= stream.limit
            &&& batch.len() == 0 <==> (event is Closed || event
                == StreamEventModel::Joined(None))
        },
{
}

/// Law: the end of the walk is waited for once, when the channel is closed. So
/// a walk that died is told from one that ended cleanly, and told once.
pub proof fn law_walk_is_joined_once(stream: StreamModel, event: StreamEventModel)
    ensures
        stream_after(stream, event).0 is Join <==> event is Closed && !stream.joined,
        stream_after(stream, event).1.joined <==> stream.joined || event is Closed,
{
}

} // verus!
