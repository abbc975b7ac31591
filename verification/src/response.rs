//! Writing the response to a request as messages to the frontend.
use std::collections::VecDeque;
use std::sync::Arc;

use vstd::prelude::*;

use crate::message::{
    share_formats, BackendMessage, CommandCompleteTag, Error, MessageList, PsqlSrvRow,
    TransferFormat,
};

verus! {

/// An encapsulation of a complete response produced by a Postgresql backend in response to a
/// request. The response will be sent to the frontend as a sequence of zero or more
/// [`BackendMessage`]s.
#[derive(Debug)]
pub enum Response<S> {
    Empty,
    Message(BackendMessage),
    /// Send multiple messages at once
    Messages(MessageList),
    /// `Select` is the most complex variant, containing data rows to be sent to the frontend in
    /// response to a select query.
    Select {
        header: Option<BackendMessage>,
        resultset: S,
        result_transfer_formats: Option<Arc<Vec<TransferFormat>>>,
        trailer: Option<BackendMessage>,
    },
}

/// What happened to a writer.
pub enum WriteEvent<E> {
    /// The message was fed, or feeding it failed.
    Fed(Result<(), E>),
    /// The resultset yielded a row or an error, or is at its end.
    Row(Option<Result<PsqlSrvRow, Error>>),
}

/// What a writer needs next.
pub enum WriteAction<E> {
    /// Feed a message to the frontend.
    Feed(BackendMessage),
    /// Get the next row of the resultset.
    NextRow,
    /// Return.
    Return(Result<(), E>),
}

/// What a writer waits for.
#[derive(Clone, Copy, Debug, PartialEq, Eq, Structural)]
pub enum WritePhase {
    Feeding,
    FetchingRow,
    Finished,
}

/// What is known of a resultset that rows are still taken from.
struct Rows {
    formats: Option<Arc<Vec<TransferFormat>>>,
    n_rows: u64,
    trailer: Option<BackendMessage>,
}

/// Writes a response.
pub struct ResponseWriter {
    phase: WritePhase,
    queue: VecDeque<BackendMessage>,
    rows: Option<Rows>,
}

/// A resultset that rows are still taken from: how its rows are transferred, how many there were,
/// and what follows them.
pub struct RowsView {
    pub formats: Option<Arc<Vec<TransferFormat>>>,
    pub n_rows: u64,
    pub trailer: Option<BackendMessage>,
}

/// A writer as it is specified: what it waits for, the messages that it can feed next, and the
/// resultset that it takes rows from after them.
pub struct WriterView {
    pub phase: WritePhase,
    pub queue: Seq<BackendMessage>,
    pub rows: Option<RowsView>,
}

impl View for ResponseWriter {
    type V = WriterView;

    closed spec fn view(&self) -> WriterView {
        WriterView {
            phase: self.phase,
            queue: self.queue@,
            rows: match self.rows {
                Some(rows) => Some(
                    RowsView { formats: rows.formats, n_rows: rows.n_rows, trailer: rows.trailer },
                ),
                None => None,
            },
        }
    }
}

/// A message that may be there or not, as a sequence.
pub open spec fn maybe(message: Option<BackendMessage>) -> Seq<BackendMessage> {
    match message {
        Some(message) => seq![message],
        None => Seq::empty(),
    }
}

/// The message that a row, or an error in its place, is sent as.
pub open spec fn row_message(
    row: Result<PsqlSrvRow, Error>,
    formats: Option<Arc<Vec<TransferFormat>>>,
) -> BackendMessage {
    match row {
        Ok(PsqlSrvRow::ValueVec(values)) => BackendMessage::DataRow {
            values,
            explicit_transfer_formats: formats,
        },
        Ok(PsqlSrvRow::RawRow(row)) => BackendMessage::PassThroughDataRow(row),
        Err(error) => BackendMessage::ErrorResponse {
            sqlstate: error.sqlstate,
            message: error.message,
        },
    }
}

/// The message that says that a select returned `n_rows` rows.
pub open spec fn select_complete(n_rows: int) -> BackendMessage {
    BackendMessage::CommandComplete { tag: CommandCompleteTag::Select(n_rows as u64) }
}

/// The messages that `rows` are sent as.
pub open spec fn row_messages(
    rows: Seq<Result<PsqlSrvRow, Error>>,
    formats: Option<Arc<Vec<TransferFormat>>>,
) -> Seq<BackendMessage> {
    rows.map_values(|row: Result<PsqlSrvRow, Error>| row_message(row, formats))
}

/// How many of `rows` are rows, and not errors.
pub open spec fn count_rows(rows: Seq<Result<PsqlSrvRow, Error>>) -> nat
    decreases rows.len(),
{
    if rows.len() == 0 {
        0
    } else {
        count_rows(rows.drop_last()) + if rows.last() is Ok {
            1nat
        } else {
            0nat
        }
    }
}

/// The messages that a response is sent as, if its resultset yields `rows`: those of a select are
/// its header, a message for each row, how many rows there were, and its trailer.
pub open spec fn response_messages<S>(
    response: Response<S>,
    rows: Seq<Result<PsqlSrvRow, Error>>,
) -> Seq<BackendMessage> {
    match response {
        Response::Empty => Seq::empty(),
        Response::Message(message) => seq![message],
        Response::Messages(messages) => messages@,
        Response::Select { header, result_transfer_formats, trailer, .. } => maybe(header)
            + row_messages(rows, result_transfer_formats) + seq![
            select_complete(count_rows(rows) as int),
        ] + maybe(trailer),
    }
}

/// Whether a writer can be told of `event`: it is what its last action asked for. Rows are counted
/// in a `u64`, and there can be no more of them than that holds.
pub open spec fn awaits_event<E>(writer: WriterView, event: WriteEvent<E>) -> bool {
    match writer.phase {
        WritePhase::Feeding => event is Fed,
        WritePhase::FetchingRow => {
            &&& writer.rows is Some
            &&& match event {
                WriteEvent::Row(Some(Ok(_))) => writer.rows->0.n_rows < u64::MAX,
                WriteEvent::Row(_) => true,
                WriteEvent::Fed(_) => false,
            }
        },
        WritePhase::Finished => false,
    }
}

/// Feeds the next message, or fetches the next row if there is none, or returns if there is no
/// resultset to take it from.
pub open spec fn write_next<E>(queue: Seq<BackendMessage>, rows: Option<RowsView>) -> (
    WriterView,
    WriteAction<E>,
) {
    if queue.len() > 0 {
        (
            WriterView { phase: WritePhase::Feeding, queue: queue.drop_first(), rows },
            WriteAction::Feed(queue.first()),
        )
    } else if rows is Some {
        (WriterView { phase: WritePhase::FetchingRow, queue, rows }, WriteAction::NextRow)
    } else {
        (WriterView { phase: WritePhase::Finished, queue, rows }, WriteAction::Return(Ok(())))
    }
}

/// Where the writing of a response starts.
pub open spec fn write_start<S, E>(response: Response<S>) -> (WriterView, WriteAction<E>) {
    match response {
        Response::Empty => write_next(Seq::empty(), None),
        Response::Message(message) => write_next(seq![message], None),
        Response::Messages(messages) => write_next(messages@, None),
        Response::Select { header, result_transfer_formats, trailer, .. } => write_next(
            maybe(header),
            Some(RowsView { formats: result_transfer_formats, n_rows: 0, trailer }),
        ),
    }
}

/// What a writer does on `event`, and where it then is.
pub open spec fn write_step<E>(pre: WriterView, event: WriteEvent<E>) -> (
    WriterView,
    WriteAction<E>,
) {
    match event {
        WriteEvent::Fed(Ok(_)) => write_next(pre.queue, pre.rows),
        WriteEvent::Fed(Err(error)) => (
            WriterView { phase: WritePhase::Finished, queue: Seq::empty(), rows: None },
            WriteAction::Return(Err(error)),
        ),
        WriteEvent::Row(Some(row)) => {
            let rows = pre.rows->0;
            let n_rows = if row is Ok {
                (rows.n_rows + 1) as u64
            } else {
                rows.n_rows
            };
            write_next(
                pre.queue.push(row_message(row, rows.formats)),
                Some(RowsView { n_rows, ..rows }),
            )
        },
        WriteEvent::Row(None) => {
            let rows = pre.rows->0;
            write_next(
                pre.queue + seq![select_complete(rows.n_rows as int)] + maybe(rows.trailer),
                None,
            )
        },
    }
}

/// The resultset of a response, if it has one.
pub open spec fn resultset_of<S>(response: Response<S>) -> Option<S> {
    match response {
        Response::Select { resultset, .. } => Some(resultset),
        _ => None,
    }
}

/// Puts the messages of a list into a queue, in their order.
fn queue_messages(list: MessageList) -> (queue: VecDeque<BackendMessage>)
    ensures
        queue@ == list@,
{
    let ghost all = list@;
    let mut messages = list.into_messages();
    let mut queue: VecDeque<BackendMessage> = VecDeque::new();
    assert(messages@ + queue@ =~= all);
    while messages.len() > 0
        invariant
            messages@ + queue@ == all,
        decreases messages@.len(),
    {
        if let Some(message) = messages.pop() {
            queue.push_front(message);
            assert(messages@ + queue@ =~= all);
        }
    }
    assert(queue@ =~= all);
    queue
}

impl<S> Response<S> {
    /// Starts to write this response: hands back its resultset, from which rows are to be fetched
    /// when they are asked for, and what has to be done first.
    pub fn write<E>(self) -> (started: (ResponseWriter, Option<S>, WriteAction<E>))
        ensures
            (started.0@, started.2) == write_start::<S, E>(self),
            started.1 == resultset_of(self),
    {
        let mut queue: VecDeque<BackendMessage> = VecDeque::new();
        let mut rows: Option<Rows> = None;
        let mut set: Option<S> = None;
        match self {
            Response::Empty => {},
            Response::Message(message) => {
                queue.push_back(message);
                assert(queue@ =~= seq![message]);
            },
            Response::Messages(messages) => {
                queue = queue_messages(messages);
            },
            Response::Select { header, resultset, result_transfer_formats, trailer } => {
                if let Some(header) = header {
                    queue.push_back(header);
                }
                assert(queue@ =~= maybe(header));
                rows = Some(Rows { formats: result_transfer_formats, n_rows: 0, trailer });
                set = Some(resultset);
            },
        }
        let mut writer = ResponseWriter { phase: WritePhase::Finished, queue, rows };
        let action = writer.next();
        (writer, set, action)
    }
}

impl ResponseWriter {
    /// What the writer waits for.
    pub fn phase(&self) -> (phase: WritePhase)
        ensures
            phase == self@.phase,
    {
        self.phase
    }

    /// How many rows were taken from the resultset, if rows are still taken from one: the last of
    /// them may still be being fed.
    pub fn rows_written(&self) -> (n_rows: Option<u64>)
        ensures
            n_rows == match self@.rows {
                Some(rows) => Some(rows.n_rows),
                None => None,
            },
    {
        match &self.rows {
            Some(rows) => Some(rows.n_rows),
            None => None,
        }
    }

    /// Goes on with the next message or row.
    fn next<E>(&mut self) -> (action: WriteAction<E>)
        ensures
            (final(self)@, action) == write_next::<E>(old(self)@.queue, old(self)@.rows),
    {
        match self.queue.pop_front() {
            Some(message) => {
                self.phase = WritePhase::Feeding;
                assert(self@.queue =~= old(self)@.queue.drop_first());
                WriteAction::Feed(message)
            },
            None => {
                if self.rows.is_some() {
                    self.phase = WritePhase::FetchingRow;
                    WriteAction::NextRow
                } else {
                    self.phase = WritePhase::Finished;
                    WriteAction::Return(Ok(()))
                }
            },
        }
    }

    /// Tells the writer what happened, and learns what it needs next.
    ///
    /// A message is fed only after the one before it was; the first that cannot be fed ends the
    /// writing with its error. An error in place of a row is sent to the frontend and not counted,
    /// and the rows after it are sent, too.
    pub fn step<E>(&mut self, event: WriteEvent<E>) -> (action: WriteAction<E>)
        requires
            awaits_event(old(self)@, event),
        ensures
            (final(self)@, action) == write_step(old(self)@, event),
    {
        match event {
            WriteEvent::Fed(Ok(_)) => self.next(),
            WriteEvent::Fed(Err(error)) => {
                self.phase = WritePhase::Finished;
                self.queue.clear();
                self.rows = None;
                WriteAction::Return(Err(error))
            },
            WriteEvent::Row(Some(row)) => {
                let mut taken: Option<Rows> = None;
                std::mem::swap(&mut taken, &mut self.rows);
                if let Some(rows) = taken {
                    let Rows { formats, n_rows, trailer } = rows;
                    let mut n_rows: u64 = n_rows;
                    let message = match row {
                        Ok(PsqlSrvRow::ValueVec(values)) => {
                            n_rows = n_rows + 1;
                            let explicit_transfer_formats = match &formats {
                                Some(formats) => Some(share_formats(formats)),
                                None => None,
                            };
                            BackendMessage::DataRow { values, explicit_transfer_formats }
                        },
                        Ok(PsqlSrvRow::RawRow(row)) => {
                            n_rows = n_rows + 1;
                            BackendMessage::PassThroughDataRow(row)
                        },
                        Err(error) => BackendMessage::from(error),
                    };
                    self.queue.push_back(message);
                    self.rows = Some(Rows { formats, n_rows, trailer });
                }
                self.next()
            },
            WriteEvent::Row(None) => {
                let mut taken: Option<Rows> = None;
                std::mem::swap(&mut taken, &mut self.rows);
                if let Some(rows) = taken {
                    let tag = CommandCompleteTag::Select(rows.n_rows);
                    self.queue.push_back(BackendMessage::CommandComplete { tag });
                    if let Some(trailer) = rows.trailer {
                        self.queue.push_back(trailer);
                    }
                    assert(self.queue@ =~= old(self)@.queue + seq![
                        select_complete(rows.n_rows as int),
                    ] + maybe(rows.trailer));
                }
                self.next()
            },
        }
    }
}

/// The message that an action feeds, if it feeds one.
pub open spec fn fed_by<E>(action: WriteAction<E>) -> Seq<BackendMessage> {
    match action {
        WriteAction::Feed(message) => seq![message],
        _ => Seq::empty(),
    }
}

/// Where the writing of `response` is after `events`, what it then asks for, and the messages that
/// were fed until then, with the one that is being fed.
pub open spec fn write_run<S, E>(response: Response<S>, events: Seq<WriteEvent<E>>) -> (
    WriterView,
    WriteAction<E>,
    Seq<BackendMessage>,
)
    decreases events.len(),
{
    if events.len() == 0 {
        let (writer, action) = write_start::<S, E>(response);
        (writer, action, fed_by(action))
    } else {
        let (pre, _, fed) = write_run(response, events.drop_last());
        let (post, action) = write_step(pre, events.last());
        (post, action, fed + fed_by(action))
    }
}

/// Whether each of `events` is what the writing asked for before it.
pub open spec fn answers_write<S, E>(response: Response<S>, events: Seq<WriteEvent<E>>) -> bool {
    forall|i: int|
        0 <= i < events.len() ==> awaits_event(
            write_run(response, events.take(i)).0,
            #[trigger] events[i],
        )
}

/// The rows, and the errors in place of rows, among `events`.
pub open spec fn rows_of<E>(events: Seq<WriteEvent<E>>) -> Seq<Result<PsqlSrvRow, Error>>
    decreases events.len(),
{
    if events.len() == 0 {
        Seq::empty()
    } else {
        rows_of(events.drop_last()) + row_of(events.last())
    }
}

/// The row, or error in place of a row, that an event tells of.
pub open spec fn row_of<E>(event: WriteEvent<E>) -> Seq<Result<PsqlSrvRow, Error>> {
    match event {
        WriteEvent::Row(Some(row)) => seq![row],
        _ => Seq::empty(),
    }
}

/// Whether every message that `events` tell of could be fed.
pub open spec fn no_feed_fails<E>(events: Seq<WriteEvent<E>>) -> bool {
    forall|i: int|
        0 <= i < events.len() ==> match #[trigger] events[i] {
            WriteEvent::Fed(Err(_)) => false,
            _ => true,
        }
}

/// The messages that are still to be fed if the resultset goes on to yield `future`.
pub open spec fn to_come(
    queue: Seq<BackendMessage>,
    rows: Option<RowsView>,
    future: Seq<Result<PsqlSrvRow, Error>>,
) -> Seq<BackendMessage> {
    match rows {
        Some(rows) => queue + row_messages(future, rows.formats) + seq![
            select_complete(rows.n_rows + count_rows(future)),
        ] + maybe(rows.trailer),
        None => queue,
    }
}

/// The rows are counted from either end.
proof fn lemma_count_rows_add(
    left: Seq<Result<PsqlSrvRow, Error>>,
    right: Seq<Result<PsqlSrvRow, Error>>,
)
    ensures
        count_rows(left + right) == count_rows(left) + count_rows(right),
    decreases right.len(),
{
    if right.len() == 0 {
        assert(left + right =~= left);
    } else {
        lemma_count_rows_add(left, right.drop_last());
        assert((left + right).drop_last() =~= left + right.drop_last());
        assert((left + right).last() == right.last());
    }
}

/// Going on takes the first of the messages that are to come.
proof fn lemma_next_feeds<E>(
    queue: Seq<BackendMessage>,
    rows: Option<RowsView>,
    future: Seq<Result<PsqlSrvRow, Error>>,
)
    ensures
        ({
            let (writer, action) = write_next::<E>(queue, rows);
            fed_by(action) + to_come(writer.queue, writer.rows, future) == to_come(
                queue,
                rows,
                future,
            )
        }),
{
    let (writer, action) = write_next::<E>(queue, rows);
    if queue.len() > 0 {
        assert(seq![queue.first()] + queue.drop_first() =~= queue);
    }
    assert(fed_by(action) + to_come(writer.queue, writer.rows, future) =~= to_come(
        queue,
        rows,
        future,
    ));
}

/// A row adds its message to those that are to come.
proof fn lemma_row_to_come(
    queue: Seq<BackendMessage>,
    rows: RowsView,
    row: Result<PsqlSrvRow, Error>,
    future: Seq<Result<PsqlSrvRow, Error>>,
)
    requires
        row is Ok ==> rows.n_rows < u64::MAX,
    ensures
        ({
            let n_rows = if row is Ok {
                (rows.n_rows + 1) as u64
            } else {
                rows.n_rows
            };
            to_come(
                queue.push(row_message(row, rows.formats)),
                Some(RowsView { n_rows, ..rows }),
                future,
            ) == to_come(queue, Some(rows), seq![row] + future)
        }),
{
    let n_rows = if row is Ok {
        (rows.n_rows + 1) as u64
    } else {
        rows.n_rows
    };
    let one = seq![row];
    lemma_count_rows_add(one, future);
    assert(one.drop_last() =~= Seq::empty());
    assert(count_rows(one.drop_last()) == 0);
    assert(count_rows(one) == if row is Ok {
        1nat
    } else {
        0nat
    });
    assert(rows.n_rows + count_rows(one + future) == n_rows + count_rows(future));
    assert(row_messages(one + future, rows.formats) =~= seq![row_message(row, rows.formats)]
        + row_messages(future, rows.formats));
    assert(to_come(
        queue.push(row_message(row, rows.formats)),
        Some(RowsView { n_rows, ..rows }),
        future,
    ) =~= to_come(queue, Some(rows), one + future));
}

/// At the start, all messages are to come.
proof fn lemma_start_to_come<S, E>(
    response: Response<S>,
    future: Seq<Result<PsqlSrvRow, Error>>,
)
    requires
        !(response is Select) ==> future.len() == 0,
    ensures
        ({
            let (writer, action) = write_start::<S, E>(response);
            fed_by(action) + to_come(writer.queue, writer.rows, future) == response_messages(
                response,
                future,
            )
        }),
        response is Select <==> write_start::<S, E>(response).0.rows is Some,
{
    match response {
        Response::Empty => {
            lemma_next_feeds::<E>(Seq::empty(), None, future);
        },
        Response::Message(message) => {
            lemma_next_feeds::<E>(seq![message], None, future);
        },
        Response::Messages(messages) => {
            lemma_next_feeds::<E>(messages@, None, future);
        },
        Response::Select { header, result_transfer_formats, trailer, .. } => {
            let rows = RowsView { formats: result_transfer_formats, n_rows: 0, trailer };
            lemma_next_feeds::<E>(maybe(header), Some(rows), future);
        },
    }
}

/// A step feeds the first of the messages that are to come.
proof fn lemma_step_feeds<E>(
    pre: WriterView,
    event: WriteEvent<E>,
    future: Seq<Result<PsqlSrvRow, Error>>,
)
    requires
        awaits_event(pre, event),
        !(event matches WriteEvent::Fed(Err(_))),
        write_step(pre, event).0.rows is None ==> future.len() == 0,
    ensures
        ({
            let (post, action) = write_step(pre, event);
            fed_by(action) + to_come(post.queue, post.rows, future) == to_come(
                pre.queue,
                pre.rows,
                row_of(event) + future,
            )
        }),
{
    match event {
        WriteEvent::Fed(Ok(_)) => {
            lemma_next_feeds::<E>(pre.queue, pre.rows, future);
            assert(row_of(event) + future =~= future);
        },
        WriteEvent::Fed(Err(_)) => {},
        WriteEvent::Row(Some(row)) => {
            let rows = pre.rows->0;
            let n_rows = if row is Ok {
                (rows.n_rows + 1) as u64
            } else {
                rows.n_rows
            };
            lemma_row_to_come(pre.queue, rows, row, future);
            lemma_next_feeds::<E>(
                pre.queue.push(row_message(row, rows.formats)),
                Some(RowsView { n_rows, ..rows }),
                future,
            );
        },
        WriteEvent::Row(None) => {
            let rows = pre.rows->0;
            let queue = pre.queue + seq![select_complete(rows.n_rows as int)] + maybe(rows.trailer);
            lemma_next_feeds::<E>(queue, None, future);
            assert(row_of(event) + future =~= Seq::empty());
            assert(row_messages(Seq::empty(), rows.formats) =~= Seq::empty());
            assert(to_come(pre.queue, pre.rows, Seq::empty()) =~= queue);
        },
    }
}

/// All events but the last answer the same writing.
proof fn lemma_shorter_write<S, E>(response: Response<S>, events: Seq<WriteEvent<E>>)
    requires
        answers_write(response, events),
        events.len() > 0,
    ensures
        answers_write(response, events.drop_last()),
        awaits_event(write_run(response, events.drop_last()).0, events.last()),
{
    let before = events.drop_last();
    assert forall|i: int| 0 <= i < before.len() implies awaits_event(
        write_run(response, before.take(i)).0,
        #[trigger] before[i],
    ) by {
        assert(before.take(i) =~= events.take(i));
        assert(before[i] == events[i]);
    }
    assert(events.take(events.len() - 1) =~= before);
    assert(awaits_event(write_run(response, before).0, events[events.len() - 1]));
}

/// What was fed and what is to come make up the response, whatever rows are still to be yielded.
proof fn lemma_fed_so_far<S, E>(
    response: Response<S>,
    events: Seq<WriteEvent<E>>,
    future: Seq<Result<PsqlSrvRow, Error>>,
)
    requires
        answers_write(response, events),
        no_feed_fails(events),
        write_run(response, events).0.rows is None ==> future.len() == 0,
    ensures
        ({
            let (writer, _, fed) = write_run(response, events);
            fed + to_come(writer.queue, writer.rows, future) == response_messages(
                response,
                rows_of(events) + future,
            )
        }),
    decreases events.len(),
{
    let (writer, action, fed) = write_run(response, events);
    if events.len() == 0 {
        lemma_start_to_come::<S, E>(response, future);
        assert(rows_of(events) + future =~= future);
    } else {
        let before = events.drop_last();
        lemma_shorter_write(response, events);
        assert forall|i: int| 0 <= i < before.len() implies match #[trigger] before[i] {
            WriteEvent::Fed(Err(_)) => false,
            _ => true,
        } by {
            assert(before[i] == events[i]);
        }
        assert(events.last() == events[events.len() - 1]);
        let (pre, _, fed_before) = write_run(response, before);
        lemma_step_feeds(pre, events.last(), future);
        lemma_fed_so_far(response, before, row_of(events.last()) + future);
        assert(rows_of(before) + (row_of(events.last()) + future) =~= rows_of(events) + future);
        assert(fed + to_come(writer.queue, writer.rows, future) =~= fed_before + to_come(
            pre.queue,
            pre.rows,
            row_of(events.last()) + future,
        ));
    }
}

/// A response is sent as just the messages that it stands for, in their order. As long as no
/// message could not be fed, what was fed is what comes first of them, whatever rows the resultset
/// goes on to yield; and once the writing has returned, it has succeeded and all were fed.
pub proof fn responses_are_written_in_full<S, E>(
    response: Response<S>,
    events: Seq<WriteEvent<E>>,
    future: Seq<Result<PsqlSrvRow, Error>>,
)
    requires
        answers_write(response, events),
        no_feed_fails(events),
    ensures
        ({
            let (writer, action, fed) = write_run(response, events);
            &&& writer.rows is Some ==> fed.is_prefix_of(
                response_messages(response, rows_of(events) + future),
            )
            &&& writer.rows is None ==> fed.is_prefix_of(
                response_messages(response, rows_of(events)),
            )
            &&& writer.phase == WritePhase::Finished ==> {
                &&& action == WriteAction::<E>::Return(Ok(()))
                &&& fed == response_messages(response, rows_of(events))
            }
        }),
{
    let (writer, action, fed) = write_run(response, events);
    let none = Seq::<Result<PsqlSrvRow, Error>>::empty();
    if writer.rows is Some {
        lemma_fed_so_far(response, events, future);
        let all = response_messages(response, rows_of(events) + future);
        assert(fed =~= all.subrange(0, fed.len() as int));
    } else {
        lemma_fed_so_far(response, events, none);
        assert(rows_of(events) + none =~= rows_of(events));
        let all = response_messages(response, rows_of(events));
        assert(fed =~= all.subrange(0, fed.len() as int));
    }
    lemma_finished_without_failure(response, events);
    if writer.phase == WritePhase::Finished {
        assert(fed + writer.queue =~= fed);
    }
}

/// A writing that has returned without a failure has nothing left.
proof fn lemma_finished_without_failure<S, E>(response: Response<S>, events: Seq<WriteEvent<E>>)
    requires
        answers_write(response, events),
        no_feed_fails(events),
    ensures
        ({
            let (writer, action, _) = write_run(response, events);
            writer.phase == WritePhase::Finished ==> writer.queue.len() == 0 && writer.rows is None
                && action == WriteAction::<E>::Return(Ok(()))
        }),
{
    if events.len() > 0 {
        lemma_shorter_write(response, events);
        assert(events.last() == events[events.len() - 1]);
    }
}

/// The first message that cannot be fed ends the writing with its error, and no message is fed
/// after it.
pub proof fn failures_end_the_writing<E>(pre: WriterView, error: E)
    requires
        pre.phase == WritePhase::Feeding,
    ensures
        awaits_event(pre, WriteEvent::Fed(Err(error))),
        write_step(pre, WriteEvent::Fed(Err(error))).1 == WriteAction::<E>::Return(Err(error)),
        forall|event: WriteEvent<E>| #[trigger]
            awaits_event(write_step(pre, WriteEvent::Fed(Err(error))).0, event) ==> false,
{
}

/// The count that the frontend is told of is the number of rows that it was sent: errors in place
/// of rows are sent, too, and not counted.
pub proof fn select_counts_its_rows(
    rows: Seq<Result<PsqlSrvRow, Error>>,
    formats: Option<Arc<Vec<TransferFormat>>>,
)
    ensures
        row_messages(rows, formats).len() == rows.len(),
        count_rows(rows) == row_messages(rows, formats).filter(
            |m: BackendMessage| m is DataRow || m is PassThroughDataRow,
        ).len(),
    decreases rows.len(),
{
    reveal(Seq::filter);
    if rows.len() > 0 {
        let fewer = rows.drop_last();
        select_counts_its_rows(fewer, formats);
        assert(row_messages(rows, formats).drop_last() =~= row_messages(fewer, formats));
    }
}

/// A response starts with its first message, if it has one, and the others wait in their order. Of
/// a select the header is fed first, if it has one, and else the first row is fetched; the
/// resultset is handed back as it is, and no row of it is counted yet. A response without a message
/// is written at once.
pub proof fn responses_start_with_their_first_message<S, E>(
    response: Response<S>,
    started: (ResponseWriter, Option<S>, WriteAction<E>),
)
    requires
        call_ensures(Response::<S>::write::<E>, (response,), started),
    ensures
        response is Select <==> started.1 is Some,
        response is Select <==> started.0@.rows is Some,
        response is Empty ==> started.2 == WriteAction::<E>::Return(Ok(())),
        response matches Response::Message(message) ==> started.2 == WriteAction::<E>::Feed(message)
            && started.0@.queue.len() == 0,
        response matches Response::Messages(messages) ==> if messages@.len() == 0 {
            started.2 == WriteAction::<E>::Return(Ok(()))
        } else {
            started.2 == WriteAction::<E>::Feed(messages@[0]) && started.0@.queue
                == messages@.skip(1)
        },
        response matches Response::Select {
            header,
            resultset,
            result_transfer_formats,
            trailer,
        } ==> {
            &&& started.1 == Some(resultset)
            &&& started.0@.rows == Some(
                RowsView { formats: result_transfer_formats, n_rows: 0, trailer },
            )
            &&& started.0@.queue.len() == 0
            &&& started.2 == match header {
                Some(message) => WriteAction::<E>::Feed(message),
                None => WriteAction::NextRow,
            }
        },
{
}

/// What one step does. Once a message is fed, the one behind it is fed, or the next row is fetched
/// if there is none and there is a resultset, or else the writing has succeeded. A row is fed as
/// one message, which holds what the row holds, and is counted; an error in place of a row is fed
/// as one message, too, and is not counted. At the end of the rows the frontend is told the count
/// itself, before the trailer. A message that could not be fed ends the writing, and nothing else
/// fails it.
pub proof fn a_step_feeds_one_message<E>(
    writer: &mut ResponseWriter,
    event: WriteEvent<E>,
    action: WriteAction<E>,
)
    requires
        call_ensures(ResponseWriter::step::<E>, (writer, event), action),
        awaits_event(old(writer)@, event),
        old(writer)@.phase is FetchingRow ==> old(writer)@.queue.len() == 0,
    ensures
        event == WriteEvent::<E>::Fed(Ok(())) ==> {
            let (queue, rows) = (old(writer)@.queue, old(writer)@.rows);
            &&& final(writer)@.rows == rows
            &&& queue.len() > 0 ==> action == WriteAction::<E>::Feed(queue[0])
            &&& queue.len() > 0 ==> final(writer)@.queue == queue.skip(1)
            &&& queue.len() == 0 ==> final(writer)@.queue.len() == 0
            &&& queue.len() == 0 && rows is Some ==> action is NextRow
            &&& queue.len() == 0 && rows is None ==> action == WriteAction::<E>::Return(Ok(()))
        },
        event matches WriteEvent::Fed(Err(error)) ==> action == WriteAction::<E>::Return(
            Err(error),
        ),
        action matches WriteAction::Return(Err(error)) ==> event == WriteEvent::<E>::Fed(
            Err(error),
        ),
        event is Row ==> action is Feed,
        event matches WriteEvent::Row(Some(row)) ==> {
            let (before, after) = (old(writer)@.rows->0, final(writer)@.rows->0);
            &&& final(writer)@.rows is Some
            &&& final(writer)@.queue.len() == 0
            &&& after.formats == before.formats
            &&& after.trailer == before.trailer
            &&& after.n_rows - before.n_rows == if row is Ok {
                1int
            } else {
                0
            }
            &&& row matches Ok(PsqlSrvRow::ValueVec(values)) ==> action == WriteAction::<E>::Feed(
                BackendMessage::DataRow { values, explicit_transfer_formats: before.formats },
            )
            &&& row matches Ok(PsqlSrvRow::RawRow(bytes)) ==> action == WriteAction::<E>::Feed(
                BackendMessage::PassThroughDataRow(bytes),
            )
            &&& row matches Err(error) ==> action == WriteAction::<E>::Feed(
                BackendMessage::ErrorResponse { sqlstate: error.sqlstate, message: error.message },
            )
        },
        event == WriteEvent::<E>::Row(None) ==> {
            let rows = old(writer)@.rows->0;
            &&& action == WriteAction::<E>::Feed(
                BackendMessage::CommandComplete { tag: CommandCompleteTag::Select(rows.n_rows) },
            )
            &&& final(writer)@.rows is None
            &&& final(writer)@.queue == match rows.trailer {
                Some(message) => seq![message],
                None => Seq::empty(),
            }
        },
{
}

/// A writer can be told of whatever its action may bring about: how feeding went if it feeds, what
/// the resultset yields if it fetches a row, as long as the row can still be counted, and nothing
/// once it has returned.
pub proof fn what_a_writer_asks_for_it_can_be_told<E>(
    writer: &mut ResponseWriter,
    event: WriteEvent<E>,
    action: WriteAction<E>,
    answer: WriteEvent<E>,
)
    requires
        call_ensures(ResponseWriter::step::<E>, (writer, event), action),
    ensures
        action is Feed ==> (awaits_event(final(writer)@, answer) <==> answer is Fed),
        action is NextRow ==> final(writer)@.rows is Some,
        action is NextRow ==> (awaits_event(final(writer)@, answer) <==> answer is Row && ((
        answer matches WriteEvent::Row(Some(Ok(_)))) ==> final(writer)@.rows->0.n_rows
            < u64::MAX)),
        action is Return ==> !awaits_event(final(writer)@, answer),
        action is Feed <==> final(writer)@.phase is Feeding,
        action is NextRow <==> final(writer)@.phase is FetchingRow,
        action is Return <==> final(writer)@.phase is Finished,
{
}

/// The same holds of a writer that has just started.
pub proof fn what_is_asked_for_first_can_be_told<S, E>(
    response: Response<S>,
    started: (ResponseWriter, Option<S>, WriteAction<E>),
    answer: WriteEvent<E>,
)
    requires
        call_ensures(Response::<S>::write::<E>, (response,), started),
    ensures
        started.2 is Feed ==> (awaits_event(started.0@, answer) <==> answer is Fed),
        started.2 is NextRow ==> (awaits_event(started.0@, answer) <==> answer is Row),
        started.2 is Return ==> !awaits_event(started.0@, answer),
        started.2 is Feed <==> started.0@.phase is Feeding,
        started.2 is NextRow <==> started.0@.phase is FetchingRow,
        started.2 is Return <==> started.0@.phase is Finished,
{
}

/// As long as rows are taken from the resultset, the count is that of the rows that it has yielded,
/// without the errors in place of rows.
pub proof fn rows_are_counted_as_they_come<S, E>(
    response: Response<S>,
    events: Seq<WriteEvent<E>>,
)
    requires
        answers_write(response, events),
    ensures
        write_run(response, events).0.rows matches Some(rows) ==> rows.n_rows == events.filter(
            |event: WriteEvent<E>| event matches WriteEvent::Row(Some(Ok(_))),
        ).len(),
    decreases events.len(),
{
    reveal(Seq::filter);
    if events.len() > 0 {
        lemma_shorter_write(response, events);
        rows_are_counted_as_they_come(response, events.drop_last());
    }
}

/// The rows that were told of are those of the events, in their order.
proof fn lemma_rows_of_events<E>(events: Seq<WriteEvent<E>>)
    ensures
        rows_of(events) == events.filter_map(
            |event: WriteEvent<E>|
                match event {
                    WriteEvent::Row(row) => row,
                    _ => None,
                },
        ),
    decreases events.len(),
{
    if events.len() > 0 {
        lemma_rows_of_events(events.drop_last());
    }
}

/// A count that is told of is one that a `u64` holds.
proof fn lemma_count_fits<S, E>(response: Response<S>, events: Seq<WriteEvent<E>>)
    requires
        answers_write(response, events),
    ensures
        write_run(response, events).0.rows matches Some(rows) ==> rows.n_rows == count_rows(
            rows_of(events),
        ),
        count_rows(rows_of(events)) <= u64::MAX,
    decreases events.len(),
{
    if events.len() > 0 {
        lemma_shorter_write(response, events);
        lemma_count_fits(response, events.drop_last());
        lemma_count_rows_add(rows_of(events.drop_last()), row_of(events.last()));
        if let WriteEvent::Row(Some(row)) = events.last() {
            assert(row_of(events.last()).drop_last() =~= Seq::empty());
            assert(count_rows(row_of(events.last()).drop_last()) == 0);
        }
    }
}

/// A writing that has succeeded could feed all its messages.
proof fn lemma_success_means_no_failure<S, E>(response: Response<S>, events: Seq<WriteEvent<E>>)
    requires
        answers_write(response, events),
        write_run(response, events).1 == WriteAction::<E>::Return(Ok(())),
    ensures
        no_feed_fails(events),
        write_run(response, events).0.phase is Finished,
{
    assert forall|i: int| 0 <= i < events.len() implies match #[trigger] events[i] {
        WriteEvent::Fed(Err(_)) => false,
        _ => true,
    } by {
        if events[i] matches WriteEvent::Fed(Err(_)) {
            let through = events.take(i + 1);
            assert(through.drop_last() =~= events.take(i));
            assert(through.last() == events[i]);
            assert(write_run(response, through).0.phase is Finished);
            if i + 1 < events.len() {
                assert(awaits_event(write_run(response, events.take(i + 1)).0, events[i + 1]));
            } else {
                assert(through =~= events);
            }
        }
    }
}

/// A select whose writing has succeeded was sent as its header, if it has one, one message for each
/// row that its resultset yielded, or error in place of a row, in their order, one message that
/// says that it is complete, and its trailer, if it has one. The number in that message is the
/// number of messages with a row that were fed.
pub proof fn a_select_is_told_how_many_rows_it_was_sent<S, E>(
    header: Option<BackendMessage>,
    resultset: S,
    formats: Option<Arc<Vec<TransferFormat>>>,
    trailer: Option<BackendMessage>,
    events: Seq<WriteEvent<E>>,
)
    requires
        ({
            let select = Response::Select {
                header,
                resultset,
                result_transfer_formats: formats,
                trailer,
            };
            &&& answers_write(select, events)
            &&& write_run(select, events).1 == WriteAction::<E>::Return(Ok(()))
        }),
    ensures
        ({
            let select = Response::Select {
                header,
                resultset,
                result_transfer_formats: formats,
                trailer,
            };
            let fed = write_run(select, events).2;
            let rows = events.filter_map(
                |event: WriteEvent<E>|
                    match event {
                        WriteEvent::Row(row) => row,
                        _ => None,
                    },
            );
            let first: int = if header is Some {
                1
            } else {
                0
            };
            let end = first + rows.len();
            &&& header matches Some(message) ==> fed[0] == message
            &&& forall|i: int|
                0 <= i < rows.len() ==> match #[trigger] rows[i] {
                    Ok(PsqlSrvRow::ValueVec(values)) => fed[first + i] == (
                    BackendMessage::DataRow { values, explicit_transfer_formats: formats }),
                    Ok(PsqlSrvRow::RawRow(bytes)) => fed[first + i]
                        == BackendMessage::PassThroughDataRow(bytes),
                    Err(error) => fed[first + i] == (BackendMessage::ErrorResponse {
                        sqlstate: error.sqlstate,
                        message: error.message,
                    }),
                }
            &&& fed[end] matches BackendMessage::CommandComplete {
                tag: CommandCompleteTag::Select(count),
            } && count == fed.subrange(first, end).filter(
                |m: BackendMessage| m is DataRow || m is PassThroughDataRow,
            ).len()
            &&& trailer matches Some(message) ==> fed[end + 1] == message
            &&& fed.len() == end + 1 + if trailer is Some {
                1int
            } else {
                0
            }
        }),
{
    let select = Response::Select { header, resultset, result_transfer_formats: formats, trailer };
    let fed = write_run(select, events).2;
    let rows = rows_of(events);
    let first: int = if header is Some {
        1
    } else {
        0
    };
    lemma_success_means_no_failure(select, events);
    responses_are_written_in_full(select, events, Seq::empty());
    lemma_rows_of_events(events);
    lemma_count_fits(select, events);
    select_counts_its_rows(rows, formats);
    assert(fed.subrange(first, first + rows.len()) =~= row_messages(rows, formats));
}

/// A response other than a select that was written without a failure was sent as just the messages
/// that it holds, in their order.
pub proof fn plain_responses_are_sent_as_they_are<S, E>(
    response: Response<S>,
    events: Seq<WriteEvent<E>>,
)
    requires
        answers_write(response, events),
        write_run(response, events).1 == WriteAction::<E>::Return(Ok(())),
    ensures
        response is Empty ==> write_run(response, events).2.len() == 0,
        response matches Response::Message(message) ==> write_run(response, events).2 == seq![
            message,
        ],
        response matches Response::Messages(messages) ==> write_run(response, events).2
            == messages@,
{
    lemma_success_means_no_failure(response, events);
    responses_are_written_in_full(response, events, Seq::empty());
}

/// How many rows were taken is told as long as rows are taken.
pub proof fn the_count_is_told_while_rows_are_taken(writer: &ResponseWriter, n_rows: Option<u64>)
    requires
        call_ensures(ResponseWriter::rows_written, (writer,), n_rows),
    ensures
        n_rows is Some <==> writer@.rows is Some,
        n_rows is Some ==> n_rows->0 == writer@.rows->0.n_rows,
{
}

} // verus!
