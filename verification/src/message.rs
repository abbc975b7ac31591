//! The messages that a Postgres backend sends to a frontend.
use std::sync::Arc;

use smallvec::SmallVec;
use vstd::prelude::*;

verus! {

/// The status of a backend that is not in a transaction: the letter `I`.
pub const READY_FOR_QUERY_IDLE: u8 = 73;

/// How the values of a column are transferred.
#[derive(Clone, Copy, Debug, PartialEq, Eq, Structural)]
pub enum TransferFormat {
    Text,
    Binary,
}

/// A value of a row.
#[derive(Debug, PartialEq, Eq)]
pub enum PsqlValue {
    Int(i32),
    /// A double precision number, by its bits.
    Double(u64),
    /// A value of any other type, in its encoded form.
    Encoded(Vec<u8>),
}

/// A row of a resultset.
#[derive(Debug, PartialEq, Eq)]
pub enum PsqlSrvRow {
    /// A row of values that are still to be encoded.
    ValueVec(Vec<PsqlValue>),
    /// A row that was encoded upstream.
    RawRow(Vec<u8>),
}

/// The description of a column.
#[derive(Debug, PartialEq, Eq)]
pub struct FieldDescription {
    pub field_name: String,
    pub data_type: u32,
    pub transfer_format: TransferFormat,
}

/// Says which command was completed.
#[derive(Debug, PartialEq, Eq)]
pub enum CommandCompleteTag {
    /// A select that returned this many rows.
    Select(u64),
    /// Any other command, by the text of its tag.
    Other(String),
}

/// An error, as the frontend is told of it.
#[derive(Debug, PartialEq, Eq)]
pub struct Error {
    pub sqlstate: String,
    pub message: String,
}

/// A message to the frontend.
#[derive(Debug, PartialEq, Eq)]
pub enum BackendMessage {
    BindComplete,
    CloseComplete,
    CommandComplete { tag: CommandCompleteTag },
    DataRow {
        values: Vec<PsqlValue>,
        explicit_transfer_formats: Option<Arc<Vec<TransferFormat>>>,
    },
    PassThroughDataRow(Vec<u8>),
    ErrorResponse { sqlstate: String, message: String },
    ReadyForQuery { status: u8 },
    RowDescription { field_descriptions: Vec<FieldDescription> },
    /// Any other message, in its encoded form.
    Encoded(Vec<u8>),
}

impl BackendMessage {
    /// Tells the frontend that the backend is idle, and ready for the next query.
    pub fn ready_for_query_idle() -> (message: BackendMessage)
        ensures
            message == (BackendMessage::ReadyForQuery { status: READY_FOR_QUERY_IDLE }),
    {
        BackendMessage::ReadyForQuery { status: READY_FOR_QUERY_IDLE }
    }
}

impl From<Error> for BackendMessage {
    fn from(error: Error) -> (message: BackendMessage) {
        BackendMessage::ErrorResponse { sqlstate: error.sqlstate, message: error.message }
    }
}

impl vstd::std_specs::convert::FromSpecImpl<Error> for BackendMessage {
    open spec fn obeys_from_spec() -> bool {
        true
    }

    open spec fn from_spec(error: Error) -> BackendMessage {
        BackendMessage::ErrorResponse { sqlstate: error.sqlstate, message: error.message }
    }
}

impl From<Vec<PsqlValue>> for PsqlSrvRow {
    fn from(values: Vec<PsqlValue>) -> (row: PsqlSrvRow) {
        PsqlSrvRow::ValueVec(values)
    }
}

impl vstd::std_specs::convert::FromSpecImpl<Vec<PsqlValue>> for PsqlSrvRow {
    open spec fn obeys_from_spec() -> bool {
        true
    }

    open spec fn from_spec(values: Vec<PsqlValue>) -> PsqlSrvRow {
        PsqlSrvRow::ValueVec(values)
    }
}

/// A list of messages, of which two fit without an allocation.
#[verifier::external_body]
#[derive(Debug)]
pub struct MessageList {
    list: SmallVec<[BackendMessage; 2]>,
}

/// The messages that a list holds, in their order.
pub uninterp spec fn messages_of(list: MessageList) -> Seq<BackendMessage>;

/// [`SmallVec::from_vec`]: a list of the elements of the vector, in their order.
#[verifier::external_body]
fn list_from_vec(messages: Vec<BackendMessage>) -> (list: MessageList)
    ensures
        messages_of(list) == messages@,
{
    MessageList { list: SmallVec::from_vec(messages) }
}

/// [`SmallVec::into_vec`]: a vector of the elements of the list, in their order.
#[verifier::external_body]
fn list_into_vec(list: MessageList) -> (messages: Vec<BackendMessage>)
    ensures
        messages@ == messages_of(list),
{
    list.list.into_vec()
}

impl View for MessageList {
    type V = Seq<BackendMessage>;

    open spec fn view(&self) -> Seq<BackendMessage> {
        messages_of(*self)
    }
}

impl MessageList {
    /// A list of the given messages.
    pub fn new(messages: Vec<BackendMessage>) -> (list: MessageList)
        ensures
            list@ == messages@,
    {
        list_from_vec(messages)
    }

    /// The messages of the list.
    pub fn into_messages(self) -> (messages: Vec<BackendMessage>)
        ensures
            messages@ == self@,
    {
        list_into_vec(self)
    }
}

/// `Arc::clone`: another pointer to the same formats.
#[verifier::external_body]
pub(crate) fn share_formats(formats: &Arc<Vec<TransferFormat>>) -> (shared: Arc<
    Vec<TransferFormat>,
>)
    ensures
        shared == *formats,
{
    Arc::clone(formats)
}

/// An error is sent with its state and its message, each as it is.
pub proof fn errors_are_sent_as_they_are(error: Error, message: BackendMessage)
    requires
        call_ensures(<BackendMessage as From<Error>>::from, (error,), message),
    ensures
        message matches BackendMessage::ErrorResponse { sqlstate, message: text } && sqlstate
            == error.sqlstate && text == error.message,
{
}

/// Values make up a row of just these values.
pub proof fn rows_hold_their_values(values: Vec<PsqlValue>, row: PsqlSrvRow)
    requires
        call_ensures(<PsqlSrvRow as From<Vec<PsqlValue>>>::from, (values,), row),
    ensures
        row == PsqlSrvRow::ValueVec(values),
{
}

/// A list gives back the messages that it was made of, in their order.
pub proof fn lists_give_back_their_messages(
    messages: Vec<BackendMessage>,
    list: MessageList,
    back: Vec<BackendMessage>,
)
    requires
        call_ensures(MessageList::new, (messages,), list),
        call_ensures(MessageList::into_messages, (list,), back),
    ensures
        back@ == messages@,
{
}

/// The status of an idle backend is the letter `I`.
pub proof fn an_idle_backend_says_so(message: BackendMessage)
    requires
        call_ensures(BackendMessage::ready_for_query_idle, (), message),
    ensures
        message == (BackendMessage::ReadyForQuery { status: 73 }),
{
}

} // verus!
