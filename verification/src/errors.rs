//! The error codes of the broker.
use vstd::prelude::*;

verus! {

/// Error codes returned in Failed responses (status byte = 2).
///
/// Codes are grouped by category:
///   0-99    General / protocol errors
///   100-199 Queue-level errors
///   200-299 Message-level errors
///   300-399 Config / payload parsing errors
#[derive(Debug, Clone, Copy, PartialEq, Eq, Structural)]
pub enum ErrorCode {
    /// Unrecognised command byte in the request header.
    UnknownRequestType,
    /// `RequestMessage::new()` failed to parse the incoming buffer.
    RequestParseError,
    /// The queue name is not registered.
    QueueHashNotFound,
    /// The queue name is registered, but no queue stands behind it.
    QueueNotFound,
    /// Attempted to create a queue that already exists.
    QueueAlreadyExists,
    /// Attempted to delete a queue that does not exist.
    QueueDoesNotExist,
    /// The queue is empty: no messages to operate on.
    QueueIsEmpty,
    /// The payload is too short to contain a 16-byte message ID.
    PayloadMissingMessageId,
    /// The referenced message ID does not exist in the queue.
    NoSuchMessageId,
    /// The next message is already locked by a client.
    MessageAlreadyLocked,
    /// The client holds no locked message to acknowledge.
    NoSuchMessageIdLocked,
    /// The message is not locked by the requesting client.
    MessageNotLockedByClient,
    /// The message is not in the queue (requeue, update).
    MessageNotInQueue,
    /// The payload of a configuration update is shorter than one byte.
    InvalidConfigPayloadSize,
    /// The configuration bytes are empty.
    ConfigBytesEmpty,
    /// The `auto_fail` flag is set but its byte is missing.
    ConfigInvalidAutoFail,
    /// The `fail_timeout` flag is set but there are not enough bytes.
    ConfigInvalidFailTimeout,
}

impl ErrorCode {
    /// The number that stands for this code on the wire.
    pub open spec fn code(self) -> u16 {
        match self {
            ErrorCode::UnknownRequestType => 0,
            ErrorCode::RequestParseError => 1,
            ErrorCode::QueueHashNotFound => 100,
            ErrorCode::QueueNotFound => 101,
            ErrorCode::QueueAlreadyExists => 102,
            ErrorCode::QueueDoesNotExist => 103,
            ErrorCode::QueueIsEmpty => 104,
            ErrorCode::PayloadMissingMessageId => 200,
            ErrorCode::NoSuchMessageId => 201,
            ErrorCode::MessageAlreadyLocked => 202,
            ErrorCode::NoSuchMessageIdLocked => 203,
            ErrorCode::MessageNotLockedByClient => 204,
            ErrorCode::MessageNotInQueue => 205,
            ErrorCode::InvalidConfigPayloadSize => 300,
            ErrorCode::ConfigBytesEmpty => 301,
            ErrorCode::ConfigInvalidAutoFail => 302,
            ErrorCode::ConfigInvalidFailTimeout => 303,
        }
    }

    /// The text that describes this code.
    pub open spec fn text(self) -> Seq<char> {
        match self {
            ErrorCode::UnknownRequestType => "Unknown request type"@,
            ErrorCode::RequestParseError => "Failed to parse request message"@,
            ErrorCode::QueueHashNotFound => "Hash not found"@,
            ErrorCode::QueueNotFound => "Queue not found"@,
            ErrorCode::QueueAlreadyExists => "Queue already created"@,
            ErrorCode::QueueDoesNotExist => "Queue does not exist"@,
            ErrorCode::QueueIsEmpty => "Queue is empty"@,
            ErrorCode::PayloadMissingMessageId => "Payload doesn't contain message_id"@,
            ErrorCode::NoSuchMessageId => "No such message id"@,
            ErrorCode::MessageAlreadyLocked => "Queue message already locked"@,
            ErrorCode::NoSuchMessageIdLocked => "No such message id locked"@,
            ErrorCode::MessageNotLockedByClient => "Queue message is not locked by client"@,
            ErrorCode::MessageNotInQueue => "Message is not in queue"@,
            ErrorCode::InvalidConfigPayloadSize => "Invalid config payload size"@,
            ErrorCode::ConfigBytesEmpty => "Empty bytes"@,
            ErrorCode::ConfigInvalidAutoFail => "Invalid bytes auto_success"@,
            ErrorCode::ConfigInvalidFailTimeout => "Invalid bytes success_timeout"@,
        }
    }

    /// The code as a number.
    pub fn as_u16(self) -> (value: u16)
        ensures
            value == self.code(),
    {
        match self {
            ErrorCode::UnknownRequestType => 0,
            ErrorCode::RequestParseError => 1,
            ErrorCode::QueueHashNotFound => 100,
            ErrorCode::QueueNotFound => 101,
            ErrorCode::QueueAlreadyExists => 102,
            ErrorCode::QueueDoesNotExist => 103,
            ErrorCode::QueueIsEmpty => 104,
            ErrorCode::PayloadMissingMessageId => 200,
            ErrorCode::NoSuchMessageId => 201,
            ErrorCode::MessageAlreadyLocked => 202,
            ErrorCode::NoSuchMessageIdLocked => 203,
            ErrorCode::MessageNotLockedByClient => 204,
            ErrorCode::MessageNotInQueue => 205,
            ErrorCode::InvalidConfigPayloadSize => 300,
            ErrorCode::ConfigBytesEmpty => 301,
            ErrorCode::ConfigInvalidAutoFail => 302,
            ErrorCode::ConfigInvalidFailTimeout => 303,
        }
    }

    /// The code that a number stands for, if any.
    pub fn from_u16(value: u16) -> (code: Option<Self>)
        ensures
            code matches Some(c) ==> c.code() == value,
            code is None ==> forall|c: ErrorCode| #[trigger] c.code() != value,
    {
        match value {
            0 => Some(ErrorCode::UnknownRequestType),
            1 => Some(ErrorCode::RequestParseError),
            100 => Some(ErrorCode::QueueHashNotFound),
            101 => Some(ErrorCode::QueueNotFound),
            102 => Some(ErrorCode::QueueAlreadyExists),
            103 => Some(ErrorCode::QueueDoesNotExist),
            104 => Some(ErrorCode::QueueIsEmpty),
            200 => Some(ErrorCode::PayloadMissingMessageId),
            201 => Some(ErrorCode::NoSuchMessageId),
            202 => Some(ErrorCode::MessageAlreadyLocked),
            203 => Some(ErrorCode::NoSuchMessageIdLocked),
            204 => Some(ErrorCode::MessageNotLockedByClient),
            205 => Some(ErrorCode::MessageNotInQueue),
            300 => Some(ErrorCode::InvalidConfigPayloadSize),
            301 => Some(ErrorCode::ConfigBytesEmpty),
            302 => Some(ErrorCode::ConfigInvalidAutoFail),
            303 => Some(ErrorCode::ConfigInvalidFailTimeout),
            _ => None,
        }
    }

    /// The text that describes this code.
    pub fn message(&self) -> (text: &'static str)
        ensures
            text@ == self.text(),
    {
        match self {
            ErrorCode::UnknownRequestType => "Unknown request type",
            ErrorCode::RequestParseError => "Failed to parse request message",
            ErrorCode::QueueHashNotFound => "Hash not found",
            ErrorCode::QueueNotFound => "Queue not found",
            ErrorCode::QueueAlreadyExists => "Queue already created",
            ErrorCode::QueueDoesNotExist => "Queue does not exist",
            ErrorCode::QueueIsEmpty => "Queue is empty",
            ErrorCode::PayloadMissingMessageId => "Payload doesn't contain message_id",
            ErrorCode::NoSuchMessageId => "No such message id",
            ErrorCode::MessageAlreadyLocked => "Queue message already locked",
            ErrorCode::NoSuchMessageIdLocked => "No such message id locked",
            ErrorCode::MessageNotLockedByClient => "Queue message is not locked by client",
            ErrorCode::MessageNotInQueue => "Message is not in queue",
            ErrorCode::InvalidConfigPayloadSize => "Invalid config payload size",
            ErrorCode::ConfigBytesEmpty => "Empty bytes",
            ErrorCode::ConfigInvalidAutoFail => "Invalid bytes auto_success",
            ErrorCode::ConfigInvalidFailTimeout => "Invalid bytes success_timeout",
        }
    }
}

/// Different codes have different numbers.
pub proof fn codes_are_distinct(a: ErrorCode, b: ErrorCode)
    requires
        a.code() == b.code(),
    ensures
        a == b,
{
}

/// Each category counts up from a hundred, in the order in which its errors are listed.
pub proof fn codes_count_up()
    ensures
        ErrorCode::UnknownRequestType.code() == 0,
        ErrorCode::RequestParseError.code() == ErrorCode::UnknownRequestType.code() + 1,
        ErrorCode::QueueHashNotFound.code() == 100,
        ErrorCode::QueueNotFound.code() == ErrorCode::QueueHashNotFound.code() + 1,
        ErrorCode::QueueAlreadyExists.code() == ErrorCode::QueueNotFound.code() + 1,
        ErrorCode::QueueDoesNotExist.code() == ErrorCode::QueueAlreadyExists.code() + 1,
        ErrorCode::QueueIsEmpty.code() == ErrorCode::QueueDoesNotExist.code() + 1,
        ErrorCode::PayloadMissingMessageId.code() == 200,
        ErrorCode::NoSuchMessageId.code() == ErrorCode::PayloadMissingMessageId.code() + 1,
        ErrorCode::MessageAlreadyLocked.code() == ErrorCode::NoSuchMessageId.code() + 1,
        ErrorCode::NoSuchMessageIdLocked.code() == ErrorCode::MessageAlreadyLocked.code() + 1,
        ErrorCode::MessageNotLockedByClient.code() == ErrorCode::NoSuchMessageIdLocked.code() + 1,
        ErrorCode::MessageNotInQueue.code() == ErrorCode::MessageNotLockedByClient.code() + 1,
        ErrorCode::InvalidConfigPayloadSize.code() == 300,
        ErrorCode::ConfigBytesEmpty.code() == ErrorCode::InvalidConfigPayloadSize.code() + 1,
        ErrorCode::ConfigInvalidAutoFail.code() == ErrorCode::ConfigBytesEmpty.code() + 1,
        ErrorCode::ConfigInvalidFailTimeout.code() == ErrorCode::ConfigInvalidAutoFail.code() + 1,
{
}

/// Each number has its text.
pub proof fn numbers_have_their_texts(c: ErrorCode)
    ensures
        c.code() == 0 ==> c.text() == "Unknown request type"@,
        c.code() == 1 ==> c.text() == "Failed to parse request message"@,
        c.code() == 100 ==> c.text() == "Hash not found"@,
        c.code() == 101 ==> c.text() == "Queue not found"@,
        c.code() == 102 ==> c.text() == "Queue already created"@,
        c.code() == 103 ==> c.text() == "Queue does not exist"@,
        c.code() == 104 ==> c.text() == "Queue is empty"@,
        c.code() == 200 ==> c.text() == "Payload doesn't contain message_id"@,
        c.code() == 201 ==> c.text() == "No such message id"@,
        c.code() == 202 ==> c.text() == "Queue message already locked"@,
        c.code() == 203 ==> c.text() == "No such message id locked"@,
        c.code() == 204 ==> c.text() == "Queue message is not locked by client"@,
        c.code() == 205 ==> c.text() == "Message is not in queue"@,
        c.code() == 300 ==> c.text() == "Invalid config payload size"@,
        c.code() == 301 ==> c.text() == "Empty bytes"@,
        c.code() == 302 ==> c.text() == "Invalid bytes auto_success"@,
        c.code() == 303 ==> c.text() == "Invalid bytes success_timeout"@,
{
}

/// Codes keep to the range of their category.
pub proof fn codes_are_grouped(c: ErrorCode)
    ensures
        c.code() < 100 <==> (c is UnknownRequestType || c is RequestParseError),
        100 <= c.code() < 200 <==> (c is QueueHashNotFound || c is QueueNotFound
            || c is QueueAlreadyExists || c is QueueDoesNotExist || c is QueueIsEmpty),
        200 <= c.code() < 300 <==> (c is PayloadMissingMessageId || c is NoSuchMessageId
            || c is MessageAlreadyLocked || c is NoSuchMessageIdLocked
            || c is MessageNotLockedByClient || c is MessageNotInQueue),
        300 <= c.code() < 400 <==> (c is InvalidConfigPayloadSize || c is ConfigBytesEmpty
            || c is ConfigInvalidAutoFail || c is ConfigInvalidFailTimeout),
{
}

} // verus!
