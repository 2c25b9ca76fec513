//! The frames of the request protocol.
//!
//! A request is `[1 command][16 client id][8 payload size][64 queue name][payload]`,
//! a response `[1 status][8 payload size][payload]`, all numbers big-endian. A queue
//! name shorter than its field is padded with zeroes.
use vstd::prelude::*;

use bytes::BytesMut;

use crate::errors::ErrorCode;
use crate::outside;
use crate::outside::{buffer_slice, trim_end};
use crate::wire;
use crate::wire::{push_all, push_be, read_be};

verus! {

/// The width of the command.
pub const COMMAND_SIZE: usize = 1;

/// The width of the client id.
pub const CLIENT_ID_SIZE: usize = 16;

/// The width of the payload size.
pub const PAYLOAD_SIZE: usize = 8;

/// The width of the queue name.
pub const QUEUE_NAME_SIZE: usize = 64;

/// The bytes that tell how long a request is.
pub const PREFIX_SIZE: usize = COMMAND_SIZE + CLIENT_ID_SIZE + PAYLOAD_SIZE;

/// All that comes before the payload of a request.
pub const HEADER_SIZE: usize = PREFIX_SIZE + QUEUE_NAME_SIZE;

/// What a client can ask for.
#[derive(Debug, Clone, Copy, PartialEq, Eq, Structural)]
pub enum Request {
    Enqueue,
    Dequeue,
    CreateQ,
    DeleteQ,
    ListM,
    DeleteM,
    Succeeded,
    Failed,
    Requeue,
    UpdateM,
    UpdateQ,
}

impl Request {
    /// The byte that stands for this request.
    pub open spec fn code(self) -> u8 {
        match self {
            Request::Enqueue => 1,
            Request::Dequeue => 2,
            Request::CreateQ => 3,
            Request::DeleteQ => 4,
            Request::ListM => 5,
            Request::DeleteM => 6,
            Request::Succeeded => 7,
            Request::Failed => 8,
            Request::Requeue => 9,
            Request::UpdateM => 10,
            Request::UpdateQ => 11,
        }
    }

    /// The request that a byte stands for, if any.
    pub open spec fn decoded(value: u8) -> Option<Self> {
        match value {
            1 => Some(Request::Enqueue),
            2 => Some(Request::Dequeue),
            3 => Some(Request::CreateQ),
            4 => Some(Request::DeleteQ),
            5 => Some(Request::ListM),
            6 => Some(Request::DeleteM),
            7 => Some(Request::Succeeded),
            8 => Some(Request::Failed),
            9 => Some(Request::Requeue),
            10 => Some(Request::UpdateM),
            11 => Some(Request::UpdateQ),
            _ => None,
        }
    }

    /// The request that a byte stands for.
    pub fn from_u8(value: u8) -> (result: Result<Self, ErrorCode>)
        ensures
            match Self::decoded(value) {
                Some(request) => result == Ok::<Self, ErrorCode>(request),
                None => result == Err::<Self, ErrorCode>(ErrorCode::UnknownRequestType),
            },
    {
        match value {
            1 => Ok(Request::Enqueue),
            2 => Ok(Request::Dequeue),
            3 => Ok(Request::CreateQ),
            4 => Ok(Request::DeleteQ),
            5 => Ok(Request::ListM),
            6 => Ok(Request::DeleteM),
            7 => Ok(Request::Succeeded),
            8 => Ok(Request::Failed),
            9 => Ok(Request::Requeue),
            10 => Ok(Request::UpdateM),
            11 => Ok(Request::UpdateQ),
            _ => Err(ErrorCode::UnknownRequestType),
        }
    }
}

/// Reading the byte of a request gives the request, and no other byte does.
pub proof fn request_codes_are_read_back(request: Request, value: u8)
    ensures
        Request::decoded(request.code()) == Some(request),
        Request::decoded(value) == Some(request) ==> value == request.code(),
{
}

/// How a request ended.
#[derive(Debug, Clone, Copy, PartialEq, Eq, Structural)]
pub enum Response {
    Succeeded,
    Failed,
}

impl Response {
    /// The byte that stands for this status.
    pub open spec fn code(self) -> u8 {
        match self {
            Response::Succeeded => 1,
            Response::Failed => 2,
        }
    }

    /// The status that a byte stands for.
    pub fn from_u8(value: u8) -> (result: Result<Self, ErrorCode>)
        ensures
            1 <= value <= 2 ==> (result matches Ok(response) && response.code() == value),
            !(1 <= value <= 2) ==> result == Err::<Self, ErrorCode>(ErrorCode::UnknownRequestType),
    {
        match value {
            1 => Ok(Response::Succeeded),
            2 => Ok(Response::Failed),
            _ => Err(ErrorCode::UnknownRequestType),
        }
    }

    /// The byte that stands for this status.
    pub fn as_u8(&self) -> (value: u8)
        ensures
            value == self.code(),
    {
        match self {
            Response::Succeeded => 1,
            Response::Failed => 2,
        }
    }
}

/// The bytes of a request.
pub open spec fn request_bytes(
    command: u8,
    client_id: u128,
    name_field: Seq<u8>,
    payload: Seq<u8>,
) -> Seq<u8> {
    seq![command] + wire::be_bytes(client_id as nat, 16) + wire::be_bytes(payload.len(), 8)
        + name_field + payload
}

/// The bytes of a response.
pub open spec fn response_bytes(status: Response, payload: Seq<u8>) -> Seq<u8> {
    seq![status.code()] + wire::be_bytes(payload.len(), 8) + payload
}

/// The queue name in its field: the text without the padding, or nothing where
/// the field is no text.
pub open spec fn queue_name(field: Seq<u8>) -> Seq<char> {
    if vstd::utf8::valid_utf8(field) {
        outside::without_trailing(vstd::utf8::decode_utf8(field), '\0')
    } else {
        Seq::empty()
    }
}

/// The payload size that a request announces.
pub open spec fn announced_size(bytes: Seq<u8>) -> nat {
    wire::be_value(bytes.subrange(17, 25))
}

/// The contents of a request.
pub struct FrameState {
    pub command: Request,
    pub client_id: u128,
    pub queue_name: Seq<char>,
    pub payload_size: nat,
    pub payload: Seq<u8>,
}

/// What the bytes that have arrived so far amount to.
pub enum Arrival {
    /// The next request is not there yet.
    Incomplete,
    /// The next request has a command that does not exist.
    Unknown,
    /// The next request is there, `length` bytes long.
    Complete { frame: FrameState, length: nat },
}

/// What `bytes` amount to.
pub open spec fn arrival(bytes: Seq<u8>) -> Arrival {
    if bytes.len() < PREFIX_SIZE {
        Arrival::Incomplete
    } else if Request::decoded(bytes[0]) is None {
        Arrival::Unknown
    } else if bytes.len() < HEADER_SIZE + announced_size(bytes) {
        Arrival::Incomplete
    } else {
        let length = HEADER_SIZE as nat + announced_size(bytes);
        Arrival::Complete {
            frame: FrameState {
                command: Request::decoded(bytes[0])->0,
                client_id: wire::be_value(bytes.subrange(1, 17)) as u128,
                queue_name: queue_name(bytes.subrange(25, 89)),
                payload_size: announced_size(bytes),
                payload: bytes.subrange(89, length as int),
            },
            length,
        }
    }
}

/// A request's own part: its command and payload.
#[derive(Debug, Clone)]
pub struct RequestMessage {
    command: Request,
    payload_size: u64,
    payload: Vec<u8>,
}

impl RequestMessage {
    /// The command.
    pub closed spec fn spec_command(self) -> Request {
        self.command
    }

    /// The size that the header announced.
    pub closed spec fn spec_payload_size(self) -> u64 {
        self.payload_size
    }

    /// The payload.
    pub closed spec fn spec_payload(self) -> Seq<u8> {
        self.payload@
    }

    /// Reads a whole request; it fails where the header is not complete.
    pub fn new(command: &Request, bytes: BytesMut) -> (result: Result<Self, ErrorCode>)
        ensures
            outside::buffer_bytes(bytes).len() < HEADER_SIZE ==> result == Err::<Self, ErrorCode>(
                ErrorCode::RequestParseError,
            ),
            outside::buffer_bytes(bytes).len() >= HEADER_SIZE ==> {
                &&& result matches Ok(message)
                &&& message.spec_command() == *command
                &&& message.spec_payload_size() == announced_size(outside::buffer_bytes(bytes))
                &&& message.spec_payload() == outside::buffer_bytes(bytes).skip(
                    HEADER_SIZE as int,
                )
            },
    {
        if bytes.len() < HEADER_SIZE {
            return Err(ErrorCode::RequestParseError);
        }
        let slice = buffer_slice(&bytes);
        let size: u64 = read_size(slice);
        let mut payload: Vec<u8> = Vec::with_capacity(slice.len() - HEADER_SIZE);
        push_all(&mut payload, vstd::slice::slice_subrange(slice, HEADER_SIZE, slice.len()));
        assert(payload@ =~= slice@.skip(HEADER_SIZE as int));
        Ok(RequestMessage { command: *command, payload_size: size, payload })
    }

    /// The command.
    pub fn command(&self) -> (command: Request)
        ensures
            command == self.spec_command(),
    {
        self.command
    }

    /// The size that the header announced.
    pub fn payload_size(&self) -> (size: u64)
        ensures
            size == self.spec_payload_size(),
    {
        self.payload_size
    }

    /// The payload.
    pub fn payload(&self) -> (payload: &Vec<u8>)
        ensures
            payload@ == self.spec_payload(),
    {
        &self.payload
    }
}

/// The payload size that a request announces.
fn read_size(bytes: &[u8]) -> (size: u64)
    requires
        bytes@.len() >= PREFIX_SIZE,
    ensures
        size == announced_size(bytes@),
{
    let field = vstd::slice::slice_subrange(bytes, 17, 25);
    proof {
        wire::be_value_bound(field@);
        wire::be_limit_values();
    }
    read_be(field) as u64
}

/// A request.
#[derive(Debug, Clone)]
pub struct Frame {
    pub client_id: u128,
    pub queue_name: String,
    pub message: RequestMessage,
}

impl View for Frame {
    type V = FrameState;

    open spec fn view(&self) -> FrameState {
        FrameState {
            command: self.message.spec_command(),
            client_id: self.client_id,
            queue_name: self.queue_name@,
            payload_size: self.message.spec_payload_size() as nat,
            payload: self.message.spec_payload(),
        }
    }
}

impl Frame {
    /// Whether the payload is as long as the header announced.
    pub open spec fn wf(self) -> bool {
        self@.payload_size == self@.payload.len()
    }
}

/// What the bytes that have arrived so far amount to.
#[derive(Debug, Clone)]
pub enum FrameStep {
    /// More bytes have to arrive.
    Incomplete,
    /// The command does not exist.
    Unknown,
    /// The next request, which was taken out of the buffer.
    Complete(Frame),
}

/// The queue name in its field.
fn read_queue_name(field: &[u8]) -> (name: String)
    ensures
        name@ == queue_name(field@),
{
    let mut bytes: Vec<u8> = Vec::with_capacity(field.len());
    push_all(&mut bytes, field);
    assert(bytes@ =~= field@);
    match String::from_utf8(bytes) {
        Ok(text) => trim_end(text.as_str(), '\0').to_owned(),
        Err(_) => String::new(),
    }
}

/// Takes the next request out of `buffer`, if all of it has arrived.
pub fn next_frame(buffer: &mut BytesMut) -> (step: FrameStep)
    ensures
        match arrival(outside::buffer_bytes(*old(buffer))) {
            Arrival::Incomplete => step is Incomplete && outside::buffer_bytes(*final(buffer))
                == outside::buffer_bytes(*old(buffer)),
            Arrival::Unknown => step is Unknown && outside::buffer_bytes(*final(buffer))
                == outside::buffer_bytes(*old(buffer)),
            Arrival::Complete { frame, length } => {
                &&& step matches FrameStep::Complete(read)
                &&& read.wf()
                &&& read@ == frame
                &&& outside::buffer_bytes(*final(buffer)) == outside::buffer_bytes(
                    *old(buffer),
                ).skip(length as int)
            },
        },
{
    if buffer.len() < PREFIX_SIZE {
        return FrameStep::Incomplete;
    }
    let ghost bytes = outside::buffer_bytes(*buffer);
    let slice = buffer_slice(buffer);
    let command = match Request::from_u8(slice[0]) {
        Ok(command) => command,
        Err(_) => {
            return FrameStep::Unknown;
        },
    };
    let id_field = vstd::slice::slice_subrange(slice, 1, 17);
    let client_id: u128 = read_be(id_field);
    let size: u64 = read_size(slice);
    if buffer.len() < HEADER_SIZE || size > (buffer.len() - HEADER_SIZE) as u64 {
        return FrameStep::Incomplete;
    }
    let queue_name: String = read_queue_name(vstd::slice::slice_subrange(slice, 25, 89));
    let front = buffer.split_to(HEADER_SIZE + size as usize);
    proof {
        let taken = outside::buffer_bytes(front);
        assert(taken.subrange(17, 25) =~= bytes.subrange(17, 25));
        assert(taken.skip(HEADER_SIZE as int) =~= bytes.subrange(89, HEADER_SIZE + size));
    }
    match RequestMessage::new(&command, front) {
        Ok(message) => FrameStep::Complete(Frame { client_id, queue_name, message }),
        Err(_) => FrameStep::Incomplete,
    }
}

/// All requests that have arrived in full.
pub open spec fn frames(bytes: Seq<u8>) -> Seq<FrameState>
    decreases bytes.len(),
{
    match arrival(bytes) {
        Arrival::Complete { frame, length } => seq![frame] + frames(bytes.skip(length as int)),
        _ => Seq::empty(),
    }
}

/// What follows the requests that have arrived in full.
pub open spec fn leftover(bytes: Seq<u8>) -> Seq<u8>
    decreases bytes.len(),
{
    match arrival(bytes) {
        Arrival::Complete { frame, length } => leftover(bytes.skip(length as int)),
        _ => bytes,
    }
}

/// It makes no difference how the bytes of requests are split over reads: what is read
/// of the first part and then of what is left of it and the second is what is read of
/// both together.
pub proof fn split_reads_make_no_difference(a: Seq<u8>, b: Seq<u8>)
    ensures
        frames(a + b) == frames(a) + frames(leftover(a) + b),
        leftover(a + b) == leftover(leftover(a) + b),
    decreases a.len(),
{
    let both = a + b;
    if let Arrival::Complete { frame, length } = arrival(a) {
        let rest = a.skip(length as int);
        assert(both.subrange(1, 17) =~= a.subrange(1, 17));
        assert(both.subrange(17, 25) =~= a.subrange(17, 25));
        assert(both.subrange(25, 89) =~= a.subrange(25, 89));
        assert(both.subrange(89, length as int) =~= a.subrange(89, length as int));
        assert(arrival(both) == arrival(a));
        assert(both.skip(length as int) =~= rest + b);
        split_reads_make_no_difference(rest, b);
        assert(frames(both) =~= frames(a) + frames(leftover(a) + b));
    } else {
        assert(frames(both) =~= frames(a) + frames(leftover(a) + b));
    }
}

/// The contents of requests.
pub open spec fn contents(read: Seq<Frame>) -> Seq<FrameState> {
    read.map_values(|frame: Frame| frame@)
}

/// Takes all requests out of `buffer` that have arrived in full; gives them in
/// order, and whether a command that does not exist follows them.
pub fn next_frames(buffer: &mut BytesMut) -> (result: (Vec<Frame>, bool))
    ensures
        contents(result.0@) == frames(outside::buffer_bytes(*old(buffer))),
        forall|i: int| 0 <= i < result.0@.len() ==> (#[trigger] result.0@[i]).wf(),
        outside::buffer_bytes(*final(buffer)) == leftover(outside::buffer_bytes(*old(buffer))),
        result.1 == (arrival(outside::buffer_bytes(*final(buffer))) is Unknown),
{
    let ghost bytes = outside::buffer_bytes(*buffer);
    let mut read: Vec<Frame> = Vec::new();
    assert(contents(read@) + frames(bytes) =~= frames(bytes));
    loop
        invariant
            bytes == outside::buffer_bytes(*old(buffer)),
            contents(read@) + frames(outside::buffer_bytes(*buffer)) == frames(bytes),
            leftover(outside::buffer_bytes(*buffer)) == leftover(bytes),
            forall|i: int| 0 <= i < read@.len() ==> (#[trigger] read@[i]).wf(),
        decreases outside::buffer_bytes(*buffer).len(),
    {
        let ghost before = outside::buffer_bytes(*buffer);
        let ghost done = read@;
        match next_frame(buffer) {
            FrameStep::Incomplete => {
                assert(contents(done) + frames(before) =~= contents(done));
                return (read, false);
            },
            FrameStep::Unknown => {
                assert(contents(done) + frames(before) =~= contents(done));
                return (read, true);
            },
            FrameStep::Complete(frame) => {
                read.push(frame);
                assert(contents(read@) =~= contents(done).push(frame@));
                assert(contents(read@) + frames(outside::buffer_bytes(*buffer))
                    =~= contents(done) + frames(before));
            },
        }
    }
}

/// The answer to a request.
#[derive(Debug, Clone)]
pub struct ResponseMessage {
    status: Response,
    payload_size: u64,
    payload: Vec<u8>,
}

impl ResponseMessage {
    /// The status.
    pub closed spec fn spec_status(self) -> Response {
        self.status
    }

    /// The payload.
    pub closed spec fn spec_payload(self) -> Seq<u8> {
        self.payload@
    }

    /// Whether the size given is that of the payload.
    pub closed spec fn wf(self) -> bool {
        self.payload_size == self.payload@.len()
    }

    /// An answer made of its status and payload.
    pub fn new(status: Response, payload: Vec<u8>) -> (message: Self)
        ensures
            message.wf(),
            message.spec_status() == status,
            message.spec_payload() == payload@,
    {
        let size: u64 = payload.len() as u64;
        ResponseMessage { status, payload_size: size, payload }
    }

    /// The answer to a request that failed: its payload is the error code.
    pub fn failure(error: ErrorCode) -> (message: Self)
        ensures
            message.wf(),
            message.spec_status() == Response::Failed,
            message.spec_payload() == wire::be_bytes(error.code() as nat, 2),
    {
        let mut payload: Vec<u8> = Vec::new();
        push_be(&mut payload, error.as_u16() as u128, 2);
        assert(payload@ =~= wire::be_bytes(error.code() as nat, 2));
        ResponseMessage::new(Response::Failed, payload)
    }

    /// The bytes of this answer.
    pub fn to_u8(&self) -> (bytes: Vec<u8>)
        requires
            self.wf(),
        ensures
            bytes@ == response_bytes(self.spec_status(), self.spec_payload()),
    {
        let mut bytes: Vec<u8> = Vec::new();
        bytes.push(self.status.as_u8());
        push_be(&mut bytes, self.payload_size as u128, 8);
        push_all(&mut bytes, self.payload.as_slice());
        assert(bytes@ =~= response_bytes(self.spec_status(), self.spec_payload()));
        bytes
    }
}

/// A request is read back from its bytes, whatever follows them: command, client,
/// queue name and payload, and exactly its own bytes.
pub proof fn request_is_read_back(
    command: Request,
    client_id: u128,
    name_field: Seq<u8>,
    payload: Seq<u8>,
    rest: Seq<u8>,
)
    requires
        name_field.len() == QUEUE_NAME_SIZE,
        payload.len() <= u64::MAX,
    ensures
        arrival(request_bytes(command.code(), client_id, name_field, payload) + rest) == (
        Arrival::Complete {
            frame: FrameState {
                command,
                client_id,
                queue_name: queue_name(name_field),
                payload_size: payload.len(),
                payload,
            },
            length: request_bytes(command.code(), client_id, name_field, payload).len(),
        }),
{
    broadcast use wire::be_bytes_len;

    let frame = request_bytes(command.code(), client_id, name_field, payload);
    let bytes = frame + rest;
    wire::be_limit_values();
    wire::be_value_of_be_bytes(client_id as nat, 16);
    wire::be_value_of_be_bytes(payload.len(), 8);
    assert(bytes[0] == command.code());
    assert(bytes.subrange(1, 17) =~= wire::be_bytes(client_id as nat, 16));
    assert(bytes.subrange(17, 25) =~= wire::be_bytes(payload.len(), 8));
    assert(bytes.subrange(25, 89) =~= name_field);
    assert(bytes.subrange(89, 89 + payload.len() as int) =~= payload);
}

/// What any bytes amount to: fewer than 25 tell nothing yet; a first byte that is not one
/// of 1 to 11 is no request; else the request is there once 89 bytes and the payload are
/// that the header announces, and each of its parts is what stands in its field.
pub proof fn request_is_made_of_its_fields(bytes: Seq<u8>)
    ensures
        PREFIX_SIZE == 25,
        HEADER_SIZE == 89,
        arrival(bytes) is Unknown <==> bytes.len() >= 25 && !(1 <= bytes[0] <= 11),
        arrival(bytes) is Complete <==> {
            &&& bytes.len() >= 25
            &&& 1 <= bytes[0] <= 11
            &&& bytes.len() >= 89 + wire::be_value(bytes.subrange(17, 25))
        },
        arrival(bytes) matches Arrival::Complete { frame, length } ==> {
            &&& frame.command.code() == bytes[0]
            &&& wire::be_bytes(frame.client_id as nat, 16) == bytes.subrange(1, 17)
            &&& wire::be_bytes(frame.payload.len(), 8) == bytes.subrange(17, 25)
            &&& frame.queue_name == queue_name(bytes.subrange(25, 89))
            &&& frame.payload_size == frame.payload.len()
            &&& length == 89 + frame.payload.len()
            &&& frame.payload == bytes.subrange(89, length as int)
        },
{
    if let Arrival::Complete { frame, length } = arrival(bytes) {
        let id_field = bytes.subrange(1, 17);
        let size_field = bytes.subrange(17, 25);
        wire::be_limit_values();
        wire::be_value_bound(id_field);
        wire::be_bytes_of_be_value(id_field);
        wire::be_bytes_of_be_value(size_field);
    }
}

/// The commands are numbered from 1 on, and the two ways in which a request can end too.
pub proof fn commands_are_numbered()
    ensures
        Request::Enqueue.code() == 1,
        Request::Dequeue.code() == Request::Enqueue.code() + 1,
        Request::CreateQ.code() == Request::Dequeue.code() + 1,
        Request::DeleteQ.code() == Request::CreateQ.code() + 1,
        Request::ListM.code() == Request::DeleteQ.code() + 1,
        Request::DeleteM.code() == Request::ListM.code() + 1,
        Request::Succeeded.code() == Request::DeleteM.code() + 1,
        Request::Failed.code() == Request::Succeeded.code() + 1,
        Request::Requeue.code() == Request::Failed.code() + 1,
        Request::UpdateM.code() == Request::Requeue.code() + 1,
        Request::UpdateQ.code() == Request::UpdateM.code() + 1,
        Response::Succeeded.code() == 1,
        Response::Failed.code() == Response::Succeeded.code() + 1,
{
}

/// A field that is text holds the queue name and then nothing but zeroes, and the name
/// does not end in one; a field that is no text gives no name.
pub proof fn queue_name_is_what_precedes_the_padding(field: Seq<u8>)
    ensures
        !vstd::utf8::valid_utf8(field) ==> queue_name(field).len() == 0,
        vstd::utf8::valid_utf8(field) ==> {
            let text = vstd::utf8::decode_utf8(field);
            let name = queue_name(field);
            &&& name.len() <= text.len()
            &&& text.take(name.len() as int) == name
            &&& forall|i: int| name.len() <= i < text.len() ==> text[i] == '\0'
            &&& name.len() > 0 ==> name.last() != '\0'
        },
{
    if vstd::utf8::valid_utf8(field) {
        trimming_leaves_the_front(vstd::utf8::decode_utf8(field), '\0');
    }
}

/// Dropping a character from the end of a text leaves its front, up to the last other
/// character.
pub proof fn trimming_leaves_the_front(text: Seq<char>, c: char)
    ensures
        ({
            let rest = outside::without_trailing(text, c);
            &&& rest.len() <= text.len()
            &&& text.take(rest.len() as int) == rest
            &&& forall|i: int| rest.len() <= i < text.len() ==> text[i] == c
            &&& rest.len() > 0 ==> rest.last() != c
        }),
    decreases text.len(),
{
    let rest = outside::without_trailing(text, c);
    if text.len() > 0 && text.last() == c {
        let front = text.drop_last();
        trimming_leaves_the_front(front, c);
        assert(text.take(rest.len() as int) =~= front.take(rest.len() as int));
        assert forall|i: int| rest.len() <= i < text.len() implies text[i] == c by {
            if i < front.len() {
                assert(front[i] == text[i]);
            }
        }
    } else {
        assert(text.take(rest.len() as int) =~= rest);
    }
}

/// As long as the last byte of a request is missing, it has not arrived.
pub proof fn prefix_is_incomplete(
    command: Request,
    client_id: u128,
    name_field: Seq<u8>,
    payload: Seq<u8>,
    arrived: int,
)
    requires
        name_field.len() == QUEUE_NAME_SIZE,
        payload.len() <= u64::MAX,
        0 <= arrived < request_bytes(command.code(), client_id, name_field, payload).len(),
    ensures
        arrival(
            request_bytes(command.code(), client_id, name_field, payload).take(arrived),
        ) is Incomplete,
{
    broadcast use wire::be_bytes_len;

    let frame = request_bytes(command.code(), client_id, name_field, payload);
    let bytes = frame.take(arrived);
    if arrived >= PREFIX_SIZE {
        wire::be_limit_values();
        wire::be_value_of_be_bytes(payload.len(), 8);
        assert(bytes[0] == command.code());
        assert(bytes.subrange(17, 25) =~= wire::be_bytes(payload.len(), 8));
    }
}

/// What a client puts into a request.
pub struct RequestParts {
    pub command: Request,
    pub client_id: u128,
    pub name_field: Seq<u8>,
    pub payload: Seq<u8>,
}

impl RequestParts {
    /// Whether the parts fit their fields.
    pub open spec fn wf(self) -> bool {
        self.name_field.len() == QUEUE_NAME_SIZE && self.payload.len() <= u64::MAX
    }

    /// The bytes of the request.
    pub open spec fn bytes(self) -> Seq<u8> {
        request_bytes(self.command.code(), self.client_id, self.name_field, self.payload)
    }

    /// The request as it is read.
    pub open spec fn frame(self) -> FrameState {
        FrameState {
            command: self.command,
            client_id: self.client_id,
            queue_name: queue_name(self.name_field),
            payload_size: self.payload.len(),
            payload: self.payload,
        }
    }
}

/// Requests sent back to back.
pub open spec fn stream(requests: Seq<RequestParts>) -> Seq<u8>
    decreases requests.len(),
{
    if requests.len() == 0 {
        Seq::empty()
    } else {
        requests[0].bytes() + stream(requests.drop_first())
    }
}

/// Requests sent back to back are all read at once, in order, and what has
/// arrived of the one after them stays.
pub proof fn pipelined_requests_are_all_read(requests: Seq<RequestParts>, rest: Seq<u8>)
    requires
        forall|i: int| 0 <= i < requests.len() ==> (#[trigger] requests[i]).wf(),
        !(arrival(rest) is Complete),
    ensures
        frames(stream(requests) + rest) == requests.map_values(|parts: RequestParts| parts.frame()),
        leftover(stream(requests) + rest) == rest,
    decreases requests.len(),
{
    let expected = requests.map_values(|parts: RequestParts| parts.frame());
    if requests.len() == 0 {
        assert(stream(requests) + rest =~= rest);
        assert(frames(rest) =~= expected);
    } else {
        let first = requests[0];
        let others = requests.drop_first();
        pipelined_requests_are_all_read(others, rest);
        let bytes = stream(requests) + rest;
        let tail = stream(others) + rest;
        assert(bytes =~= first.bytes() + tail);
        request_is_read_back(first.command, first.client_id, first.name_field, first.payload, tail);
        assert(bytes.skip(first.bytes().len() as int) =~= tail);
        assert(expected =~= seq![first.frame()] + others.map_values(
            |parts: RequestParts| parts.frame(),
        ));
    }
}

/// Encoding two texts one after the other encodes the two together.
proof fn encoding_concatenates(a: Seq<char>, b: Seq<char>)
    ensures
        vstd::utf8::encode_utf8(a + b) == vstd::utf8::encode_utf8(a) + vstd::utf8::encode_utf8(b),
    decreases a.len(),
{
    if a.len() == 0 {
        assert(a + b =~= b);
        assert(vstd::utf8::encode_utf8(a) + vstd::utf8::encode_utf8(b)
            =~= vstd::utf8::encode_utf8(b));
    } else {
        encoding_concatenates(a.drop_first(), b);
        assert((a + b).drop_first() =~= a.drop_first() + b);
        assert(vstd::utf8::encode_utf8(a + b) =~= vstd::utf8::encode_utf8(a)
            + vstd::utf8::encode_utf8(b));
    }
}

/// A row of zero characters is encoded as as many zero bytes.
proof fn encoding_of_padding(count: nat)
    ensures
        vstd::utf8::encode_utf8(Seq::new(count, |i: int| '\0')) == Seq::new(count, |i: int| 0u8),
    decreases count,
{
    let chars = Seq::new(count, |i: int| '\0');
    let bytes = Seq::new(count, |i: int| 0u8);
    if count > 0 {
        let less = (count - 1) as nat;
        encoding_of_padding(less);
        assert(chars.drop_first() =~= Seq::new(less, |i: int| '\0'));
        assert(vstd::utf8::encode_scalar(0) =~= seq![0u8]) by {
            assert(0u32 & 0x7F == 0) by (bit_vector);
        }
        assert(vstd::utf8::encode_utf8(chars) =~= bytes);
    } else {
        assert(vstd::utf8::encode_utf8(chars) =~= bytes);
    }
}

/// Dropping the zeroes at the end of a text drops all that was appended.
proof fn trimming_drops_padding(name: Seq<char>, count: nat)
    requires
        name.len() > 0 ==> name.last() != '\0',
    ensures
        outside::without_trailing(name + Seq::new(count, |i: int| '\0'), '\0') == name,
    decreases count,
{
    let text = name + Seq::new(count, |i: int| '\0');
    if count > 0 {
        let less = (count - 1) as nat;
        trimming_drops_padding(name, less);
        assert(text.drop_last() =~= name + Seq::new(less, |i: int| '\0'));
    } else {
        assert(text =~= name);
    }
}

/// A queue name is read back from its field, however far it was padded.
pub proof fn padded_name_is_read_back(name: Seq<char>, padding: nat)
    requires
        name.len() > 0 ==> name.last() != '\0',
    ensures
        queue_name(vstd::utf8::encode_utf8(name) + Seq::new(padding, |i: int| 0u8)) == name,
{
    let zeroes = Seq::new(padding, |i: int| '\0');
    encoding_concatenates(name, zeroes);
    encoding_of_padding(padding);
    vstd::utf8::encode_utf8_valid_utf8(name + zeroes);
    vstd::utf8::encode_utf8_decode_utf8(name + zeroes);
    trimming_drops_padding(name, padding);
}

/// A response tells its status and how long its payload is, and ends with it.
pub proof fn response_is_read_back(status: Response, payload: Seq<u8>, rest: Seq<u8>)
    requires
        payload.len() <= u64::MAX,
    ensures
        ({
            let bytes = response_bytes(status, payload) + rest;
            &&& bytes[0] == status.code()
            &&& wire::be_value(bytes.subrange(1, 9)) == payload.len()
            &&& bytes.subrange(9, 9 + payload.len() as int) == payload
            &&& bytes.skip(9 + payload.len() as int) == rest
        }),
{
    broadcast use wire::be_bytes_len;

    let bytes = response_bytes(status, payload) + rest;
    wire::be_limit_values();
    wire::be_value_of_be_bytes(payload.len(), 8);
    assert(bytes.subrange(1, 9) =~= wire::be_bytes(payload.len(), 8));
    assert(bytes.subrange(9, 9 + payload.len() as int) =~= payload);
    assert(bytes.skip(9 + payload.len() as int) =~= rest);
}

/// The contents of a request are those of its parts, and the contents of several are
/// those of each in turn.
pub proof fn contents_are_those_of_the_parts(frame: Frame, read: Seq<Frame>, i: int)
    ensures
        frame@.command == frame.message.spec_command(),
        frame@.client_id == frame.client_id,
        frame@.queue_name == frame.queue_name@,
        frame@.payload_size == frame.message.spec_payload_size(),
        frame@.payload == frame.message.spec_payload(),
        contents(read).len() == read.len(),
        0 <= i < read.len() ==> contents(read)[i] == read[i]@,
{
}

} // verus!
