//! A client's connection to a server that waits for many at once: what it has read, what
//! it has still to write, and when it ends.
//!
//! Reading and writing happen outside: each step says what to do next, and takes what
//! came of it. Times are in nanoseconds from a fixed point.
use crate::bytes;
use crate::request;
use crate::request::{Request, RequestError, RequestView};
use crate::response;
use crate::response::{Response, ResponseBody, ResponseView};
use crate::runtime::RuntimeConfig;
use crate::text;
use crate::upstream::FailureKind;
use vstd::prelude::*;
use vstd::slice::slice_to_vec;

verus! {

/// How much of a file is read at once.
pub const FILE_CHUNK_SIZE: usize = 65536;

/// The event that there is something to read.
pub const EPOLLIN: u32 = 0x001;

/// The event that something can be written.
pub const EPOLLOUT: u32 = 0x004;

/// The event that a connection has failed.
pub const EPOLLERR: u32 = 0x008;

/// The event that a connection is gone.
pub const EPOLLHUP: u32 = 0x010;

/// The event that the other side has stopped sending.
pub const EPOLLRDHUP: u32 = 0x2000;

/// The part of a body that is still to come from a file: the piece of it that was read,
/// how much of that was written, and whether the file has ended.
#[derive(Debug)]
pub enum PendingBody {
    Empty,
    Open { chunk: Vec<u8>, written: usize, eof: bool },
}

/// What a `PendingBody` holds.
#[verifier::ext_equal]
pub enum PendingBodyView {
    Empty,
    Open { chunk: Seq<u8>, written: nat, eof: bool },
}

impl View for PendingBody {
    type V = PendingBodyView;

    open spec fn view(&self) -> PendingBodyView {
        match *self {
            PendingBody::Empty => PendingBodyView::Empty,
            PendingBody::Open { chunk, written, eof } => PendingBodyView::Open {
                chunk: chunk@,
                written: written as nat,
                eof,
            },
        }
    }
}

/// What is to be done to send a body.
#[derive(Clone, Copy, Debug, PartialEq, Eq, Structural)]
pub enum FlushStep {
    /// Nothing: all of it has been sent.
    Done,
    /// Write the rest of the piece.
    Write,
    /// Read the next piece of the file.
    Fill,
}

impl PendingBodyView {
    /// No more has been written than was read.
    pub open spec fn wf(self) -> bool {
        self matches PendingBodyView::Open { chunk, written, .. } ==> written <= chunk.len()
    }

    /// The body of a response, of which nothing has been read.
    pub open spec fn of(body: ResponseBody) -> PendingBodyView {
        match body {
            ResponseBody::Empty => PendingBodyView::Empty,
            _ => PendingBodyView::Open { chunk: Seq::empty(), written: 0, eof: false },
        }
    }

    /// Whether something may be left to send.
    pub open spec fn pending(self) -> bool {
        self matches PendingBodyView::Open { chunk, written, eof } && !(eof && written
            == chunk.len())
    }

    /// The bytes that were read and not yet written.
    pub open spec fn unsent(self) -> Seq<u8> {
        match self {
            PendingBodyView::Empty => Seq::empty(),
            PendingBodyView::Open { chunk, written, .. } => chunk.skip(written as int),
        }
    }

    /// What is to be done to send the body.
    pub open spec fn step(self) -> FlushStep {
        match self {
            PendingBodyView::Empty => FlushStep::Done,
            PendingBodyView::Open { chunk, written, eof } => if written < chunk.len() {
                FlushStep::Write
            } else if eof {
                FlushStep::Done
            } else {
                FlushStep::Fill
            },
        }
    }

    /// The body after `n` more bytes were written.
    pub open spec fn wrote(self, n: nat) -> PendingBodyView {
        match self {
            PendingBodyView::Empty => self,
            PendingBodyView::Open { chunk, written, eof } => PendingBodyView::Open {
                chunk,
                written: written + n,
                eof,
            },
        }
    }

    /// The body after its next piece was read; an empty piece is the end of the file.
    pub open spec fn filled(self, next: Seq<u8>) -> PendingBodyView {
        match self {
            PendingBodyView::Empty => self,
            PendingBodyView::Open { .. } => PendingBodyView::Open {
                chunk: next,
                written: 0,
                eof: next.len() == 0,
            },
        }
    }
}

impl PendingBody {
    /// No body.
    pub fn empty() -> (r: PendingBody)
        ensures
            r@ == PendingBodyView::Empty,
    {
        PendingBody::Empty
    }

    /// The body of a response, of which nothing has been read.
    pub fn from_response_body(body: ResponseBody) -> (r: PendingBody)
        ensures
            r@ == PendingBodyView::of(body),
    {
        match body {
            ResponseBody::Empty => PendingBody::Empty,
            ResponseBody::File | ResponseBody::TempFile => PendingBody::Open {
                chunk: Vec::new(),
                written: 0,
                eof: false,
            },
        }
    }

    /// Whether something may be left to send.
    pub fn has_pending_data(&self) -> (r: bool)
        ensures
            r == self@.pending(),
    {
        match self {
            PendingBody::Empty => false,
            PendingBody::Open { chunk, written, eof } => !(*eof && *written == chunk.len()),
        }
    }

    /// What is to be done to send the body.
    pub fn flush_to(&self) -> (r: FlushStep)
        ensures
            r == self@.step(),
    {
        match self {
            PendingBody::Empty => FlushStep::Done,
            PendingBody::Open { chunk, written, eof } => {
                if *written < chunk.len() {
                    FlushStep::Write
                } else if *eof {
                    FlushStep::Done
                } else {
                    FlushStep::Fill
                }
            },
        }
    }

    /// The bytes that were read and not yet written.
    pub fn unsent(&self) -> (r: &[u8])
        requires
            self@.wf(),
        ensures
            r@ == self@.unsent(),
    {
        match self {
            PendingBody::Empty => &[],
            PendingBody::Open { chunk, written, .. } => text::skip(chunk.as_slice(), *written),
        }
    }

    /// Takes that `n` more bytes were written.
    pub fn wrote(&mut self, n: usize)
        requires
            old(self)@.wf(),
            n <= old(self)@.unsent().len(),
        ensures
            final(self)@ == old(self)@.wrote(n as nat),
            final(self)@.wf(),
    {
        match self {
            PendingBody::Empty => {},
            PendingBody::Open { chunk, written, .. } => {
                let len: usize = chunk.len();
                assert(*written + n <= len);
                *written = *written + n;
            },
        }
    }

    /// Takes the next piece of the file; an empty piece is its end.
    pub fn filled(&mut self, next: Vec<u8>)
        ensures
            final(self)@ == old(self)@.filled(next@),
            final(self)@.wf(),
    {
        match self {
            PendingBody::Empty => {},
            PendingBody::Open { chunk, written, eof } => {
                *eof = next.len() == 0;
                *written = 0;
                *chunk = next;
            },
        }
    }
}

/// A client's connection.
#[derive(Debug)]
pub struct Connection {
    pub read_buf: Vec<u8>,
    pub write_head: Vec<u8>,
    pub head_written: usize,
    pub write_body: PendingBody,
    pub last_active: u64,
    pub requests_served: usize,
    pub close_after_write: bool,
    pub peer_closed: bool,
}

/// What a `Connection` holds.
#[verifier::ext_equal]
pub struct ConnectionView {
    pub read_buf: Seq<u8>,
    pub write_head: Seq<u8>,
    pub head_written: nat,
    pub write_body: PendingBodyView,
    pub last_active: u64,
    pub requests_served: nat,
    pub close_after_write: bool,
    pub peer_closed: bool,
}

impl View for Connection {
    type V = ConnectionView;

    open spec fn view(&self) -> ConnectionView {
        ConnectionView {
            read_buf: self.read_buf@,
            write_head: self.write_head@,
            head_written: self.head_written as nat,
            write_body: self.write_body@,
            last_active: self.last_active,
            requests_served: self.requests_served as nat,
            close_after_write: self.close_after_write,
            peer_closed: self.peer_closed,
        }
    }
}

/// What comes of looking for a request among the bytes that were read.
#[verifier::ext_equal]
pub enum Taken {
    /// There is none yet.
    Nothing,
    Request(RequestView),
    /// The bytes are not a request.
    Refused(RequestError),
}

/// What to do after reading.
#[derive(Debug)]
pub enum ReadAction {
    /// Read again.
    Read,
    /// Wait for the next event.
    Wait,
    /// Close the connection.
    Close,
    /// Answer this request.
    Dispatch(Request),
    /// What was read is not a request; a response that says so is to be written. Wait
    /// for the next event.
    Refused(RequestError),
}

/// What a `ReadAction` says.
#[verifier::ext_equal]
pub enum ReadActionView {
    Read,
    Wait,
    Close,
    Dispatch(RequestView),
    Refused(RequestError),
}

impl View for ReadAction {
    type V = ReadActionView;

    open spec fn view(&self) -> ReadActionView {
        match *self {
            ReadAction::Read => ReadActionView::Read,
            ReadAction::Wait => ReadActionView::Wait,
            ReadAction::Close => ReadActionView::Close,
            ReadAction::Dispatch(request) => ReadActionView::Dispatch(request@),
            ReadAction::Refused(error) => ReadActionView::Refused(error),
        }
    }
}

/// What came of reading.
#[derive(Clone, Copy, Debug)]
pub enum ReadEvent<'a> {
    /// The client sends no more.
    Eof,
    /// These bytes came.
    Data(&'a [u8]),
    /// There is nothing to read now.
    Blocked,
    Failed,
}

/// What to do to write.
#[derive(Debug)]
pub enum WriteAction {
    /// Write the bytes that are not yet sent.
    Write,
    /// Read the next piece of the body.
    Fill,
    /// Wait for the next event.
    Wait,
    /// Close the connection.
    Close,
    /// All was written, and this request is the next to answer.
    Dispatch(Request),
    /// All was written, and what was read since is not a request; a response that says
    /// so is to be written. Wait for the next event.
    Refused(RequestError),
    /// Stop the server.
    Abort,
}

/// What a `WriteAction` says.
#[verifier::ext_equal]
pub enum WriteActionView {
    Write,
    Fill,
    Wait,
    Close,
    Dispatch(RequestView),
    Refused(RequestError),
    Abort,
}

impl View for WriteAction {
    type V = WriteActionView;

    open spec fn view(&self) -> WriteActionView {
        match *self {
            WriteAction::Write => WriteActionView::Write,
            WriteAction::Fill => WriteActionView::Fill,
            WriteAction::Wait => WriteActionView::Wait,
            WriteAction::Close => WriteActionView::Close,
            WriteAction::Dispatch(request) => WriteActionView::Dispatch(request@),
            WriteAction::Refused(error) => WriteActionView::Refused(error),
            WriteAction::Abort => WriteActionView::Abort,
        }
    }
}

/// What came of writing, or of reading the next piece of the body.
#[derive(Debug)]
pub enum WriteEvent {
    /// Writing may begin.
    Ready,
    /// So many bytes were written.
    Wrote(usize),
    /// Nothing can be written now.
    Blocked,
    /// The next piece of the body; empty at its end.
    Filled(Vec<u8>),
    /// Writing, or reading the body, failed.
    Failed(FailureKind),
}

/// What a `WriteEvent` says.
#[verifier::ext_equal]
pub enum WriteEventView {
    Ready,
    Wrote(nat),
    Blocked,
    Filled(Seq<u8>),
    Failed(FailureKind),
}

impl View for WriteEvent {
    type V = WriteEventView;

    open spec fn view(&self) -> WriteEventView {
        match *self {
            WriteEvent::Ready => WriteEventView::Ready,
            WriteEvent::Wrote(n) => WriteEventView::Wrote(n as nat),
            WriteEvent::Blocked => WriteEventView::Blocked,
            WriteEvent::Filled(next) => WriteEventView::Filled(next@),
            WriteEvent::Failed(kind) => WriteEventView::Failed(kind),
        }
    }
}

impl ConnectionView {
    /// A connection that was accepted at `now`.
    pub open spec fn accepted(now: u64) -> ConnectionView {
        ConnectionView {
            read_buf: Seq::empty(),
            write_head: Seq::empty(),
            head_written: 0,
            write_body: PendingBodyView::Empty,
            last_active: now,
            requests_served: 0,
            close_after_write: false,
            peer_closed: false,
        }
    }

    /// What holds of every connection to a server with these limits: no more was written
    /// than there is; it has answered no more requests than it may; where it is to be
    /// closed, something is left to write before that; and where it is not, it may answer
    /// another request and holds no more bytes than a request may have.
    pub open spec fn wf(self, runtime: RuntimeConfig) -> bool {
        &&& self.head_written <= self.write_head.len()
        &&& self.write_body.wf()
        &&& self.requests_served <= runtime.keep_alive_max
        &&& self.close_after_write ==> self.pending()
        &&& !self.close_after_write ==> self.requests_served < runtime.keep_alive_max
        &&& !self.close_after_write ==> self.read_buf.len() <= runtime.max_request_size
    }

    /// Whether something may be left to write.
    pub open spec fn pending(self) -> bool {
        self.head_written < self.write_head.len() || self.write_body.pending()
    }

    /// The bytes to write next.
    pub open spec fn unsent(self) -> Seq<u8> {
        if self.head_written < self.write_head.len() {
            self.write_head.skip(self.head_written as int)
        } else {
            self.write_body.unsent()
        }
    }

    /// All bytes at hand that are still to be written.
    pub open spec fn at_hand(self) -> Seq<u8> {
        self.write_head.skip(self.head_written as int) + self.write_body.unsent()
    }

    /// The connection with a refusal to write, after which it is closed.
    pub open spec fn refused(
        self,
        status: u16,
        reason: Seq<char>,
        runtime: RuntimeConfig,
    ) -> ConnectionView {
        ConnectionView {
            write_head: response::plain_bytes(status, reason, reason, false, runtime),
            head_written: 0,
            write_body: PendingBodyView::Empty,
            close_after_write: true,
            ..self
        }
    }

    /// The connection without the request at the start of what was read, and that
    /// request.
    pub open spec fn taken(self, runtime: RuntimeConfig) -> (ConnectionView, Taken) {
        match request::request_in(self.read_buf) {
            Ok(Some((found, used))) => (
                ConnectionView { read_buf: self.read_buf.skip(used as int), ..self },
                Taken::Request(found),
            ),
            Ok(None) => (self, Taken::Nothing),
            Err(error) => (self.refused(400, "Bad Request"@, runtime), Taken::Refused(error)),
        }
    }

    /// The connection after `data` was read at `now`, and what to do.
    pub open spec fn after_data(self, data: Seq<u8>, now: u64, runtime: RuntimeConfig) -> (
        ConnectionView,
        ReadActionView,
    ) {
        let held = ConnectionView {
            read_buf: self.read_buf + data,
            last_active: now,
            ..self
        };
        if held.read_buf.len() > runtime.max_request_size {
            (held.refused(413, "Payload Too Large"@, runtime), ReadActionView::Wait)
        } else if held.pending() {
            (held, ReadActionView::Read)
        } else {
            match held.taken(runtime) {
                (next, Taken::Request(found)) => (next, ReadActionView::Dispatch(found)),
                (next, Taken::Nothing) => (next, ReadActionView::Read),
                (next, Taken::Refused(error)) => (next, ReadActionView::Refused(error)),
            }
        }
    }

    /// The connection after a read at `now`, and what to do.
    pub open spec fn after_read(self, event: ReadEvent, now: u64, runtime: RuntimeConfig) -> (
        ConnectionView,
        ReadActionView,
    ) {
        match event {
            ReadEvent::Eof => (
                ConnectionView { peer_closed: true, ..self },
                ReadActionView::Wait,
            ),
            ReadEvent::Data(data) => self.after_data(data@, now, runtime),
            ReadEvent::Blocked => (self, ReadActionView::Wait),
            ReadEvent::Failed => (self, ReadActionView::Close),
        }
    }

    /// What to do to go on writing at `now`, and the connection with that begun: with
    /// nothing left to write, the response is finished.
    pub open spec fn write_on(self, now: u64, runtime: RuntimeConfig) -> (
        ConnectionView,
        WriteActionView,
    ) {
        if self.head_written < self.write_head.len() {
            (self, WriteActionView::Write)
        } else {
            match self.write_body.step() {
                FlushStep::Write => (self, WriteActionView::Write),
                FlushStep::Fill => (self, WriteActionView::Fill),
                FlushStep::Done => {
                    let done = ConnectionView {
                        write_head: Seq::empty(),
                        head_written: 0,
                        write_body: PendingBodyView::Empty,
                        last_active: now,
                        ..self
                    };
                    if self.close_after_write || self.peer_closed {
                        (done, WriteActionView::Close)
                    } else if self.read_buf.len() == 0 {
                        (done, WriteActionView::Wait)
                    } else {
                        match done.taken(runtime) {
                            (next, Taken::Request(found)) => (
                                next,
                                WriteActionView::Dispatch(found),
                            ),
                            (next, Taken::Nothing) => (next, WriteActionView::Wait),
                            (next, Taken::Refused(error)) => (
                                next,
                                WriteActionView::Refused(error),
                            ),
                        }
                    }
                },
            }
        }
    }

    /// Whether `event` can come of what this connection has to do.
    pub open spec fn allows(self, event: WriteEventView) -> bool {
        match event {
            WriteEventView::Wrote(n) => self.unsent().len() > 0 && n <= self.unsent().len(),
            WriteEventView::Filled(_) => self.head_written >= self.write_head.len()
                && self.write_body.step() == FlushStep::Fill,
            _ => true,
        }
    }

    /// The connection after `event` at `now`, and what to do.
    pub open spec fn after_write(self, event: WriteEventView, now: u64, runtime: RuntimeConfig) -> (
        ConnectionView,
        WriteActionView,
    ) {
        let in_head = self.head_written < self.write_head.len();
        match event {
            WriteEventView::Ready => self.write_on(now, runtime),
            WriteEventView::Blocked => (self, WriteActionView::Wait),
            WriteEventView::Wrote(n) => if n == 0 {
                (
                    self,
                    if in_head {
                        WriteActionView::Close
                    } else {
                        WriteActionView::Wait
                    },
                )
            } else if in_head {
                (ConnectionView {
                    head_written: self.head_written + n,
                    last_active: now,
                    ..self
                }).write_on(now, runtime)
            } else {
                (ConnectionView { write_body: self.write_body.wrote(n), ..self }).write_on(
                    now,
                    runtime,
                )
            },
            WriteEventView::Filled(next) => (ConnectionView {
                write_body: self.write_body.filled(next),
                ..self
            }).write_on(now, runtime),
            WriteEventView::Failed(kind) => (
                self,
                if in_head || kind == FailureKind::BrokenPipe || kind
                    == FailureKind::ConnectionReset || kind == FailureKind::ConnectionAborted {
                    WriteActionView::Close
                } else {
                    WriteActionView::Abort
                },
            ),
        }
    }

    /// Whether the connection may stay open after the answer to `request`.
    pub open spec fn keeps_open(self, request: RequestView, runtime: RuntimeConfig) -> bool {
        request::keeps_alive(request) && self.requests_served + 1 < runtime.keep_alive_max
    }

    /// The connection with a response to write.
    pub open spec fn answered(
        self,
        response: ResponseView,
        keep_alive: bool,
        now: u64,
    ) -> ConnectionView {
        ConnectionView {
            requests_served: self.requests_served + 1,
            last_active: now,
            write_head: response.head,
            head_written: 0,
            write_body: PendingBodyView::of(response.body),
            close_after_write: response.close || !keep_alive,
            ..self
        }
    }

    /// The events to wait for.
    pub open spec fn interest(self) -> u32 {
        if self.pending() {
            EPOLLIN | EPOLLRDHUP | EPOLLOUT
        } else {
            EPOLLIN | EPOLLRDHUP
        }
    }

    /// The connection with its client noted as one that sends no more.
    pub open spec fn left(self) -> ConnectionView {
        ConnectionView { peer_closed: true, ..self }
    }

    /// Whether the connection has been idle for too long at `now`.
    pub open spec fn stale(self, now: u64, runtime: RuntimeConfig) -> bool {
        let idle = if now >= self.last_active {
            now - self.last_active
        } else {
            0
        };
        !self.pending() && idle >= runtime.keep_alive_timeout_secs * 1000000000
    }
}

impl Connection {
    /// A connection that was accepted at `now`.
    pub fn new(now: u64) -> (r: Connection)
        ensures
            r@ == ConnectionView::accepted(now),
            forall|runtime: RuntimeConfig|
                runtime.keep_alive_max > 0 ==> #[trigger] r@.wf(runtime),
    {
        Connection {
            read_buf: Vec::new(),
            write_head: Vec::new(),
            head_written: 0,
            write_body: PendingBody::empty(),
            last_active: now,
            requests_served: 0,
            close_after_write: false,
            peer_closed: false,
        }
    }

    /// Whether something may be left to write.
    pub fn has_pending_write(&self) -> (r: bool)
        ensures
            r == self@.pending(),
    {
        self.head_written < self.write_head.len() || self.write_body.has_pending_data()
    }

    /// The bytes to write next.
    pub fn unsent(&self) -> (r: &[u8])
        requires
            self@.head_written <= self@.write_head.len(),
            self@.write_body.wf(),
        ensures
            r@ == self@.unsent(),
    {
        if self.head_written < self.write_head.len() {
            text::skip(self.write_head.as_slice(), self.head_written)
        } else {
            self.write_body.unsent()
        }
    }

    /// Takes a refusal to write, after which the connection is closed.
    fn refuse(&mut self, status: u16, reason: &str, runtime: &RuntimeConfig)
        ensures
            final(self)@ == old(self)@.refused(status, reason@, *runtime),
    {
        self.write_head = response::plain_response(status, reason, reason, false, runtime);
        self.head_written = 0;
        self.write_body = PendingBody::empty();
        self.close_after_write = true;
    }

    /// Takes the request at the start of what was read.
    fn take_request(&mut self, runtime: &RuntimeConfig) -> (r: Result<
        Option<Request>,
        RequestError,
    >)
        ensures
            old(self)@.taken(*runtime) == (
                final(self)@,
                match r {
                    Ok(Some(found)) => Taken::Request(found@),
                    Ok(None) => Taken::Nothing,
                    Err(error) => Taken::Refused(error),
                },
            ),
    {
        match Request::parse_from_buffer(self.read_buf.as_slice()) {
            Ok(Some((found, used))) => {
                self.read_buf = slice_to_vec(text::skip(self.read_buf.as_slice(), used));
                Ok(Some(found))
            },
            Ok(None) => Ok(None),
            Err(error) => {
                self.refuse(400, "Bad Request", runtime);
                Err(error)
            },
        }
    }

    /// Takes what came of reading at `now`.
    pub fn read_ready(&mut self, event: ReadEvent, now: u64, runtime: &RuntimeConfig) -> (r:
        ReadAction)
        requires
            old(self)@.wf(*runtime),
        ensures
            old(self)@.after_read(event, now, *runtime) == (final(self)@, r@),
            final(self)@.wf(*runtime),
            r is Dispatch ==> !final(self)@.pending(),
    {
        match event {
            ReadEvent::Eof => {
                self.peer_closed = true;
                ReadAction::Wait
            },
            ReadEvent::Blocked => ReadAction::Wait,
            ReadEvent::Failed => ReadAction::Close,
            ReadEvent::Data(data) => {
                self.last_active = now;
                bytes::append(&mut self.read_buf, data);
                if self.read_buf.len() > runtime.max_request_size {
                    self.refuse(413, "Payload Too Large", runtime);
                    proof {
                        lemma_refusal_not_empty(413, "Payload Too Large"@, *runtime);
                    }
                    return ReadAction::Wait;
                }
                if self.has_pending_write() {
                    return ReadAction::Read;
                }
                proof {
                    lemma_refusal_not_empty(400, "Bad Request"@, *runtime);
                }
                match self.take_request(runtime) {
                    Ok(Some(found)) => ReadAction::Dispatch(found),
                    Ok(None) => ReadAction::Read,
                    Err(error) => ReadAction::Refused(error),
                }
            },
        }
    }

    /// Goes on writing at `now`.
    fn write_on(&mut self, now: u64, runtime: &RuntimeConfig) -> (r: WriteAction)
        requires
            old(self)@.head_written <= old(self)@.write_head.len(),
            old(self)@.write_body.wf(),
            old(self)@.requests_served <= runtime.keep_alive_max,
            !old(self)@.close_after_write ==> old(self)@.requests_served
                < runtime.keep_alive_max && old(self)@.read_buf.len()
                <= runtime.max_request_size,
        ensures
            old(self)@.write_on(now, *runtime) == (final(self)@, r@),
            r !is Close ==> final(self)@.wf(*runtime),
            r is Dispatch ==> !final(self)@.pending(),
    {
        if self.head_written < self.write_head.len() {
            return WriteAction::Write;
        }
        match self.write_body.flush_to() {
            FlushStep::Write => WriteAction::Write,
            FlushStep::Fill => WriteAction::Fill,
            FlushStep::Done => {
                self.write_head = Vec::new();
                self.head_written = 0;
                self.write_body = PendingBody::empty();
                self.last_active = now;
                if self.close_after_write || self.peer_closed {
                    return WriteAction::Close;
                }
                if self.read_buf.len() == 0 {
                    return WriteAction::Wait;
                }
                proof {
                    lemma_refusal_not_empty(400, "Bad Request"@, *runtime);
                }
                match self.take_request(runtime) {
                    Ok(Some(found)) => WriteAction::Dispatch(found),
                    Ok(None) => WriteAction::Wait,
                    Err(error) => WriteAction::Refused(error),
                }
            },
        }
    }

    /// Takes what came of writing at `now`.
    pub fn write_ready(&mut self, event: WriteEvent, now: u64, runtime: &RuntimeConfig) -> (r:
        WriteAction)
        requires
            old(self)@.wf(*runtime),
            old(self)@.allows(event@),
        ensures
            old(self)@.after_write(event@, now, *runtime) == (final(self)@, r@),
            r !is Close ==> final(self)@.wf(*runtime),
            r is Dispatch ==> !final(self)@.pending(),
    {
        let in_head = self.head_written < self.write_head.len();
        match event {
            WriteEvent::Ready => self.write_on(now, runtime),
            WriteEvent::Blocked => WriteAction::Wait,
            WriteEvent::Wrote(n) => {
                if n == 0 {
                    if in_head {
                        WriteAction::Close
                    } else {
                        WriteAction::Wait
                    }
                } else {
                    if in_head {
                        let len: usize = self.write_head.len();
                        assert(self.head_written + n <= len);
                        self.head_written = self.head_written + n;
                        self.last_active = now;
                    } else {
                        self.write_body.wrote(n);
                    }
                    self.write_on(now, runtime)
                }
            },
            WriteEvent::Filled(next) => {
                self.write_body.filled(next);
                self.write_on(now, runtime)
            },
            WriteEvent::Failed(kind) => {
                if in_head || kind == FailureKind::BrokenPipe || kind
                    == FailureKind::ConnectionReset || kind == FailureKind::ConnectionAborted {
                    WriteAction::Close
                } else {
                    WriteAction::Abort
                }
            },
        }
    }

    /// Whether the connection may stay open after the answer to `request`.
    pub fn keeps_open(&self, request: &Request, runtime: &RuntimeConfig) -> (r: bool)
        ensures
            r == self@.keeps_open(request@, *runtime),
    {
        request::wants_keep_alive(request) && self.requests_served < runtime.keep_alive_max
            && runtime.keep_alive_max - self.requests_served > 1
    }

    /// Takes the response to the request that is to be answered.
    pub fn dispatch_request(
        &mut self,
        response: Response,
        keep_alive: bool,
        now: u64,
        runtime: &RuntimeConfig,
    )
        requires
            old(self)@.wf(*runtime),
            !old(self)@.pending(),
            response@.head.len() > 0,
            keep_alive ==> old(self)@.requests_served + 1 < runtime.keep_alive_max,
        ensures
            final(self)@ == old(self)@.answered(response@, keep_alive, now),
            final(self)@.wf(*runtime),
    {
        self.requests_served = self.requests_served + 1;
        self.last_active = now;
        self.write_head = response.head;
        self.head_written = 0;
        self.write_body = PendingBody::from_response_body(response.body);
        self.close_after_write = response.close || !keep_alive;
    }

    /// Takes that the client sends no more.
    pub fn mark_peer_closed(&mut self)
        ensures
            final(self)@ == old(self)@.left(),
    {
        self.peer_closed = true;
    }

    /// The events to wait for: something to read, the client's end, and, where
    /// something is left to write, that it can be written.
    pub fn refresh_interest(&self) -> (r: u32)
        ensures
            r == self@.interest(),
    {
        if self.has_pending_write() {
            EPOLLIN | EPOLLRDHUP | EPOLLOUT
        } else {
            EPOLLIN | EPOLLRDHUP
        }
    }

    /// Whether the connection has been idle for too long at `now`.
    pub fn is_stale(&self, now: u64, runtime: &RuntimeConfig) -> (r: bool)
        ensures
            r == self@.stale(now, *runtime),
    {
        if self.has_pending_write() {
            return false;
        }
        let idle: u64 = if now >= self.last_active {
            now - self.last_active
        } else {
            0
        };
        idle / 1000000000 >= runtime.keep_alive_timeout()
    }
}

/// A refusal is not empty.
proof fn lemma_refusal_not_empty(status: u16, reason: Seq<char>, runtime: RuntimeConfig)
    ensures
        response::plain_bytes(status, reason, reason, false, runtime).len() > 0,
{
    response::lemma_head_not_empty(
        status,
        reason,
        "text/plain"@,
        vstd::utf8::encode_utf8(reason).len(),
        false,
        runtime,
    );
}

impl ConnectionView {
    /// The bytes that `event` says were written.
    pub open spec fn sent_by(self, event: WriteEventView) -> Seq<u8> {
        match event {
            WriteEventView::Wrote(n) => self.unsent().take(n as int),
            _ => Seq::empty(),
        }
    }

    /// The connection after `events`, each with its time.
    pub open spec fn after_writes(
        self,
        events: Seq<(WriteEventView, u64)>,
        runtime: RuntimeConfig,
    ) -> ConnectionView
        decreases events.len(),
    {
        if events.len() == 0 {
            self
        } else {
            self.after_write(events[0].0, events[0].1, runtime).0.after_writes(
                events.skip(1),
                runtime,
            )
        }
    }

    /// The bytes that `events` say were written.
    pub open spec fn sent_by_all(
        self,
        events: Seq<(WriteEventView, u64)>,
        runtime: RuntimeConfig,
    ) -> Seq<u8>
        decreases events.len(),
    {
        if events.len() == 0 {
            Seq::empty()
        } else {
            self.sent_by(events[0].0) + self.after_write(
                events[0].0,
                events[0].1,
                runtime,
            ).0.sent_by_all(events.skip(1), runtime)
        }
    }

    /// Whether `events` can come one after another while one response is written: each
    /// of what there is to do, and none after the connection has gone on to something
    /// else.
    pub open spec fn writes_one_response(
        self,
        events: Seq<(WriteEventView, u64)>,
        runtime: RuntimeConfig,
    ) -> bool
        decreases events.len(),
    {
        events.len() > 0 ==> {
            let (next, action) = self.after_write(events[0].0, events[0].1, runtime);
            &&& self.allows(events[0].0)
            &&& action !is Refused
            &&& events.len() > 1 ==> action is Write || action is Fill || action is Wait
            &&& next.writes_one_response(events.skip(1), runtime)
        }
    }

    /// The connection after the pieces `reads` were read, each at its time, and what to
    /// do in the end.
    pub open spec fn after_pieces(
        self,
        reads: Seq<(Seq<u8>, u64)>,
        runtime: RuntimeConfig,
    ) -> (ConnectionView, ReadActionView)
        decreases reads.len(),
    {
        if reads.len() == 0 {
            (self, ReadActionView::Read)
        } else if reads.len() == 1 {
            self.after_data(reads[0].0, reads[0].1, runtime)
        } else {
            self.after_data(reads[0].0, reads[0].1, runtime).0.after_pieces(
                reads.skip(1),
                runtime,
            )
        }
    }
}

/// The piece of a body that `event` brings.
pub open spec fn brought_by(event: WriteEventView) -> Seq<u8> {
    match event {
        WriteEventView::Filled(next) => next,
        _ => Seq::empty(),
    }
}

/// The pieces of a body that `events` bring.
pub open spec fn brought_by_all(events: Seq<(WriteEventView, u64)>) -> Seq<u8>
    decreases events.len(),
{
    if events.len() == 0 {
        Seq::empty()
    } else {
        brought_by(events[0].0) + brought_by_all(events.skip(1))
    }
}

/// The bytes of the pieces `reads`.
pub open spec fn pieces(reads: Seq<(Seq<u8>, u64)>) -> Seq<Seq<u8>> {
    reads.map_values(|read: (Seq<u8>, u64)| read.0)
}

/// Whether `c` is as `wf` says, but that it may have nothing left to write where it is to be
/// closed.
spec fn may_write(c: ConnectionView, runtime: RuntimeConfig) -> bool {
    &&& c.head_written <= c.write_head.len()
    &&& c.write_body.wf()
    &&& c.requests_served <= runtime.keep_alive_max
    &&& !c.close_after_write ==> c.requests_served < runtime.keep_alive_max && c.read_buf.len()
        <= runtime.max_request_size
}

/// Going on with writing changes no byte that is at hand.
proof fn lemma_write_on(c: ConnectionView, now: u64, runtime: RuntimeConfig)
    requires
        may_write(c, runtime),
        c.write_on(now, runtime).1 !is Refused,
    ensures
        c.write_on(now, runtime).0.at_hand() == c.at_hand(),
        c.write_on(now, runtime).1 is Close || c.write_on(now, runtime).0.wf(runtime),
{
    let next = c.write_on(now, runtime).0;
    if c.head_written < c.write_head.len() || c.write_body.step() != FlushStep::Done {
        assert(next == c);
    } else {
        assert(c.at_hand() =~= Seq::<u8>::empty());
        assert(next.at_hand() =~= Seq::<u8>::empty());
    }
}

/// What was written of the head was at hand.
proof fn lemma_wrote_head(c: ConnectionView, n: nat, now: u64, runtime: RuntimeConfig)
    requires
        c.wf(runtime),
        c.head_written < c.write_head.len(),
        n <= c.unsent().len(),
    ensures
        ({
            let next = ConnectionView {
                head_written: c.head_written + n,
                last_active: now,
                ..c
            };
            may_write(next, runtime) && c.unsent().take(n as int) + next.at_hand() == c.at_hand()
        }),
{
    let next = ConnectionView { head_written: c.head_written + n, last_active: now, ..c };
    let left = c.write_head.skip(c.head_written as int);
    assert(left.skip(n as int) =~= c.write_head.skip(c.head_written as int + n));
    assert(left.take(n as int) + left.skip(n as int) =~= left);
    assert(left.take(n as int) + (left.skip(n as int) + c.write_body.unsent()) =~= left
        + c.write_body.unsent());
}

/// What was written of the body was at hand.
proof fn lemma_wrote_body(c: ConnectionView, n: nat, runtime: RuntimeConfig)
    requires
        c.wf(runtime),
        c.head_written >= c.write_head.len(),
        n <= c.unsent().len(),
    ensures
        ({
            let next = ConnectionView { write_body: c.write_body.wrote(n), ..c };
            may_write(next, runtime) && c.unsent().take(n as int) + next.at_hand() == c.at_hand()
        }),
{
    let next = ConnectionView { write_body: c.write_body.wrote(n), ..c };
    let left = c.write_body.unsent();
    assert(c.at_hand() =~= left);
    assert(next.write_body.unsent() =~= left.skip(n as int));
    assert(next.at_hand() =~= left.skip(n as int));
    assert(left.take(n as int) + left.skip(n as int) =~= left);
}

/// The next piece of the body is at hand once it was read.
proof fn lemma_filled(c: ConnectionView, piece: Seq<u8>, runtime: RuntimeConfig)
    requires
        c.wf(runtime),
        c.allows(WriteEventView::Filled(piece)),
    ensures
        ({
            let next = ConnectionView { write_body: c.write_body.filled(piece), ..c };
            may_write(next, runtime) && next.at_hand() == c.at_hand() + piece
        }),
{
    let next = ConnectionView { write_body: c.write_body.filled(piece), ..c };
    assert(c.at_hand() =~= Seq::<u8>::empty());
    assert(next.write_body.unsent() =~= piece);
    assert(next.at_hand() =~= piece);
    assert(c.at_hand() + piece =~= piece);
}

/// No step of writing loses, adds or moves a byte: what was written and what is then at
/// hand are what was at hand before and what the step brought.
proof fn lemma_bytes_in_order(
    c: ConnectionView,
    event: WriteEventView,
    now: u64,
    runtime: RuntimeConfig,
)
    requires
        c.wf(runtime),
        c.allows(event),
        c.after_write(event, now, runtime).1 !is Refused,
    ensures
        c.sent_by(event) + c.after_write(event, now, runtime).0.at_hand() == c.at_hand()
            + brought_by(event),
        c.after_write(event, now, runtime).1 is Close || c.after_write(
            event,
            now,
            runtime,
        ).0.wf(runtime),
{
    let none = Seq::<u8>::empty();
    assert(c.at_hand() + none =~= c.at_hand());
    assert(none + c.at_hand() =~= c.at_hand());
    match event {
        WriteEventView::Ready => {
            lemma_write_on(c, now, runtime);
        },
        WriteEventView::Wrote(n) => {
            if n == 0 {
                assert(c.sent_by(event) =~= none);
            } else if c.head_written < c.write_head.len() {
                lemma_wrote_head(c, n, now, runtime);
                lemma_write_on(
                    ConnectionView { head_written: c.head_written + n, last_active: now, ..c },
                    now,
                    runtime,
                );
            } else {
                lemma_wrote_body(c, n, runtime);
                lemma_write_on(
                    ConnectionView { write_body: c.write_body.wrote(n), ..c },
                    now,
                    runtime,
                );
            }
        },
        WriteEventView::Filled(piece) => {
            lemma_filled(c, piece, runtime);
            lemma_write_on(
                ConnectionView { write_body: c.write_body.filled(piece), ..c },
                now,
                runtime,
            );
            let next = c.after_write(event, now, runtime).0;
            assert(none + next.at_hand() =~= next.at_hand());
        },
        WriteEventView::Blocked | WriteEventView::Failed(_) => {},
    }
}

/// However a response is cut into writes, and its body into reads, the client gets its
/// head and then its body, byte for byte: what was written and what is still at hand
/// are what was at hand at first and what was read of the body.
pub proof fn law_bytes_in_order(
    c: ConnectionView,
    events: Seq<(WriteEventView, u64)>,
    runtime: RuntimeConfig,
)
    requires
        c.wf(runtime),
        c.writes_one_response(events, runtime),
    ensures
        c.sent_by_all(events, runtime) + c.after_writes(events, runtime).at_hand() == c.at_hand()
            + brought_by_all(events),
        !c.after_writes(events, runtime).pending() ==> c.sent_by_all(events, runtime)
            == c.at_hand() + brought_by_all(events),
    decreases events.len(),
{
    if events.len() > 0 {
        let (event, now) = events[0];
        let next = c.after_write(event, now, runtime).0;
        let rest = events.skip(1);
        lemma_bytes_in_order(c, event, now, runtime);
        if rest.len() > 0 {
            law_bytes_in_order(next, rest, runtime);
        }
        let last = next.after_writes(rest, runtime);
        assert(c.sent_by(event) + next.sent_by_all(rest, runtime) + last.at_hand() =~= c.sent_by(
            event,
        ) + (next.sent_by_all(rest, runtime) + last.at_hand()));
        assert(c.sent_by(event) + (next.at_hand() + brought_by_all(rest)) =~= (c.sent_by(event)
            + next.at_hand()) + brought_by_all(rest));
        assert(c.at_hand() + brought_by(event) + brought_by_all(rest) =~= c.at_hand() + (brought_by(
            event,
        ) + brought_by_all(rest)));
    } else {
        assert(Seq::<u8>::empty() + c.at_hand() =~= c.at_hand() + Seq::<u8>::empty());
    }
    let last = c.after_writes(events, runtime);
    if !last.pending() {
        assert(last.at_hand() =~= Seq::<u8>::empty());
        assert(c.sent_by_all(events, runtime) + Seq::<u8>::empty() =~= c.sent_by_all(
            events,
            runtime,
        ));
    }
}

/// However the network cuts a request into pieces, reading them one after another ends
/// as reading all of them at once does, as long as all but the last are not a request
/// by themselves and not too large.
pub proof fn law_pieces_read_as_one(
    c: ConnectionView,
    reads: Seq<(Seq<u8>, u64)>,
    runtime: RuntimeConfig,
)
    requires
        reads.len() > 0,
        !c.pending(),
        (c.read_buf + bytes::concat(pieces(reads.drop_last()))).len() <= runtime.max_request_size,
        request::request_in(c.read_buf + bytes::concat(pieces(reads.drop_last()))) == Ok::<
            Option<(RequestView, nat)>,
            RequestError,
        >(None),
    ensures
        c.after_pieces(reads, runtime) == c.after_data(
            bytes::concat(pieces(reads)),
            reads.last().1,
            runtime,
        ),
    decreases reads.len(),
{
    let all = pieces(reads);
    let rest = reads.skip(1);
    assert(all.skip(1) == pieces(rest));
    assert(all[0] == reads[0].0);
    if reads.len() == 1 {
        assert(bytes::concat(all.skip(1)) == Seq::<u8>::empty());
        assert(all[0] + Seq::<u8>::empty() == all[0]);
        assert(bytes::concat(all) == reads[0].0);
    } else {
        let before = pieces(reads.drop_last());
        assert(before.skip(1) == pieces(rest.drop_last()));
        assert(before[0] == reads[0].0);
        let held = c.read_buf + reads[0].0;
        let more = bytes::concat(before.skip(1));
        assert(c.read_buf + bytes::concat(before) == held + more);
        if request::request_in(held) != Ok::<Option<(RequestView, nat)>, RequestError>(None) {
            request::law_request_stays(held, more);
        }
        let next = c.after_data(reads[0].0, reads[0].1, runtime).0;
        law_pieces_read_as_one(next, rest, runtime);
        assert(next.read_buf + bytes::concat(pieces(rest)) == c.read_buf + bytes::concat(all));
    }
}

/// The last request that a connection may answer is answered with its end, and so is one
/// whose client asks for that: no connection answers more requests than it may.
pub proof fn law_last_answer_closes(
    c: ConnectionView,
    request: RequestView,
    response: ResponseView,
    now: u64,
    runtime: RuntimeConfig,
)
    requires
        c.wf(runtime),
        !c.pending(),
    ensures
        c.requests_served + 1 >= runtime.keep_alive_max || !request::keeps_alive(request)
            ==> c.answered(response, c.keeps_open(request, runtime), now).close_after_write,
        c.answered(response, c.keeps_open(request, runtime), now).requests_served
            <= runtime.keep_alive_max,
{
}

/// A connection that has something left to write is never idle for too long; one that
/// has not is, once the time is over, and stays so until something happens on it.
pub proof fn law_idle(c: ConnectionView, now: u64, later: u64, runtime: RuntimeConfig)
    requires
        now <= later,
    ensures
        c.pending() ==> !c.stale(now, runtime),
        c.stale(now, runtime) ==> c.stale(later, runtime),
        !c.pending() && c.last_active + runtime.keep_alive_timeout_secs * 1000000000 <= now
            ==> c.stale(now, runtime),
{
}

} // verus!
