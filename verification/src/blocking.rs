//! A client's connection to a server that gives each client a thread of its own: how its
//! requests are read, and how its turns go.
use crate::bytes;
use crate::connection::{ConnectionView, ReadActionView};
use crate::request;
use crate::request::{Request, RequestError, RequestView};
use crate::response;
use crate::response::{Response, ResponseBody, ResponseView};
use crate::rule;
use crate::rule::ProxyRule;
use crate::runtime::RuntimeConfig;
use crate::server;
use crate::server::{handle_request, Route};
use crate::upstream::{FailureKind, IoFailure};
use vstd::prelude::*;

verus! {

/// Why a request could not be read.
#[derive(Debug)]
pub enum ReadFailure {
    /// The client closed the connection in the middle of a request.
    ClosedEarly,
    /// The request is larger than it may be.
    TooLarge,
    /// What was read is not a request.
    Invalid(RequestError),
    Io(IoFailure),
}

impl ReadFailure {
    /// The failure in words.
    pub open spec fn text(self) -> Seq<char> {
        match self {
            ReadFailure::ClosedEarly => "connection closed mid-request"@,
            ReadFailure::TooLarge => "request exceeds maximum size"@,
            ReadFailure::Invalid(error) => error.text(),
            ReadFailure::Io(failure) => failure.message@,
        }
    }

    /// Puts the failure in words.
    pub fn message(&self) -> (r: &str)
        ensures
            r@ == self.text(),
    {
        match self {
            ReadFailure::ClosedEarly => "connection closed mid-request",
            ReadFailure::TooLarge => "request exceeds maximum size",
            ReadFailure::Invalid(error) => error.message(),
            ReadFailure::Io(failure) => failure.message.as_str(),
        }
    }

    /// Whether the failure is an ordinary end of a connection: the client has left, or
    /// has been silent for too long.
    pub open spec fn is_end(self) -> bool {
        match self {
            ReadFailure::ClosedEarly => true,
            ReadFailure::Io(failure) => failure.kind == FailureKind::WouldBlock || failure.kind
                == FailureKind::TimedOut || failure.kind == FailureKind::UnexpectedEof,
            _ => false,
        }
    }

    /// Whether the failure is an ordinary end of a connection.
    pub fn ends_quietly(&self) -> (r: bool)
        ensures
            r == self.is_end(),
    {
        match self {
            ReadFailure::ClosedEarly => true,
            ReadFailure::Io(failure) => failure.kind == FailureKind::WouldBlock || failure.kind
                == FailureKind::TimedOut || failure.kind == FailureKind::UnexpectedEof,
            ReadFailure::TooLarge | ReadFailure::Invalid(_) => false,
        }
    }

    /// What the client is told of the failure: that its request is too large, or is none.
    pub open spec fn answer(self, runtime: RuntimeConfig) -> Option<ResponseView> {
        match self {
            ReadFailure::TooLarge => Some(refused(413, "Payload Too Large"@, runtime)),
            ReadFailure::Invalid(_) => Some(refused(400, "Bad Request"@, runtime)),
            _ => None,
        }
    }

    /// What the client is told of the failure.
    pub fn refusal(&self, runtime: &RuntimeConfig) -> (r: Option<Response>)
        ensures
            match r {
                Some(response) => self.answer(*runtime) == Some(response@),
                None => self.answer(*runtime) is None,
            },
    {
        match self {
            ReadFailure::TooLarge => Some(
                Response::close(
                    response::plain_response(
                        413,
                        "Payload Too Large",
                        "Payload Too Large",
                        false,
                        runtime,
                    ),
                ),
            ),
            ReadFailure::Invalid(_) => Some(
                Response::close(
                    response::plain_response(400, "Bad Request", "Bad Request", false, runtime),
                ),
            ),
            ReadFailure::ClosedEarly | ReadFailure::Io(_) => None,
        }
    }
}

/// A refusal that ends the connection.
pub open spec fn refused(status: u16, reason: Seq<char>, runtime: RuntimeConfig) -> ResponseView {
    ResponseView {
        head: response::plain_bytes(status, reason, reason, false, runtime),
        body: ResponseBody::Empty,
        close: true,
    }
}

/// What to do with the bytes that a buffered reader has at hand.
#[derive(Debug)]
pub enum ReadStep {
    /// Drop all of them from the reader, and wait for more.
    More,
    /// The client has closed the connection between two requests.
    Closed,
    /// The request is complete. Drop `used` bytes from the reader: those that belong to
    /// the request and no more.
    Complete { request: Request, used: usize },
    Failed(ReadFailure),
}

/// What a `ReadStep` says.
#[verifier::ext_equal]
pub enum ReadStepView {
    More,
    Closed,
    Complete { request: RequestView, used: nat },
    Failed(ReadFailure),
}

impl View for ReadStep {
    type V = ReadStepView;

    open spec fn view(&self) -> ReadStepView {
        match *self {
            ReadStep::More => ReadStepView::More,
            ReadStep::Closed => ReadStepView::Closed,
            ReadStep::Complete { request, used } => ReadStepView::Complete {
                request: request@,
                used: used as nat,
            },
            ReadStep::Failed(failure) => ReadStepView::Failed(failure),
        }
    }
}

/// What to do with the bytes `available`, where `scratch` came before them and has been
/// dropped already: of a request that takes `n` bytes, those are dropped that `scratch`
/// did not hold.
pub open spec fn read_step(scratch: Seq<u8>, available: Seq<u8>, max: usize) -> ReadStepView {
    let all = scratch + available;
    if available.len() == 0 {
        if scratch.len() == 0 {
            ReadStepView::Closed
        } else {
            ReadStepView::Failed(ReadFailure::ClosedEarly)
        }
    } else if all.len() > max {
        ReadStepView::Failed(ReadFailure::TooLarge)
    } else {
        match request::request_in(all) {
            Err(error) => ReadStepView::Failed(ReadFailure::Invalid(error)),
            Ok(None) => ReadStepView::More,
            Ok(Some((found, n))) => ReadStepView::Complete {
                request: found,
                used: if n > scratch.len() {
                    (n - scratch.len()) as nat
                } else {
                    0
                },
            },
        }
    }
}

/// Takes the bytes that a buffered reader has at hand, none if the client has closed the
/// connection. `scratch` holds what came before them of the same request.
pub fn read_request_blocking(scratch: &mut Vec<u8>, available: &[u8], max_request_size: usize) -> (r:
    ReadStep)
    ensures
        final(scratch)@ == old(scratch)@ + available@,
        r@ == read_step(old(scratch)@, available@, max_request_size),
        r is More ==> final(scratch)@.len() <= max_request_size,
        r matches ReadStep::Complete { used, .. } ==> used <= available@.len(),
{
    if available.len() == 0 {
        assert(scratch@ + available@ == scratch@);
        return if scratch.len() == 0 {
            ReadStep::Closed
        } else {
            ReadStep::Failed(ReadFailure::ClosedEarly)
        };
    }
    let before: usize = scratch.len();
    bytes::append(scratch, available);
    if scratch.len() > max_request_size {
        return ReadStep::Failed(ReadFailure::TooLarge);
    }
    match Request::parse_from_buffer(scratch.as_slice()) {
        Err(error) => ReadStep::Failed(ReadFailure::Invalid(error)),
        Ok(None) => ReadStep::More,
        Ok(Some((request, n))) => ReadStep::Complete { request, used: n.saturating_sub(before) },
    }
}

/// What to do with what was read in a turn of a connection.
#[derive(Debug)]
pub enum Turn<'a> {
    /// Close the connection.
    Close,
    /// Send the response, where there is one, close the connection and report why.
    Fail { failure: ReadFailure, response: Option<Response> },
    /// Send this response and close the connection.
    Refuse(Response),
    /// Pass the request to the upstream server of a rule and its answer to the client.
    Proxy { request: Request, rule: &'a ProxyRule, keep_alive: bool },
    /// Answer the request with a file.
    Files { request: Request, keep_alive: bool },
}

/// Whether the connection may stay open after the turn that follows `served` others.
pub open spec fn stays_open(served: usize, request: RequestView, runtime: RuntimeConfig) -> bool {
    served + 1 < runtime.keep_alive_max && request::keeps_alive(request)
}

/// Whether `turn` is what to do with what was read in the turn of a connection that follows
/// `served` others.
pub open spec fn is_turn(
    served: usize,
    read: Result<Option<Request>, ReadFailure>,
    proxies: Seq<ProxyRule>,
    runtime: RuntimeConfig,
    turn: Turn,
) -> bool {
    match read {
        Ok(None) => turn is Close,
        Err(error) => if error.is_end() {
            turn is Close
        } else {
            &&& turn matches Turn::Fail { failure, response }
            &&& failure == error
            &&& match response {
                Some(answer) => error.answer(runtime) == Some(answer@),
                None => error.answer(runtime) is None,
            }
        },
        Ok(Some(got)) => {
            let covered = server::some_rule_covers(rule::rule_views(proxies), got@.target);
            match turn {
                Turn::Refuse(answer) => {
                    &&& covered && request::is_chunked(got@.headers)
                    &&& answer@ == server::not_implemented(runtime)
                },
                Turn::Proxy { request, rule, keep_alive } => {
                    &&& covered && !request::is_chunked(got@.headers)
                    &&& request == got
                    &&& server::is_rule(proxies, got@.target, *rule)
                    &&& keep_alive == stays_open(served, got@, runtime)
                },
                Turn::Files { request, keep_alive } => {
                    &&& !covered
                    &&& request == got
                    &&& keep_alive == stays_open(served, got@, runtime)
                },
                _ => false,
            }
        },
    }
}

/// Decides what to do with what was read in the turn of a connection that follows
/// `served` others.
pub fn handle_connection<'a>(
    served: usize,
    read: Result<Option<Request>, ReadFailure>,
    proxies: &'a [ProxyRule],
    runtime: &RuntimeConfig,
) -> (r: Turn<'a>)
    requires
        served < runtime.keep_alive_max,
    ensures
        is_turn(served, read, proxies@, *runtime, r),
{
    let request = match read {
        Ok(Some(request)) => request,
        Ok(None) => {
            return Turn::Close;
        },
        Err(failure) => {
            if failure.ends_quietly() {
                return Turn::Close;
            }
            let response = failure.refusal(runtime);
            return Turn::Fail { failure, response };
        },
    };
    let keep_alive = served + 1 < runtime.keep_alive_max && request::wants_keep_alive(&request);
    match handle_request(&request, proxies, runtime) {
        Route::Respond(response) => Turn::Refuse(response),
        Route::Proxy(rule) => Turn::Proxy { request, rule, keep_alive },
        Route::Files => Turn::Files { request, keep_alive },
    }
}

/// The number of turns after one that follows `served` others, where there is to be
/// another: the connection stays open and its response does not end it.
pub open spec fn turns_after(served: usize, keep_alive: bool, close: bool) -> Option<usize> {
    if close || !keep_alive {
        None
    } else {
        Some((served + 1) as usize)
    }
}

/// The number of turns after one that follows `served` others, where there is to be
/// another: the connection stays open and its response does not end it.
pub fn next_turn(served: usize, keep_alive: bool, close: bool) -> (r: Option<usize>)
    requires
        keep_alive ==> served < usize::MAX,
    ensures
        r == turns_after(served, keep_alive, close),
{
    if close || !keep_alive {
        None
    } else {
        Some(served + 1)
    }
}

/// A request leaves the reader whole, in however many pieces it comes: what was dropped
/// before the piece that completes it and what is dropped of that piece are the bytes of
/// the request, and no byte after it.
pub proof fn law_request_leaves_the_reader_whole(scratch: Seq<u8>, available: Seq<u8>, max: usize)
    requires
        available.len() > 0,
        (scratch + available).len() <= max,
        request::request_in(scratch) == Ok::<Option<(RequestView, nat)>, RequestError>(None),
        request::request_in(scratch + available) matches Ok(Some(_)),
    ensures
        ({
            let (found, n) = (request::request_in(scratch + available)->Ok_0)->0;
            read_step(scratch, available, max) matches ReadStepView::Complete { request, used }
                && request == found && scratch + available.take(used as int) == (scratch
                + available).take(n as int)
        }),
{
    let all = scratch + available;
    let (found, n) = (request::request_in(all)->Ok_0)->0;
    request::law_request_fits(all);
    if n < scratch.len() {
        lemma_request_needs_its_bytes(all, n, scratch.len() as int);
        assert(all.take(scratch.len() as int) =~= scratch);
    }
    assert(scratch + available.take(n - scratch.len()) =~= all.take(n as int));
}

/// A request is complete once all of its bytes are there.
proof fn lemma_request_needs_its_bytes(all: Seq<u8>, n: nat, k: int)
    requires
        request::request_in(all) matches Ok(Some((_, used))) && used == n,
        n <= k <= all.len(),
    ensures
        request::request_in(all.take(k)) == request::request_in(all),
{
    let part = all.take(k);
    bytes::lemma_head_end(all, 0);
    bytes::lemma_head_end(part, 0);
    let end = bytes::head_end(all)->0 as int;
    assert(bytes::blank_line_at(part, end));
    assert forall|i: int| 0 <= i < end implies !bytes::blank_line_at(part, i) by {
        assert(!bytes::blank_line_at(all, i));
    }
    assert(bytes::head_end(part) == Some(end as nat));
    assert(part.take(end) =~= all.take(end));
    assert(part.subrange(end + 4, n as int) =~= all.subrange(end + 4, n as int));
}

/// What comes of reading one request from a buffered reader that gives out `pieces` one
/// after another and then ends: the last step, and how many bytes were dropped.
pub open spec fn after_pieces(scratch: Seq<u8>, pieces: Seq<Seq<u8>>, max: usize) -> (
    ReadStepView,
    nat,
)
    decreases pieces.len(),
{
    if pieces.len() == 0 {
        (read_step(scratch, Seq::empty(), max), 0)
    } else {
        match read_step(scratch, pieces[0], max) {
            ReadStepView::More => {
                let (last, dropped) = after_pieces(scratch + pieces[0], pieces.skip(1), max);
                (last, pieces[0].len() + dropped)
            },
            ReadStepView::Complete { request, used } => (
                ReadStepView::Complete { request, used },
                used,
            ),
            failed => (failed, 0),
        }
    }
}

/// However the bytes of a request and what follows it are cut into pieces, the request is
/// read, and exactly its bytes are dropped from the reader: the next request is read
/// whole.
pub proof fn law_pieces_give_the_request(
    sent: Seq<u8>,
    rest: Seq<u8>,
    pieces: Seq<Seq<u8>>,
    max: usize,
)
    requires
        request::request_in(sent) matches Ok(Some((_, used))) && used == sent.len(),
        sent.len() + rest.len() <= max,
        bytes::concat(pieces) == sent + rest,
        forall|i: int| 0 <= i < pieces.len() ==> (#[trigger] pieces[i]).len() > 0,
    ensures
        ({
            let (last, dropped) = after_pieces(Seq::empty(), pieces, max);
            &&& last matches ReadStepView::Complete { request, .. }
            &&& request == ((request::request_in(sent)->Ok_0)->0).0
            &&& dropped == sent.len()
        }),
{
    request::law_request_fits(sent);
    assert(Seq::<u8>::empty() + bytes::concat(pieces) =~= sent + rest);
    lemma_pieces(Seq::empty(), sent, rest, pieces, max);
}

proof fn lemma_pieces(
    scratch: Seq<u8>,
    sent: Seq<u8>,
    rest: Seq<u8>,
    pieces: Seq<Seq<u8>>,
    max: usize,
)
    requires
        request::request_in(sent) matches Ok(Some((_, used))) && used == sent.len(),
        sent.len() + rest.len() <= max,
        scratch.len() < sent.len(),
        scratch + bytes::concat(pieces) == sent + rest,
        forall|i: int| 0 <= i < pieces.len() ==> (#[trigger] pieces[i]).len() > 0,
    ensures
        ({
            let (last, dropped) = after_pieces(scratch, pieces, max);
            &&& last matches ReadStepView::Complete { request, .. }
            &&& request == ((request::request_in(sent)->Ok_0)->0).0
            &&& scratch.len() + dropped == sent.len()
        }),
    decreases pieces.len(),
{
    let whole = sent + rest;
    if pieces.len() == 0 {
        assert(scratch.len() == whole.len());
    } else {
        let less = pieces.skip(1);
        let held = scratch + pieces[0];
        let more = bytes::concat(less);
        assert(held + more =~= whole);
        assert(held.len() <= whole.len());
        assert(pieces[0].len() > 0);
        if held.len() >= sent.len() {
            assert(held =~= sent + held.skip(sent.len() as int)) by {
                assert forall|i: int| 0 <= i < sent.len() implies held[i] == sent[i] by {
                    assert(held[i] == (held + more)[i]);
                    assert(whole[i] == sent[i]);
                }
            }
            request::law_request_stays(sent, held.skip(sent.len() as int));
        } else {
            let missing = sent.skip(held.len() as int);
            assert(sent =~= held + missing) by {
                assert forall|i: int| 0 <= i < held.len() implies held[i] == sent[i] by {
                    assert(held[i] == (held + more)[i]);
                    assert(whole[i] == sent[i]);
                }
            }
            if request::request_in(held) != Ok::<Option<(RequestView, nat)>, RequestError>(None) {
                request::law_request_stays(held, missing);
                request::law_request_fits(held);
            }
            assert forall|i: int| 0 <= i < less.len() implies (#[trigger] less[i]).len() > 0 by {
                assert(less[i] == pieces[i + 1]);
            }
            lemma_pieces(held, sent, rest, less, max);
        }
    }
}

/// Both runtimes refuse alike: a client whose bytes are too many or not a request is sent
/// the same bytes by either.
pub proof fn law_runtimes_refuse_alike(
    c: ConnectionView,
    data: Seq<u8>,
    now: u64,
    runtime: RuntimeConfig,
)
    requires
        !c.pending(),
        data.len() > 0,
    ensures
        match read_step(c.read_buf, data, runtime.max_request_size) {
            ReadStepView::Failed(failure) => failure.answer(runtime) is Some && c.after_data(
                data,
                now,
                runtime,
            ).0.write_head == (failure.answer(runtime)->0).head && c.after_data(
                data,
                now,
                runtime,
            ).0.close_after_write,
            ReadStepView::Complete { request, .. } => c.after_data(data, now, runtime).1
                == ReadActionView::Dispatch(request),
            _ => c.after_data(data, now, runtime).1 == ReadActionView::Read,
        },
{
}

} // verus!
