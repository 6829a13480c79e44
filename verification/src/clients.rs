//! A server that waits for the events of all its clients at once: which connections are
//! open, and how an event changes one of them and no other.
//!
//! A connection is known by a number, the file descriptor of its socket.
use crate::connection::{
    Connection, ConnectionView, ReadAction, ReadActionView, ReadEvent, WriteAction,
    WriteActionView, WriteEvent, WriteEventView,
};
use crate::request::{Request, RequestView};
use crate::response;
use crate::response::{Response, ResponseView};
use crate::runtime::RuntimeConfig;
use crate::server;
use crate::server::{AcceptAction, AcceptEvent};
use std::collections::HashMap;
use vstd::prelude::*;
use vstd::utf8::*;

verus! {

/// The open connections of a server, and its limits.
#[derive(Debug)]
pub struct Server {
    pub connections: HashMap<i32, Connection>,
    pub runtime: RuntimeConfig,
}

/// What a `Server` holds.
#[verifier::ext_equal]
pub struct ServerView {
    pub connections: Map<i32, ConnectionView>,
    pub runtime: RuntimeConfig,
}

/// What connections hold.
pub open spec fn connection_views(connections: Map<i32, Connection>) -> Map<i32, ConnectionView> {
    connections.map_values(|c: Connection| c@)
}

impl View for Server {
    type V = ServerView;

    open spec fn view(&self) -> ServerView {
        ServerView {
            connections: connection_views(self.connections@),
            runtime: self.runtime,
        }
    }
}

impl ServerView {
    /// A server without clients.
    pub open spec fn start(runtime: RuntimeConfig) -> ServerView {
        ServerView { connections: Map::empty(), runtime }
    }

    /// What holds of every server: no more connections are open than may be, and each of
    /// them is as it should be.
    pub open spec fn wf(self) -> bool {
        &&& self.runtime.keep_alive_max > 0
        &&& self.connections.dom().finite()
        &&& self.connections.len() <= self.runtime.max_connections
        &&& forall|fd: i32| #[trigger]
            self.connections.contains_key(fd) ==> self.connections[fd].wf(self.runtime)
    }

    /// The server with `c` as the connection `fd`.
    pub open spec fn with(self, fd: i32, c: ConnectionView) -> ServerView {
        ServerView { connections: self.connections.insert(fd, c), ..self }
    }

    /// The server without the connection `fd`.
    pub open spec fn without(self, fd: i32) -> ServerView {
        ServerView { connections: self.connections.remove(fd), ..self }
    }

    /// The server after accepting at `now`, and what to do; `fd` is the connection that was
    /// accepted, if one was.
    pub open spec fn after_accept(self, fd: i32, event: AcceptEvent, now: u64) -> (
        ServerView,
        AcceptAction,
    ) {
        let action = server::accept_action(self.connections.len(), event, self.runtime);
        if action == AcceptAction::Serve {
            (self.with(fd, ConnectionView::accepted(now)), action)
        } else {
            (self, action)
        }
    }

    /// The server after accepting time after time.
    pub open spec fn after_accepts(self, accepts: Seq<(i32, AcceptEvent, u64)>) -> ServerView
        decreases accepts.len(),
    {
        if accepts.len() == 0 {
            self
        } else {
            let (fd, event, now) = accepts[0];
            self.after_accept(fd, event, now).0.after_accepts(accepts.skip(1))
        }
    }

    /// The server after a read from the connection `fd` at `now`, and what to do.
    pub open spec fn after_read(self, fd: i32, event: ReadEvent, now: u64) -> (
        ServerView,
        Option<ReadActionView>,
    ) {
        if self.connections.contains_key(fd) {
            let (next, action) = self.connections[fd].after_read(event, now, self.runtime);
            (
                if action is Close {
                    self.without(fd)
                } else {
                    self.with(fd, next)
                },
                Some(action),
            )
        } else {
            (self, None)
        }
    }

    /// The server after a write to the connection `fd` at `now`, and what to do.
    pub open spec fn after_write(self, fd: i32, event: WriteEventView, now: u64) -> (
        ServerView,
        Option<WriteActionView>,
    ) {
        if self.connections.contains_key(fd) {
            let (next, action) = self.connections[fd].after_write(event, now, self.runtime);
            (
                if action is Close {
                    self.without(fd)
                } else {
                    self.with(fd, next)
                },
                Some(action),
            )
        } else {
            (self, None)
        }
    }

    /// The server with a response to write to the connection `fd`.
    pub open spec fn answered(
        self,
        fd: i32,
        response: ResponseView,
        keep_alive: bool,
        now: u64,
    ) -> ServerView {
        if self.connections.contains_key(fd) {
            self.with(fd, self.connections[fd].answered(response, keep_alive, now))
        } else {
            self
        }
    }

    /// The server with the connection `fd` noted as one whose client sends no more.
    pub open spec fn peer_closed(self, fd: i32) -> ServerView {
        if self.connections.contains_key(fd) {
            self.with(fd, self.connections[fd].left())
        } else {
            self
        }
    }

    /// Whether the connection `fd` is open and has been idle for too long at `now`.
    pub open spec fn is_stale(self, fd: i32, now: u64) -> bool {
        self.connections.contains_key(fd) && self.connections[fd].stale(now, self.runtime)
    }

    /// The server without the connections that have been idle for too long at `now`.
    pub open spec fn swept(self, now: u64) -> ServerView {
        ServerView {
            connections: self.connections.restrict(
                self.connections.dom().filter(|fd: i32| !self.is_stale(fd, now)),
            ),
            ..self
        }
    }

    /// The events to wait for on the connection `fd`.
    pub open spec fn interest(self, fd: i32) -> Option<u32> {
        if self.connections.contains_key(fd) {
            Some(self.connections[fd].interest())
        } else {
            None
        }
    }

    /// Whether the connection `fd` may stay open after the answer to `request`.
    pub open spec fn keeps_open(self, fd: i32, request: RequestView) -> Option<bool> {
        if self.connections.contains_key(fd) {
            Some(self.connections[fd].keeps_open(request, self.runtime))
        } else {
            None
        }
    }

    /// The bytes to write next to the connection `fd`.
    pub open spec fn unsent(self, fd: i32) -> Option<Seq<u8>> {
        if self.connections.contains_key(fd) {
            Some(self.connections[fd].unsent())
        } else {
            None
        }
    }

    /// Whether the head of a response is being written to the connection `fd`.
    pub open spec fn writes_head(self, fd: i32) -> bool {
        self.connections.contains_key(fd) && self.connections[fd].head_written
            < self.connections[fd].write_head.len()
    }
}

proof fn lemma_views(connections: Map<i32, Connection>)
    ensures
        connection_views(connections).dom() == connections.dom(),
        forall|fd: i32|
            connections.contains_key(fd) ==> #[trigger] connection_views(connections)[fd]
                == connections[fd]@,
        forall|fd: i32, c: Connection| #[trigger]
            connection_views(connections.insert(fd, c)) == connection_views(connections).insert(
                fd,
                c@,
            ),
        forall|fd: i32| #[trigger]
            connection_views(connections.remove(fd)) == connection_views(connections).remove(fd),
{
    assert(connection_views(connections).dom() =~= connections.dom());
    assert forall|fd: i32, c: Connection| #[trigger]
        connection_views(connections.insert(fd, c)) == connection_views(connections).insert(
            fd,
            c@,
        ) by {
        assert(connection_views(connections.insert(fd, c)) =~= connection_views(
            connections,
        ).insert(fd, c@));
    }
    assert forall|fd: i32| #[trigger]
        connection_views(connections.remove(fd)) == connection_views(connections).remove(fd) by {
        assert(connection_views(connections.remove(fd)) =~= connection_views(connections).remove(
            fd,
        ));
    }
}

impl Server {
    /// A server without clients.
    pub fn new(runtime: RuntimeConfig) -> (r: Server)
        ensures
            r@ == ServerView::start(runtime),
            runtime.keep_alive_max > 0 ==> r@.wf(),
    {
        broadcast use vstd::std_specs::hash::group_hash_axioms;

        let r = Server { connections: HashMap::new(), runtime };
        assert(r@.connections =~= Map::empty());
        r
    }

    /// Takes what came of accepting at `now`, and the connection `fd` where one was
    /// accepted: it is opened unless too many are open.
    pub fn accept_ready(&mut self, fd: i32, event: &AcceptEvent, now: u64) -> (r: AcceptAction)
        requires
            old(self)@.wf(),
        ensures
            old(self)@.after_accept(fd, *event, now) == (final(self)@, r),
            final(self)@.wf(),
    {
        broadcast use vstd::std_specs::hash::group_hash_axioms;

        proof {
            lemma_views(self.connections@);
            law_accept_keeps_the_rest(self@, fd, *event, now);
        }
        let action = server::accept_ready(self.connections.len(), event, &self.runtime);
        if action == AcceptAction::Serve {
            self.connections.insert(fd, Connection::new(now));
        }
        action
    }

    /// Takes what came of reading from the connection `fd` at `now`, and says what to do.
    /// A connection that is to be closed is no longer open. Nothing where `fd` is not open.
    pub fn read_ready(&mut self, fd: i32, event: ReadEvent, now: u64) -> (r: Option<ReadAction>)
        requires
            old(self)@.wf(),
        ensures
            old(self)@.after_read(fd, event, now) == (
                final(self)@,
                match r {
                    Some(action) => Some(action@),
                    None => None,
                },
            ),
            final(self)@.wf(),
            r matches Some(action) && action is Dispatch
                ==> !final(self)@.connections[fd].pending(),
    {
        broadcast use vstd::std_specs::hash::group_hash_axioms;

        let ghost before = self@;
        proof {
            lemma_views(self.connections@);
        }
        let mut connection = match self.connections.remove(&fd) {
            Some(connection) => connection,
            None => {
                return None;
            },
        };
        proof {
            lemma_views(self.connections@);
        }
        let action = connection.read_ready(event, now, &self.runtime);
        proof {
            lemma_without(before, fd);
            lemma_with(before, fd, connection@);
        }
        if !matches!(action, ReadAction::Close) {
            self.connections.insert(fd, connection);
            assert(self@.connections =~= before.with(fd, connection@).connections);
        }
        Some(action)
    }

    /// Takes what came of writing to the connection `fd` at `now`, and says what to do. A
    /// connection that is to be closed is no longer open. Nothing where `fd` is not open.
    pub fn write_ready(&mut self, fd: i32, event: WriteEvent, now: u64) -> (r: Option<WriteAction>)
        requires
            old(self)@.wf(),
            old(self)@.connections.contains_key(fd) ==> old(self)@.connections[fd].allows(event@),
        ensures
            old(self)@.after_write(fd, event@, now) == (
                final(self)@,
                match r {
                    Some(action) => Some(action@),
                    None => None,
                },
            ),
            final(self)@.wf(),
            r matches Some(action) && action is Dispatch
                ==> !final(self)@.connections[fd].pending(),
    {
        broadcast use vstd::std_specs::hash::group_hash_axioms;

        let ghost before = self@;
        proof {
            lemma_views(self.connections@);
        }
        let mut connection = match self.connections.remove(&fd) {
            Some(connection) => connection,
            None => {
                return None;
            },
        };
        proof {
            lemma_views(self.connections@);
        }
        let action = connection.write_ready(event, now, &self.runtime);
        proof {
            lemma_without(before, fd);
            if action !is Close {
                lemma_with(before, fd, connection@);
            }
        }
        if !matches!(action, WriteAction::Close) {
            self.connections.insert(fd, connection);
            assert(self@.connections =~= before.with(fd, connection@).connections);
        }
        Some(action)
    }

    /// Takes the response to the request of the connection `fd` that is to be answered.
    pub fn dispatch_request(&mut self, fd: i32, response: Response, keep_alive: bool, now: u64)
        requires
            old(self)@.wf(),
            old(self)@.connections.contains_key(fd) ==> {
                &&& !old(self)@.connections[fd].pending()
                &&& response@.head.len() > 0
                &&& keep_alive ==> old(self)@.connections[fd].requests_served + 1 < old(
                    self,
                )@.runtime.keep_alive_max
            },
        ensures
            final(self)@ == old(self)@.answered(fd, response@, keep_alive, now),
            final(self)@.wf(),
    {
        broadcast use vstd::std_specs::hash::group_hash_axioms;

        let ghost before = self@;
        proof {
            lemma_views(self.connections@);
        }
        if let Some(found) = self.connections.remove(&fd) {
            let mut connection = found;
            proof {
                lemma_views(self.connections@);
            }
            connection.dispatch_request(response, keep_alive, now, &self.runtime);
            proof {
                lemma_with(before, fd, connection@);
            }
            self.connections.insert(fd, connection);
            assert(self@.connections =~= before.with(fd, connection@).connections);
        } else {
            assert(self@.connections =~= before.connections);
        }
    }

    /// Takes that the client of the connection `fd` sends no more.
    pub fn mark_peer_closed(&mut self, fd: i32)
        requires
            old(self)@.wf(),
        ensures
            final(self)@ == old(self)@.peer_closed(fd),
            final(self)@.wf(),
    {
        broadcast use vstd::std_specs::hash::group_hash_axioms;

        let ghost before = self@;
        proof {
            lemma_views(self.connections@);
        }
        if let Some(found) = self.connections.remove(&fd) {
            let mut connection = found;
            proof {
                lemma_views(self.connections@);
            }
            connection.mark_peer_closed();
            proof {
                lemma_with(before, fd, connection@);
            }
            self.connections.insert(fd, connection);
            assert(self@.connections =~= before.with(fd, connection@).connections);
        } else {
            assert(self@.connections =~= before.connections);
        }
    }

    /// Closes the connection `fd`.
    pub fn close_connection(&mut self, fd: i32)
        requires
            old(self)@.wf(),
        ensures
            final(self)@ == old(self)@.without(fd),
            final(self)@.wf(),
    {
        broadcast use vstd::std_specs::hash::group_hash_axioms;

        proof {
            lemma_views(self.connections@);
            lemma_without(self@, fd);
        }
        self.connections.remove(&fd);
    }

    /// Whether the connection `fd` may stay open after the answer to `request`. Nothing where
    /// `fd` is not open.
    pub fn keeps_open(&self, fd: i32, request: &Request) -> (r: Option<bool>)
        ensures
            r == self@.keeps_open(fd, request@),
            r == Some(true) ==> self@.connections[fd].requests_served + 1
                < self@.runtime.keep_alive_max,
    {
        broadcast use vstd::std_specs::hash::group_hash_axioms;

        proof {
            lemma_views(self.connections@);
        }
        match self.connections.get(&fd) {
            Some(connection) => {
                assert(self@.connections.contains_key(fd));
                Some(connection.keeps_open(request, &self.runtime))
            },
            None => None,
        }
    }

    /// The bytes to write next to the connection `fd`. Nothing where `fd` is not open.
    pub fn unsent(&self, fd: i32) -> (r: Option<&[u8]>)
        requires
            self@.wf(),
        ensures
            match r {
                Some(bytes) => self@.unsent(fd) == Some(bytes@),
                None => self@.unsent(fd) is None,
            },
    {
        broadcast use vstd::std_specs::hash::group_hash_axioms;

        proof {
            lemma_views(self.connections@);
        }
        match self.connections.get(&fd) {
            Some(connection) => {
                assert(self@.connections.contains_key(fd));
                assert(connection@.wf(self@.runtime));
                Some(connection.unsent())
            },
            None => None,
        }
    }

    /// Whether the head of a response is being written to the connection `fd`.
    pub fn is_writing_head(&self, fd: i32) -> (r: bool)
        ensures
            r == self@.writes_head(fd),
    {
        broadcast use vstd::std_specs::hash::group_hash_axioms;

        proof {
            lemma_views(self.connections@);
        }
        match self.connections.get(&fd) {
            Some(connection) => {
                assert(self@.connections.contains_key(fd));
                connection.head_written < connection.write_head.len()
            },
            None => false,
        }
    }

    /// The events to wait for on the connection `fd`. Nothing where `fd` is not open.
    pub fn refresh_interest(&self, fd: i32) -> (r: Option<u32>)
        ensures
            r == self@.interest(fd),
    {
        broadcast use vstd::std_specs::hash::group_hash_axioms;

        proof {
            lemma_views(self.connections@);
        }
        match self.connections.get(&fd) {
            Some(connection) => {
                assert(self@.connections.contains_key(fd));
                Some(connection.refresh_interest())
            },
            None => None,
        }
    }

    /// Closes the connections that have been idle for too long at `now`, and says which.
    pub fn sweep_idle(&mut self, now: u64) -> (r: Vec<i32>)
        requires
            old(self)@.wf(),
        ensures
            final(self)@.wf(),
            final(self)@.runtime == old(self)@.runtime,
            forall|fd: i32| #[trigger] r@.contains(fd) <==> old(self)@.is_stale(fd, now),
            r@.no_duplicates(),
            final(self)@.connections == old(self)@.connections.remove_keys(r@.to_set()),
            final(self)@ == old(self)@.swept(now),
    {
        broadcast use vstd::std_specs::hash::group_hash_axioms;

        let ghost before = self@;
        let stale = self.stale(now);
        let mut i: usize = 0;
        assert(self@.connections =~= before.connections.remove_keys(stale@.take(0).to_set()));
        while i < stale.len()
            invariant
                i <= stale.len(),
                self@.wf(),
                self@.runtime == before.runtime,
                self@.connections == before.connections.remove_keys(
                    stale@.take(i as int).to_set(),
                ),
            decreases stale.len() - i,
        {
            let fd = stale[i];
            self.close_connection(fd);
            assert(stale@.take(i + 1) =~= stale@.take(i as int).push(fd));
            let ghost done = stale@.take(i as int);
            assert(done.push(fd).to_set() =~= done.to_set().insert(fd)) by {
                assert forall|x: i32| #[trigger]
                    done.push(fd).to_set().contains(x) <==> done.to_set().insert(fd).contains(x) by {
                    lemma_push_contains(done, fd, x);
                    assert(done.push(fd).to_set().contains(x) <==> done.push(fd).contains(x));
                    assert(done.to_set().contains(x) <==> done.contains(x));
                }
            }
            i = i + 1;
            assert(self@.connections =~= before.connections.remove_keys(
                stale@.take(i as int).to_set(),
            ));
        }
        assert(stale@.take(i as int) =~= stale@);
        assert(self@.connections =~= before.swept(now).connections) by {
            assert forall|fd: i32| #[trigger]
                self@.connections.contains_key(fd) <==> before.swept(
                    now,
                ).connections.contains_key(fd) by {
                assert(stale@.to_set().contains(fd) <==> stale@.contains(fd));
            }
        }
        stale
    }

    /// The connections that have been idle for too long at `now`.
    fn stale(&self, now: u64) -> (r: Vec<i32>)
        ensures
            forall|fd: i32| #[trigger] r@.contains(fd) <==> self@.is_stale(fd, now),
            r@.no_duplicates(),
    {
        broadcast use vstd::std_specs::hash::group_hash_axioms;

        let mut out: Vec<i32> = Vec::new();
        proof {
            lemma_views(self.connections@);
        }
        for fd in iter: self.connections.keys()
            invariant
                connection_views(self.connections@).dom() == self.connections@.dom(),
                forall|fd: i32|
                    self.connections@.contains_key(fd) ==> #[trigger] connection_views(
                        self.connections@,
                    )[fd] == self.connections@[fd]@,
                iter.seq().unref().to_set() == self.connections@.dom(),
                iter.seq().no_duplicates(),
                out@.no_duplicates(),
                forall|fd: i32| #[trigger]
                    out@.contains(fd) <==> iter.seq().unref().take(iter.index()).contains(fd)
                        && self@.is_stale(fd, now),
        {
            let ghost keys = iter.seq().unref();
            let ghost n = iter.index();
            let ghost before = out@;
            proof {
                assert(keys[n] == *fd);
                assert(keys.to_set().contains(*fd)) by {
                    assert(keys.contains(keys[n]));
                }
                assert(keys.take(n + 1) =~= keys.take(n).push(*fd));
                if keys.take(n).contains(*fd) {
                    let j = keys.take(n).index_of(*fd);
                    assert(iter.seq()[j] == iter.seq()[n]);
                }
                assert(!before.contains(*fd));
            }
            match self.connections.get(fd) {
                Some(connection) => {
                    assert(self@.connections[*fd] == connection@);
                    if connection.is_stale(now, &self.runtime) {
                        out.push(*fd);
                    }
                },
                None => {},
            }
            assert(out@ == if self@.is_stale(*fd, now) {
                before.push(*fd)
            } else {
                before
            });
            assert forall|x: i32| #[trigger] out@.contains(x) <==> keys.take(n + 1).contains(x)
                && self@.is_stale(x, now) by {
                lemma_push_contains(keys.take(n), *fd, x);
                lemma_push_contains(before, *fd, x);
            }
        }
        proof {
            let keys = vstd::std_specs::iter::IteratorSpec::remaining(
                &self.connections.keys(),
            ).unref();
            assert(keys.take(keys.len() as int) =~= keys);
            assert forall|fd: i32| #[trigger] out@.contains(fd) <==> self@.is_stale(fd, now) by {
                assert(keys.to_set().contains(fd) <==> keys.contains(fd));
            }
        }
        out
    }
}

/// A sequence with one more element holds that element besides its own.
proof fn lemma_push_contains(s: Seq<i32>, last: i32, x: i32)
    ensures
        s.push(last).contains(x) <==> s.contains(x) || x == last,
{
    assert(s.push(last)[s.len() as int] == last);
    if s.contains(x) {
        assert(s.push(last)[s.index_of(x)] == x);
    }
}

/// A server stays as it should be where one of its connections changes to one that is.
proof fn lemma_with(s: ServerView, fd: i32, c: ConnectionView)
    requires
        s.wf(),
        s.connections.contains_key(fd),
        c.wf(s.runtime),
    ensures
        s.with(fd, c).wf(),
{
    assert(s.with(fd, c).connections.dom() =~= s.connections.dom());
}

/// A server stays as it should be where a connection is closed.
proof fn lemma_without(s: ServerView, fd: i32)
    requires
        s.wf(),
    ensures
        s.without(fd).wf(),
{
    assert(s.without(fd).connections.dom() =~= s.connections.dom().remove(fd));
}

/// Accepting opens no more connections than may be, and leaves those that are open as they
/// are; while as many are open as may be, no connection is opened, and who comes is told so.
pub proof fn law_accept_keeps_the_rest(s: ServerView, fd: i32, event: AcceptEvent, now: u64)
    requires
        s.wf(),
    ensures
        ({
            let (next, action) = s.after_accept(fd, event, now);
            &&& next.wf()
            &&& forall|other: i32|
                other != fd ==> (#[trigger] next.connections.contains_key(other)
                    <==> s.connections.contains_key(other))
            &&& forall|other: i32|
                other != fd && s.connections.contains_key(other) ==> #[trigger]
                    next.connections[other] == s.connections[other]
            &&& event is Accepted && s.connections.len() == s.runtime.max_connections ==> next == s
                && action.sent() == Some(encode_utf8(response::busy_text()))
            &&& event is Accepted && s.connections.len() < s.runtime.max_connections
                ==> next.connections.contains_key(fd) && next.connections[fd]
                == ConnectionView::accepted(now) && action.sent() is None
        }),
{
    let all = s.connections.insert(fd, ConnectionView::accepted(now));
    assert(all.dom() =~= s.connections.dom().insert(fd));
}

/// However many clients come, no more connections are open than may be, and those that were
/// open are still there, unchanged, as long as none of their numbers is given to another.
pub proof fn law_open_connections_stay_within_limit(
    s: ServerView,
    accepts: Seq<(i32, AcceptEvent, u64)>,
)
    requires
        s.wf(),
    ensures
        ({
            let last = s.after_accepts(accepts);
            &&& last.wf()
            &&& last.connections.len() <= last.runtime.max_connections
            &&& last.runtime == s.runtime
            &&& forall|fd: i32|
                s.connections.contains_key(fd) && (forall|i: int|
                    0 <= i < accepts.len() ==> (#[trigger] accepts[i]).0 != fd) ==> #[trigger]
                    last.connections.contains_key(fd) && last.connections[fd] == s.connections[fd]
        }),
    decreases accepts.len(),
{
    if accepts.len() > 0 {
        let (fd, event, now) = accepts[0];
        let next = s.after_accept(fd, event, now).0;
        let rest = accepts.skip(1);
        law_accept_keeps_the_rest(s, fd, event, now);
        law_open_connections_stay_within_limit(next, rest);
        let last = next.after_accepts(rest);
        assert forall|other: i32|
            s.connections.contains_key(other) && (forall|i: int|
                0 <= i < accepts.len() ==> (#[trigger] accepts[i]).0 != other) implies #[trigger]
            last.connections.contains_key(other) && last.connections[other]
            == s.connections[other] by {
            assert(accepts[0].0 != other);
            assert forall|i: int| 0 <= i < rest.len() implies (#[trigger] rest[i]).0 != other by {
                assert(rest[i] == accepts[i + 1]);
            }
            assert(next.connections.contains_key(other));
            assert(next.connections[other] == s.connections[other]);
        }
    }
}

/// What happens on one connection changes no other, and opens none.
pub proof fn law_connections_are_apart(
    s: ServerView,
    fd: i32,
    read: ReadEvent,
    write: WriteEventView,
    response: ResponseView,
    keep_alive: bool,
    now: u64,
)
    ensures
        forall|other: i32, next: ServerView|
            other != fd && (next == s.after_read(fd, read, now).0 || next == s.after_write(
                fd,
                write,
                now,
            ).0 || next == s.answered(fd, response, keep_alive, now) || next == s.peer_closed(fd)
                || next == s.without(fd)) ==> {
                &&& #[trigger] next.connections.contains_key(other) <==> s.connections.contains_key(
                    other,
                )
                &&& next.connections[other] == s.connections[other]
                &&& next.connections.contains_key(fd) ==> s.connections.contains_key(fd)
            },
{
}

} // verus!
