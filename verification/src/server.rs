//! The server around its connections: where a request goes, what an event asks for, who
//! is let in, and what is said at the start.
use crate::config::{Config, ConfigView};
use crate::connection::{EPOLLERR, EPOLLHUP, EPOLLIN, EPOLLOUT, EPOLLRDHUP};
use crate::number;
use crate::request;
use crate::request::{Request, RequestView};
use crate::response;
use crate::response::{Response, ResponseBody, ResponseView};
use crate::rule;
use crate::rule::{ProxyRule, ProxyRuleView};
use crate::runtime::RuntimeConfig;
use crate::text;
use crate::upstream::{is_fd_exhausted, FailureKind, IoFailure, ProxyError};
use vstd::prelude::*;
use vstd::utf8::*;

verus! {

/// Where a request goes.
#[derive(Debug)]
pub enum Route<'a> {
    /// Nowhere: this is the answer.
    Respond(Response),
    /// To the upstream server of a rule.
    Proxy(&'a ProxyRule),
    /// To the files.
    Files,
}

/// The answer to a request that a rule covers but that cannot be passed on.
pub open spec fn not_implemented(runtime: RuntimeConfig) -> ResponseView {
    ResponseView {
        head: response::plain_bytes(
            501,
            "Not Implemented"@,
            "Chunked transfer encoding is not supported"@,
            false,
            runtime,
        ),
        body: ResponseBody::Empty,
        close: true,
    }
}

/// The answer where an upstream server gives none.
pub open spec fn no_gateway(runtime: RuntimeConfig) -> ResponseView {
    ResponseView {
        head: response::plain_bytes(502, "Bad Gateway"@, "Bad Gateway"@, false, runtime),
        body: ResponseBody::Empty,
        close: true,
    }
}

/// Whether some rule covers the path of `target`.
pub open spec fn some_rule_covers(rules: Seq<ProxyRuleView>, target: Seq<char>) -> bool {
    exists|i: int|
        0 <= i < rules.len() && (#[trigger] rules[i]).covers(text::before(target, '?'))
}

/// Whether `found` is the rule for `target`.
pub open spec fn is_rule(rules: Seq<ProxyRule>, target: Seq<char>, found: ProxyRule) -> bool {
    exists|i: int|
        #[trigger] rule::is_rule_for(rule::rule_views(rules), text::before(target, '?'), i)
            && found == rules[i]
}

/// Whether a request goes where `route` says.
pub open spec fn goes(
    request: RequestView,
    proxies: Seq<ProxyRule>,
    runtime: RuntimeConfig,
    route: Route,
) -> bool {
    match route {
        Route::Files => !some_rule_covers(rule::rule_views(proxies), request.target),
        Route::Respond(answer) => {
            &&& some_rule_covers(rule::rule_views(proxies), request.target)
            &&& request::is_chunked(request.headers)
            &&& answer@ == not_implemented(runtime)
        },
        Route::Proxy(found) => {
            &&& some_rule_covers(rule::rule_views(proxies), request.target)
            &&& !request::is_chunked(request.headers)
            &&& is_rule(proxies, request.target, *found)
        },
    }
}

/// Decides where a request goes: to the upstream server of the rule for it, to no one if
/// it comes in chunks, and to the files where no rule covers it.
pub fn handle_request<'a>(
    request: &Request,
    proxies: &'a [ProxyRule],
    runtime: &RuntimeConfig,
) -> (r: Route<'a>)
    ensures
        goes(request@, proxies@, *runtime, r),
{
    match rule::find_proxy(proxies, request.target.as_str()) {
        None => Route::Files,
        Some(found) => {
            proof {
                let views = rule::rule_views(proxies@);
                let path = text::before(request@.target, '?');
                let i = choose|i: int| #[trigger]
                    rule::is_rule_for(views, path, i) && *found == proxies@[i];
                assert(views[i].covers(path));
            }
            if request::has_chunked_transfer_encoding(request) {
                Route::Respond(
                    Response::close(
                        response::plain_response(
                            501,
                            "Not Implemented",
                            "Chunked transfer encoding is not supported",
                            false,
                            runtime,
                        ),
                    ),
                )
            } else {
                Route::Proxy(found)
            }
        },
    }
}

/// The answer where an upstream server gives none.
pub fn bad_gateway(runtime: &RuntimeConfig) -> (r: Response)
    ensures
        r@ == no_gateway(*runtime),
{
    Response::close(
        response::plain_response(502, "Bad Gateway", "Bad Gateway", false, runtime),
    )
}

/// The answer to a request that was passed on, where `outcome` is what came of it.
pub open spec fn answer_to_proxied(
    outcome: Result<Response, ProxyError>,
    runtime: RuntimeConfig,
) -> ResponseView {
    match outcome {
        Ok(response) => response@,
        Err(_) => no_gateway(runtime),
    }
}

/// The answer to a request that was passed on, where `outcome` is what came of it.
pub fn proxy_answer(outcome: Result<Response, ProxyError>, runtime: &RuntimeConfig) -> (r: Response)
    ensures
        outcome matches Ok(response) ==> r == response,
        r@ == answer_to_proxied(outcome, *runtime),
{
    match outcome {
        Ok(response) => response,
        Err(_) => bad_gateway(runtime),
    }
}

/// What an event on a connection asks for.
#[derive(Clone, Copy, Debug, PartialEq, Eq, Structural)]
pub enum EventPlan {
    /// To close the connection.
    Close,
    /// To read, to write, and to note that the client sends no more, in this order and
    /// each if it is set.
    Handle { read: bool, write: bool, peer_closed: bool },
}

/// What an event on a connection asks for.
pub open spec fn planned(events: u32) -> EventPlan {
    if events & (EPOLLERR | EPOLLHUP) != 0 {
        EventPlan::Close
    } else {
        EventPlan::Handle {
            read: events & EPOLLIN != 0,
            write: events & EPOLLOUT != 0,
            peer_closed: events & EPOLLRDHUP != 0,
        }
    }
}

/// Says what an event on a connection asks for.
pub fn plan(events: u32) -> (r: EventPlan)
    ensures
        r == planned(events),
{
    if events & (EPOLLERR | EPOLLHUP) != 0 {
        return EventPlan::Close;
    }
    EventPlan::Handle {
        read: events & EPOLLIN != 0,
        write: events & EPOLLOUT != 0,
        peer_closed: events & EPOLLRDHUP != 0,
    }
}

/// What came of accepting a client.
#[derive(Debug)]
pub enum AcceptEvent {
    Accepted,
    Failed(IoFailure),
}

/// What to do after accepting.
#[derive(Clone, Copy, Debug, PartialEq, Eq, Structural)]
pub enum AcceptAction {
    /// Serve the client, and accept the next.
    Serve,
    /// Tell the client that the server is busy, and accept the next.
    TurnAway,
    /// No client is waiting.
    Wait,
    /// The file descriptors are used up: accept no more for now.
    Pause,
    /// Stop the server.
    Abort,
}

impl AcceptAction {
    /// What the client that was accepted is sent before its connection is closed, where it
    /// is not served.
    pub open spec fn sent(self) -> Option<Seq<u8>> {
        if self == AcceptAction::TurnAway {
            Some(encode_utf8(response::busy_text()))
        } else {
            None
        }
    }

    /// What to send the client that was accepted before its connection is closed, where it
    /// is not served.
    pub fn farewell(&self) -> (r: Option<Vec<u8>>)
        ensures
            match r {
                Some(bytes) => self.sent() == Some(bytes@),
                None => self.sent() is None,
            },
    {
        match self {
            AcceptAction::TurnAway => Some(response::busy_response()),
            _ => None,
        }
    }
}

/// What to do after accepting, where `open` connections are open.
pub open spec fn accept_action(
    open: nat,
    event: AcceptEvent,
    runtime: RuntimeConfig,
) -> AcceptAction {
    match event {
        AcceptEvent::Accepted => if open >= runtime.max_connections {
            AcceptAction::TurnAway
        } else {
            AcceptAction::Serve
        },
        AcceptEvent::Failed(failure) => if failure.kind == FailureKind::WouldBlock {
            AcceptAction::Wait
        } else if failure.os_code == Some(23i32) || failure.os_code == Some(24i32) {
            AcceptAction::Pause
        } else {
            AcceptAction::Abort
        },
    }
}

/// Decides what to do after accepting, where `open` connections are open.
pub fn accept_ready(open: usize, event: &AcceptEvent, runtime: &RuntimeConfig) -> (r: AcceptAction)
    ensures
        r == accept_action(open as nat, *event, *runtime),
{
    match event {
        AcceptEvent::Accepted => {
            if open >= runtime.max_connections {
                AcceptAction::TurnAway
            } else {
                AcceptAction::Serve
            }
        },
        AcceptEvent::Failed(failure) => {
            if failure.kind == FailureKind::WouldBlock {
                AcceptAction::Wait
            } else if is_fd_exhausted(failure) {
                AcceptAction::Pause
            } else {
                AcceptAction::Abort
            }
        },
    }
}

/// The address that a server listens on.
pub open spec fn address(config: ConfigView) -> Seq<char> {
    config.host + ":"@ + number::decimal(config.port as nat)
}

/// What is said of a rule.
pub open spec fn rule_line(found: ProxyRuleView) -> Seq<char> {
    "Proxy "@ + found.prefix + " -> "@ + found.upstream.scheme.name() + "://"@
        + found.upstream.host + ":"@ + number::decimal(found.upstream.port as nat)
        + found.upstream.base_path
}

/// What is said of the limits; `epoll` says that events are waited for in batches.
pub open spec fn limits_line(runtime: RuntimeConfig, epoll: bool) -> Seq<char> {
    "keep_alive_timeout="@ + number::decimal(runtime.keep_alive_timeout_secs as nat)
        + "s keep_alive_max="@ + number::decimal(runtime.keep_alive_max as nat) + (if epoll {
        " max_events="@ + number::decimal(runtime.max_events as nat)
    } else {
        Seq::empty()
    }) + " max_connections="@ + number::decimal(runtime.max_connections as nat)
        + " max_request_size="@ + number::decimal(runtime.max_request_size as nat)
}

/// What is said when a server starts to serve `root`.
pub open spec fn greeting(config: ConfigView, root: Seq<char>, epoll: bool) -> Seq<Seq<char>> {
    seq!["Serving "@ + root, "Open http://"@ + address(config)] + config.proxies.map_values(
        |found: ProxyRuleView| rule_line(found),
    ) + seq![
        if epoll {
            "Runtime epoll + keep-alive"@
        } else {
            "Runtime compat + keep-alive"@
        },
        limits_line(config.runtime, epoll),
        "Press Ctrl+C to stop"@,
    ]
}

/// The address that a server listens on.
pub fn listen_address(config: &Config) -> (r: String)
    ensures
        r@ == address(config@),
{
    let mut out = config.host.clone();
    out.append(":");
    number::push_decimal(&mut out, config.port as u64);
    out
}

fn describe_rule(found: &ProxyRule) -> (r: String)
    ensures
        r@ == rule_line(found@),
{
    let mut out = "Proxy ".to_owned();
    out.append(found.prefix.as_str());
    out.append(" -> ");
    out.append(found.upstream.scheme_name());
    out.append("://");
    out.append(found.upstream.host.as_str());
    out.append(":");
    number::push_decimal(&mut out, found.upstream.port as u64);
    out.append(found.upstream.base_path.as_str());
    out
}

fn describe_limits(runtime: &RuntimeConfig, epoll: bool) -> (r: String)
    ensures
        r@ == limits_line(*runtime, epoll),
{
    let mut out = "keep_alive_timeout=".to_owned();
    number::push_decimal(&mut out, runtime.keep_alive_timeout_secs);
    out.append("s keep_alive_max=");
    number::push_decimal(&mut out, runtime.keep_alive_max as u64);
    let ghost before = out@;
    if epoll {
        out.append(" max_events=");
        number::push_decimal(&mut out, runtime.max_events as u64);
        assert(out@ == before + (" max_events="@ + number::decimal(runtime.max_events as nat)));
    } else {
        assert(out@ == before + Seq::<char>::empty());
    }
    out.append(" max_connections=");
    number::push_decimal(&mut out, runtime.max_connections as u64);
    out.append(" max_request_size=");
    number::push_decimal(&mut out, runtime.max_request_size as u64);
    out
}

/// What to say, line by line, when a server starts to serve `root`.
pub fn startup_lines(config: &Config, root: &str, epoll: bool) -> (r: Vec<String>)
    ensures
        text::strings(r@) == greeting(config@, root@, epoll),
{
    let mut lines: Vec<String> = Vec::new();
    lines.push(rule::complaint("Serving ", root));
    lines.push(rule::complaint("Open http://", listen_address(config).as_str()));
    let ghost views = config@.proxies;
    let ghost said = views.map_values(|found: ProxyRuleView| rule_line(found));
    let ghost first = text::strings(lines@);
    let mut i: usize = 0;
    assert(first == seq!["Serving "@ + root@, "Open http://"@ + address(config@)]);
    assert(first + said.take(0) == first);
    while i < config.proxies.len()
        invariant
            i <= config.proxies.len(),
            views == config@.proxies,
            said == views.map_values(|found: ProxyRuleView| rule_line(found)),
            text::strings(lines@) == first + said.take(i as int),
        decreases config.proxies.len() - i,
    {
        let ghost before = lines@;
        let line = describe_rule(&config.proxies[i]);
        assert(views[i as int] == config.proxies@[i as int]@);
        lines.push(line);
        assert(text::strings(lines@) == text::strings(before).push(line@));
        assert(said.take(i + 1) == said.take(i as int).push(said[i as int]));
        assert(first + said.take(i as int).push(said[i as int]) == (first + said.take(
            i as int,
        )).push(said[i as int]));
        i = i + 1;
    }
    assert(said.take(i as int) == said);
    let ghost middle = lines@;
    if epoll {
        lines.push("Runtime epoll + keep-alive".to_owned());
    } else {
        lines.push("Runtime compat + keep-alive".to_owned());
    }
    lines.push(describe_limits(&config.runtime, epoll));
    lines.push("Press Ctrl+C to stop".to_owned());
    assert(text::strings(lines@) == text::strings(middle) + seq![
        if epoll {
            "Runtime epoll + keep-alive"@
        } else {
            "Runtime compat + keep-alive"@
        },
        limits_line(config@.runtime, epoll),
        "Press Ctrl+C to stop"@,
    ]);
    lines
}

/// The name of the `seq`th temporary file of the process `pid`.
pub open spec fn temp_name(pid: u32, seq: u64) -> Seq<char> {
    "pear-body-"@ + number::decimal(pid as nat) + "-"@ + number::decimal(seq as nat) + ".tmp"@
}

/// The name of the `seq`th temporary file of the process `pid`.
pub fn temp_body_name(pid: u32, seq: u64) -> (r: String)
    ensures
        r@ == temp_name(pid, seq),
{
    let mut out = "pear-body-".to_owned();
    number::push_decimal(&mut out, pid as u64);
    out.append("-");
    number::push_decimal(&mut out, seq);
    out.append(".tmp");
    out
}

/// How many names are tried for a temporary file.
pub const TEMP_FILE_ATTEMPTS: usize = 16;

/// Whether another name may be tried for a temporary file where `tried` are taken.
pub open spec fn another_name(tried: usize) -> bool {
    tried < 16
}

/// Whether another name may be tried for a temporary file where `tried` are taken.
pub fn may_try_another_name(tried: usize) -> (r: bool)
    ensures
        r == another_name(tried),
{
    tried < TEMP_FILE_ATTEMPTS
}

/// No two temporary files of a process have the same name.
pub proof fn law_temp_names_differ(pid: u32, a: u64, b: u64)
    requires
        temp_name(pid, a) == temp_name(pid, b),
    ensures
        a == b,
{
    let lead = "pear-body-"@ + number::decimal(pid as nat) + "-"@;
    let m = number::decimal(a as nat);
    let n = number::decimal(b as nat);
    assert(temp_name(pid, a).len() == lead.len() + m.len() + ".tmp"@.len());
    assert(temp_name(pid, a).subrange(lead.len() as int, lead.len() as int + m.len()) =~= m);
    assert(temp_name(pid, b).subrange(lead.len() as int, lead.len() as int + n.len()) =~= n);
    number::law_decimal_read_back(a as nat, u64::MAX as nat);
    number::law_decimal_read_back(b as nat, u64::MAX as nat);
}

} // verus!
