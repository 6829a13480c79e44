//! Proxy rules: which requests go to an upstream server, to which, and under what
//! target.
use crate::number;
use crate::text;
use vstd::prelude::*;
use vstd::utf8::*;

verus! {

/// The protocol that an upstream server speaks.
#[derive(Clone, Copy, Debug, PartialEq, Eq, Structural)]
pub enum UpstreamScheme {
    Http,
    Https,
}

/// An upstream server, and what to put before the path and query of a request to it.
#[derive(Clone, Debug)]
pub struct Upstream {
    pub scheme: UpstreamScheme,
    pub host: String,
    pub port: u16,
    pub base_path: String,
    pub base_query: Option<String>,
}

/// What an `Upstream` holds.
#[verifier::ext_equal]
pub struct UpstreamView {
    pub scheme: UpstreamScheme,
    pub host: Seq<char>,
    pub port: u16,
    pub base_path: Seq<char>,
    pub base_query: Option<Seq<char>>,
}

/// A rule that sends the requests below a path prefix to an upstream server.
#[derive(Clone, Debug)]
pub struct ProxyRule {
    pub prefix: String,
    pub upstream: Upstream,
}

/// What a `ProxyRule` holds.
#[verifier::ext_equal]
pub struct ProxyRuleView {
    pub prefix: Seq<char>,
    pub upstream: UpstreamView,
}

/// The text in an optional string.
pub open spec fn maybe(s: Option<String>) -> Option<Seq<char>> {
    match s {
        Some(s) => Some(s@),
        None => None,
    }
}

impl View for Upstream {
    type V = UpstreamView;

    open spec fn view(&self) -> UpstreamView {
        UpstreamView {
            scheme: self.scheme,
            host: self.host@,
            port: self.port,
            base_path: self.base_path@,
            base_query: maybe(self.base_query),
        }
    }
}

impl View for ProxyRule {
    type V = ProxyRuleView;

    open spec fn view(&self) -> ProxyRuleView {
        ProxyRuleView { prefix: self.prefix@, upstream: self.upstream@ }
    }
}

/// What the rules hold.
pub open spec fn rule_views(rules: Seq<ProxyRule>) -> Seq<ProxyRuleView> {
    rules.map_values(|rule: ProxyRule| rule@)
}

impl UpstreamScheme {
    /// The port that the protocol uses where none is given.
    pub open spec fn port(self) -> u16 {
        match self {
            UpstreamScheme::Http => 80,
            UpstreamScheme::Https => 443,
        }
    }

    /// How the protocol is written in a target.
    pub open spec fn name(self) -> Seq<char> {
        match self {
            UpstreamScheme::Http => "http"@,
            UpstreamScheme::Https => "https"@,
        }
    }

    fn default_port(self) -> (r: u16)
        ensures
            r == self.port(),
    {
        match self {
            UpstreamScheme::Http => 80,
            UpstreamScheme::Https => 443,
        }
    }
}

/// The position of the first slash or question mark of `s` at or after `from`, or
/// the length of `s`.
pub open spec fn authority_end(s: Seq<char>, from: int) -> int
    decreases s.len() - from,
{
    if from >= s.len() {
        s.len() as int
    } else if s[from] == '/' || s[from] == '?' {
        from
    } else {
        authority_end(s, from + 1)
    }
}

/// `path` without slashes at its end, but a single slash where nothing is left.
pub open spec fn trimmed_prefix(path: Seq<char>) -> Seq<char> {
    let trimmed = text::trim_end_slash(path);
    if trimmed.len() == 0 {
        "/"@
    } else {
        trimmed
    }
}

/// `path` with one slash at its start and none at its end, but a single slash where
/// nothing is left.
pub open spec fn normal_base(path: Seq<char>) -> Seq<char> {
    let trimmed = text::trim_end_slash(text::trim_start_slash(path));
    if trimmed.len() == 0 {
        "/"@
    } else {
        "/"@ + trimmed
    }
}

/// `suffix` below `base`, with one slash between them.
pub open spec fn joined(base: Seq<char>, suffix: Seq<char>) -> Seq<char> {
    let base = text::trim_end_slash(base);
    let suffix = text::trim_start_slash(suffix);
    if suffix.len() == 0 {
        base
    } else {
        base + "/"@ + suffix
    }
}

/// The parts of a target before and after its first question mark.
pub open spec fn path_and_query(target: Seq<char>) -> (Seq<char>, Seq<char>) {
    match text::split_once(target, '?') {
        Some(parts) => parts,
        None => (target, ""@),
    }
}

/// The base path and query that follow the host of an upstream target. An empty
/// query is none.
pub open spec fn base_in(rest: Seq<char>) -> (Seq<char>, Option<Seq<char>>) {
    let (path, query) = path_and_query(rest);
    (
        normal_base(path),
        if query.len() == 0 {
            None
        } else {
            Some(query)
        },
    )
}

/// The host and port that `authority` names, or what is wrong with it. An address
/// in brackets, or one with more than one colon, is an IPv6 address.
pub open spec fn authority_in(authority: Seq<char>, default_port: u16) -> Result<
    (Seq<char>, u16),
    Seq<char>,
> {
    match text::strip_prefix(authority, "["@) {
        Some(rest) => match text::split_once(rest, ']') {
            None => Err("Invalid IPv6 proxy upstream authority: "@ + authority),
            Some((host, port)) => if host.len() == 0 {
                Err("Missing proxy upstream host: "@ + authority)
            } else if port.len() == 0 {
                Ok((host, default_port))
            } else {
                match text::strip_prefix(port, ":"@) {
                    None => Err("Invalid IPv6 proxy upstream authority: "@ + authority),
                    Some(digits) => match number::number(digits, u16::MAX as nat) {
                        None => Err("Invalid proxy upstream port in authority: "@ + authority),
                        Some(n) => Ok((host, n as u16)),
                    },
                }
            },
        },
        None => if text::count(authority, ':') > 1 {
            Ok((authority, default_port))
        } else {
            match text::split_once(authority, ':') {
                Some((host, port)) => if host.len() == 0 {
                    Ok((authority, default_port))
                } else {
                    match number::number(port, u16::MAX as nat) {
                        None => Err("Invalid proxy upstream port: "@ + port),
                        Some(n) => Ok((host, n as u16)),
                    }
                },
                None => Ok((authority, default_port)),
            }
        },
    }
}

/// The upstream server that `value` names after its scheme, or what is wrong with it.
pub open spec fn upstream_after(scheme: UpstreamScheme, rest: Seq<char>, value: Seq<char>) -> Result<
    UpstreamView,
    Seq<char>,
> {
    let k = authority_end(rest, 0);
    let authority = rest.take(k);
    let tail = if k >= rest.len() {
        ""@
    } else if rest[k] == '/' {
        rest.skip(k + 1)
    } else {
        rest.skip(k)
    };
    if authority.len() == 0 {
        Err("Missing proxy upstream host: "@ + value)
    } else {
        match authority_in(authority, scheme.port()) {
            Err(message) => Err(message),
            Ok((host, port)) => Ok(
                UpstreamView {
                    scheme,
                    host,
                    port,
                    base_path: base_in(tail).0,
                    base_query: base_in(tail).1,
                },
            ),
        }
    }
}

/// The upstream server that `value` names, or what is wrong with it.
pub open spec fn upstream_in(value: Seq<char>) -> Result<UpstreamView, Seq<char>> {
    match text::strip_prefix(value, "http://"@) {
        Some(rest) => upstream_after(UpstreamScheme::Http, rest, value),
        None => match text::strip_prefix(value, "https://"@) {
            Some(rest) => upstream_after(UpstreamScheme::Https, rest, value),
            None => Err("Proxy target must start with http:// or https://: "@ + value),
        },
    }
}

/// The rule that sends what is below `prefix` to `target`, or what is wrong with it.
pub open spec fn rule_for(prefix: Seq<char>, target: Seq<char>) -> Result<
    ProxyRuleView,
    Seq<char>,
> {
    if !text::starts_with(prefix, "/"@) {
        Err("Proxy prefix must start with '/': "@ + prefix)
    } else {
        match upstream_in(target) {
            Err(message) => Err(message),
            Ok(upstream) => Ok(ProxyRuleView { prefix: trimmed_prefix(prefix), upstream }),
        }
    }
}

/// The rule that `value` spells, a prefix and a target with an equals sign between
/// them, or what is wrong with it.
pub open spec fn rule_in(value: Seq<char>) -> Result<ProxyRuleView, Seq<char>> {
    match text::split_once(value, '=') {
        None => Err(
            "Invalid proxy rule '"@ + value + "', expected /path=http[s]://host:port"@,
        ),
        Some((prefix, target)) => rule_for(prefix, target),
    }
}

impl ProxyRuleView {
    /// Whether `path` is the prefix of the rule, or lies below it.
    pub open spec fn covers(self, path: Seq<char>) -> bool {
        path == self.prefix || (text::strip_prefix(path, self.prefix) matches Some(rest)
            && text::starts_with(rest, "/"@))
    }

    /// The length of the prefix, in bytes.
    pub open spec fn width(self) -> nat {
        encode_utf8(self.prefix).len()
    }
}

impl UpstreamView {
    /// The host, and the port unless it is the one of the scheme.
    pub open spec fn authority(self) -> Seq<char> {
        if self.port == self.scheme.port() {
            self.host
        } else {
            self.host + ":"@ + number::decimal(self.port as nat)
        }
    }
}

/// Whether `i` is the rule for `path`: it covers `path`, no rule that does is longer,
/// and none as long comes later.
pub open spec fn is_rule_for(rules: Seq<ProxyRuleView>, path: Seq<char>, i: int) -> bool {
    &&& 0 <= i < rules.len()
    &&& rules[i].covers(path)
    &&& forall|j: int|
        0 <= j < rules.len() && #[trigger] rules[j].covers(path) ==> rules[j].width()
            <= rules[i].width() && (j > i ==> rules[j].width() < rules[i].width())
}

/// Both queries with an ampersand between them, the one that is not empty, or none.
pub open spec fn merged(base: Option<Seq<char>>, query: Seq<char>) -> Option<Seq<char>> {
    match base {
        Some(base) if base.len() > 0 => if query.len() == 0 {
            Some(base)
        } else {
            Some(base + "&"@ + query)
        },
        _ => if query.len() == 0 {
            None
        } else {
            Some(query)
        },
    }
}

/// `path`, and `query` after a question mark where there is one.
pub open spec fn with_query(path: Seq<char>, query: Option<Seq<char>>) -> Seq<char> {
    match query {
        Some(query) => path + "?"@ + query,
        None => path,
    }
}

/// The target under which an upstream server gets a request for `target`: below a
/// base path, what follows the prefix goes there; otherwise the path stays.
pub open spec fn upstream_target(target: Seq<char>, rule: ProxyRuleView) -> Seq<char> {
    let (path, query) = path_and_query(target);
    let query = merged(rule.upstream.base_query, query);
    if rule.upstream.base_path == "/"@ {
        with_query(path, query)
    } else {
        let suffix = match text::strip_prefix(path, rule.prefix) {
            Some(suffix) => suffix,
            None => path,
        };
        with_query(joined(rule.upstream.base_path, suffix), query)
    }
}

/// A path has at most one rule.
pub proof fn law_one_rule(rules: Seq<ProxyRuleView>, path: Seq<char>, i: int, k: int)
    requires
        is_rule_for(rules, path, i),
        is_rule_for(rules, path, k),
    ensures
        i == k,
{
}

/// Of two rules with the same prefix, the earlier is the rule for no path.
pub proof fn law_later_rule_wins(rules: Seq<ProxyRuleView>, path: Seq<char>, i: int, k: int)
    requires
        0 <= i < k < rules.len(),
        rules[i].prefix == rules[k].prefix,
    ensures
        !is_rule_for(rules, path, i),
{
    if rules[i].covers(path) {
        assert(rules[k].covers(path));
    }
}

/// Adding rules that do not cover a path changes nothing about the rule for it.
pub proof fn law_other_rules_do_not_matter(
    rules: Seq<ProxyRuleView>,
    more: Seq<ProxyRuleView>,
    path: Seq<char>,
    i: int,
)
    requires
        forall|j: int| 0 <= j < more.len() ==> !(#[trigger] more[j]).covers(path),
        0 <= i < rules.len(),
    ensures
        is_rule_for(rules + more, path, i) == is_rule_for(rules, path, i),
{
    let all = rules + more;
    assert forall|j: int| 0 <= j < rules.len() implies all[j] == rules[j] by {}
    assert forall|j: int| rules.len() <= j < all.len() implies !(#[trigger] all[j]).covers(
        path,
    ) by {
        assert(all[j] == more[j - rules.len()]);
    }
    if is_rule_for(all, path, i) {
        assert forall|j: int| 0 <= j < rules.len() && #[trigger] rules[j].covers(
            path,
        ) implies rules[j].width() <= rules[i].width() && (j > i ==> rules[j].width()
            < rules[i].width()) by {
            assert(all[j].covers(path));
        }
    }
}

/// What is left without slashes at its end has none there.
proof fn lemma_trim_end_slash(s: Seq<char>)
    ensures
        text::trim_end_slash(s).len() <= s.len(),
        text::trim_end_slash(s) == s.take(text::trim_end_slash(s).len() as int),
        text::trim_end_slash(s).len() > 0 ==> text::trim_end_slash(s).last() != '/',
    decreases s.len(),
{
    if s.len() > 0 && s.last() == '/' {
        lemma_trim_end_slash(s.drop_last());
    } else {
        assert(s.take(s.len() as int) == s);
    }
}

/// What is left without slashes at its start has none there.
proof fn lemma_trim_start_slash(s: Seq<char>)
    ensures
        text::trim_start_slash(s).len() > 0 ==> text::trim_start_slash(s)[0] != '/',
    decreases s.len(),
{
    if s.len() > 0 && s[0] == '/' {
        lemma_trim_start_slash(s.skip(1));
    }
}

/// A prefix has no slash at its end unless it is the root, and trimming it once more
/// changes nothing.
pub proof fn law_prefix_is_trimmed(path: Seq<char>)
    ensures
        trimmed_prefix(path) == "/"@ || trimmed_prefix(path).last() != '/',
        trimmed_prefix(path).len() > 0,
        trimmed_prefix(trimmed_prefix(path)) == trimmed_prefix(path),
{
    reveal_strlit("/");
    lemma_trim_end_slash(path);
    let p = trimmed_prefix(path);
    if text::trim_end_slash(path).len() == 0 {
        assert(p.drop_last() == Seq::<char>::empty());
        assert(text::trim_end_slash(p.drop_last()) == Seq::<char>::empty());
        assert(text::trim_end_slash(p) == Seq::<char>::empty());
    } else {
        assert(text::trim_end_slash(p) == p);
    }
}

/// A base path starts with a slash, has none at its end unless it is the root, has no
/// second slash at its start, and making it normal once more changes nothing.
pub proof fn law_base_is_normal(path: Seq<char>)
    ensures
        normal_base(path).len() > 0,
        normal_base(path)[0] == '/',
        normal_base(path) == "/"@ || (normal_base(path).last() != '/' && normal_base(path)[1]
            != '/'),
        normal_base(normal_base(path)) == normal_base(path),
{
    reveal_strlit("/");
    let start = text::trim_start_slash(path);
    let inner = text::trim_end_slash(start);
    lemma_trim_start_slash(path);
    lemma_trim_end_slash(start);
    let base = normal_base(path);
    if inner.len() == 0 {
        assert(base.skip(1) == Seq::<char>::empty());
        assert(text::trim_start_slash(base.skip(1)) == Seq::<char>::empty());
        assert(text::trim_start_slash(base) == Seq::<char>::empty());
    } else {
        assert(inner[0] == start[0]);
        assert(base.skip(1) == inner);
        assert(text::trim_start_slash(base.skip(1)) == inner);
        assert(text::trim_start_slash(base) == inner);
        assert(text::trim_end_slash(inner) == inner);
    }
}

/// A rule covers its own prefix, and everything below it.
pub proof fn law_rule_covers_its_prefix(rule: ProxyRuleView, below: Seq<char>)
    ensures
        rule.covers(rule.prefix),
        rule.covers(rule.prefix + "/"@ + below),
{
    reveal_strlit("/");
    let path = rule.prefix + "/"@ + below;
    assert(path.take(rule.prefix.len() as int) == rule.prefix);
    let rest = path.skip(rule.prefix.len() as int);
    assert(rest.take(1) == "/"@);
}

/// An upstream server with a base path gets that path in place of the prefix.
pub proof fn law_prefix_is_replaced(rule: ProxyRuleView, below: Seq<char>)
    requires
        !rule.prefix.contains('?'),
        !below.contains('?'),
        text::trim_start_slash(below).len() > 0,
        rule.upstream.base_path != "/"@,
        normal_base(rule.upstream.base_path) == rule.upstream.base_path,
        rule.upstream.base_query is None,
    ensures
        upstream_target(rule.prefix + "/"@ + below, rule) == rule.upstream.base_path + "/"@
            + text::trim_start_slash(below),
{
    reveal_strlit("/");
    reveal_strlit("");
    let base = rule.upstream.base_path;
    let target = rule.prefix + "/"@ + below;
    text::lemma_find(target, '?', 0);
    let k = text::find(target, '?', 0);
    if k < target.len() {
        if k < rule.prefix.len() {
            assert(rule.prefix.contains(rule.prefix[k]));
        } else if k > rule.prefix.len() {
            assert(below.contains(below[k - rule.prefix.len() - 1]));
        }
    }
    assert(target.take(rule.prefix.len() as int) == rule.prefix);
    let suffix = target.skip(rule.prefix.len() as int);
    assert(suffix == "/"@ + below);
    assert(suffix.skip(1) == below);
    assert(text::trim_start_slash(suffix) == text::trim_start_slash(below));
    law_base_is_normal(base);
    assert(text::trim_end_slash(base) == base);
}

/// An upstream server has a host and a normal base path.
proof fn lemma_upstream_is_normal(scheme: UpstreamScheme, rest: Seq<char>, value: Seq<char>)
    ensures
        upstream_after(scheme, rest, value) matches Ok(made) ==> made.host.len() > 0
            && normal_base(made.base_path) == made.base_path,
{
    if let Ok(made) = upstream_after(scheme, rest, value) {
        let k = authority_end(rest, 0);
        let tail = if k >= rest.len() {
            ""@
        } else if rest[k] == '/' {
            rest.skip(k + 1)
        } else {
            rest.skip(k)
        };
        law_base_is_normal(path_and_query(tail).0);
    }
}

/// Every rule that is made has a prefix that starts with a slash and is trimmed, a host,
/// and a base path that is normal.
pub proof fn law_rules_are_normal(prefix: Seq<char>, target: Seq<char>)
    ensures
        rule_for(prefix, target) matches Ok(made) ==> {
            &&& text::starts_with(made.prefix, "/"@)
            &&& trimmed_prefix(made.prefix) == made.prefix
            &&& made.upstream.host.len() > 0
            &&& normal_base(made.upstream.base_path) == made.upstream.base_path
        },
{
    if let Ok(made) = rule_for(prefix, target) {
        reveal_strlit("/");
        law_prefix_is_trimmed(prefix);
        lemma_trim_end_slash(prefix);
        let trimmed = text::trim_end_slash(prefix);
        assert(prefix[0] == prefix.take(1)[0]);
        if trimmed.len() > 0 {
            assert(trimmed[0] == prefix[0]);
            assert(made.prefix.take(1) == "/"@);
        } else {
            assert("/"@.take(1) == "/"@);
        }
        let rest = if text::strip_prefix(target, "http://"@) is Some {
            text::strip_prefix(target, "http://"@)->0
        } else {
            text::strip_prefix(target, "https://"@)->0
        };
        lemma_upstream_is_normal(made.upstream.scheme, rest, target);
    }
}

/// An upstream server without a base path and query gets the target as it is, unless
/// the target ends in a bare question mark.
pub proof fn law_bare_upstream_keeps_target(target: Seq<char>, rule: ProxyRuleView)
    requires
        rule.upstream.base_path == "/"@,
        rule.upstream.base_query is None,
        path_and_query(target).1.len() > 0 || !target.contains('?'),
    ensures
        upstream_target(target, rule) == target,
{
    reveal_strlit("?");
    reveal_strlit("");
    text::lemma_find(target, '?', 0);
    let k = text::find(target, '?', 0);
    if k < target.len() {
        assert(target.take(k) + "?"@ + target.skip(k + 1) == target);
    }
}

/// `message` followed by `detail`.
pub fn complaint(message: &str, detail: &str) -> (r: String)
    ensures
        r@ == message@ + detail@,
{
    let mut out = message.to_owned();
    out.append(detail);
    out
}

/// `path` without slashes at its end, but for the root.
pub fn trim_proxy_prefix(prefix: &str) -> (r: String)
    ensures
        r@ == trimmed_prefix(prefix@),
{
    let chars = text::chars_of(prefix);
    let trimmed = text::without_end_slash(chars.as_slice());
    if trimmed.len() == 0 {
        "/".to_owned()
    } else {
        text::string_of(trimmed)
    }
}

/// `path` with one slash at its start and none at its end, but for the root.
pub fn normalize_base_path(path: &str) -> (r: String)
    ensures
        r@ == normal_base(path@),
{
    let chars = text::chars_of(path);
    let trimmed = text::without_end_slash(text::without_start_slash(chars.as_slice()));
    if trimmed.len() == 0 {
        "/".to_owned()
    } else {
        complaint("/", text::string_of(trimmed).as_str())
    }
}

/// `suffix` below `base`.
pub fn join_url_paths(base: &str, suffix: &str) -> (r: String)
    ensures
        r@ == joined(base@, suffix@),
{
    let base_chars = text::chars_of(base);
    let suffix_chars = text::chars_of(suffix);
    let mut out = text::string_of(text::without_end_slash(base_chars.as_slice()));
    let rest = text::without_start_slash(suffix_chars.as_slice());
    if rest.len() > 0 {
        out.append("/");
        out.append(text::string_of(rest).as_str());
    }
    out
}

/// The base path and query that follow the host of an upstream target.
pub fn parse_base_path_and_query(path_and_query: &str) -> (r: (String, Option<String>))
    ensures
        (r.0@, maybe(r.1)) == base_in(path_and_query@),
{
    let chars = text::chars_of(path_and_query);
    match text::cut(chars.as_slice(), '?') {
        Some((path, query)) => {
            let base_path = normalize_base_path(text::string_of(path).as_str());
            let base_query: Option<String> = if query.len() == 0 {
                None
            } else {
                Some(text::string_of(query))
            };
            (base_path, base_query)
        },
        None => {
            proof {
                reveal_strlit("");
            }
            (normalize_base_path(path_and_query), None)
        },
    }
}

/// The host and port that `authority` names.
pub fn parse_upstream_authority(authority: &str, default_port: u16) -> (r: Result<
    (String, u16),
    String,
>)
    ensures
        match r {
            Ok((host, port)) => authority_in(authority@, default_port) == Ok::<
                (Seq<char>, u16),
                Seq<char>,
            >((host@, port)),
            Err(message) => authority_in(authority@, default_port) == Err::<
                (Seq<char>, u16),
                Seq<char>,
            >(message@),
        },
{
    let chars = text::chars_of(authority);
    let bracket = text::chars_of("[");
    if let Some(rest) = text::without_prefix(chars.as_slice(), bracket.as_slice()) {
        let (host, port) = match text::cut(rest, ']') {
            Some(parts) => parts,
            None => {
                return Err(complaint("Invalid IPv6 proxy upstream authority: ", authority));
            },
        };
        if host.len() == 0 {
            return Err(complaint("Missing proxy upstream host: ", authority));
        }
        if port.len() == 0 {
            return Ok((text::string_of(host), default_port));
        }
        let colon = text::chars_of(":");
        let digits = match text::without_prefix(port, colon.as_slice()) {
            Some(digits) => digits,
            None => {
                return Err(complaint("Invalid IPv6 proxy upstream authority: ", authority));
            },
        };
        return match number::read_u16(digits) {
            Some(n) => Ok((text::string_of(host), n)),
            None => Err(complaint("Invalid proxy upstream port in authority: ", authority)),
        };
    }
    if text::count_char(chars.as_slice(), ':') > 1 {
        return Ok((authority.to_owned(), default_port));
    }
    match text::cut(chars.as_slice(), ':') {
        Some((host, port)) if host.len() > 0 => match number::read_u16(port) {
            Some(n) => Ok((text::string_of(host), n)),
            None => Err(
                complaint("Invalid proxy upstream port: ", text::string_of(port).as_str()),
            ),
        },
        _ => Ok((authority.to_owned(), default_port)),
    }
}

fn end_of_authority(s: &[char]) -> (r: usize)
    ensures
        r == authority_end(s@, 0),
        r <= s@.len(),
{
    let mut i: usize = 0;
    while i < s.len()
        invariant
            i <= s.len(),
            authority_end(s@, 0) == authority_end(s@, i as int),
        decreases s.len() - i,
    {
        if s[i] == '/' || s[i] == '?' {
            return i;
        }
        i = i + 1;
    }
    i
}

fn parse_after_scheme(scheme: UpstreamScheme, rest: &[char], value: &str) -> (r: Result<
    Upstream,
    String,
>)
    ensures
        match r {
            Ok(upstream) => upstream_after(scheme, rest@, value@) == Ok::<
                UpstreamView,
                Seq<char>,
            >(upstream@),
            Err(message) => upstream_after(scheme, rest@, value@) == Err::<
                UpstreamView,
                Seq<char>,
            >(message@),
        },
{
    let k = end_of_authority(rest);
    let tail: &[char] = if k < rest.len() && rest[k] == '/' {
        text::skip(rest, k + 1)
    } else {
        text::skip(rest, k)
    };
    proof {
        reveal_strlit("");
        if k == rest.len() {
            assert(tail@ == ""@);
        }
    }
    if k == 0 {
        return Err(complaint("Missing proxy upstream host: ", value));
    }
    let authority = text::string_of(text::take(rest, k));
    let (host, port) = match parse_upstream_authority(authority.as_str(), scheme.default_port()) {
        Ok(parts) => parts,
        Err(message) => {
            return Err(message);
        },
    };
    let (base_path, base_query) = parse_base_path_and_query(text::string_of(tail).as_str());
    Ok(Upstream { scheme, host, port, base_path, base_query })
}

impl Upstream {
    /// Reads the target of a rule: a scheme, a host, and optionally a port, a base
    /// path and a query.
    pub fn parse(value: &str) -> (r: Result<Upstream, String>)
        ensures
            match r {
                Ok(upstream) => upstream_in(value@) == Ok::<UpstreamView, Seq<char>>(upstream@),
                Err(message) => upstream_in(value@) == Err::<UpstreamView, Seq<char>>(message@),
            },
    {
        let chars = text::chars_of(value);
        let http = text::chars_of("http://");
        let https = text::chars_of("https://");
        if let Some(rest) = text::without_prefix(chars.as_slice(), http.as_slice()) {
            return parse_after_scheme(UpstreamScheme::Http, rest, value);
        }
        if let Some(rest) = text::without_prefix(chars.as_slice(), https.as_slice()) {
            return parse_after_scheme(UpstreamScheme::Https, rest, value);
        }
        Err(complaint("Proxy target must start with http:// or https://: ", value))
    }

    /// How the protocol of the server is written.
    pub fn scheme_name(&self) -> (r: &'static str)
        ensures
            r@ == self.scheme.name(),
    {
        match self.scheme {
            UpstreamScheme::Http => "http",
            UpstreamScheme::Https => "https",
        }
    }

    /// The `Host` header for the server.
    pub fn authority_header(&self) -> (r: String)
        ensures
            r@ == self@.authority(),
    {
        if self.port == self.scheme.default_port() {
            self.host.clone()
        } else {
            let mut out = self.host.clone();
            out.append(":");
            number::push_decimal(&mut out, self.port as u64);
            out
        }
    }
}

impl ProxyRule {
    /// The rule that sends what is below `prefix` to `target`.
    pub fn new(prefix: &str, target: &str) -> (r: Result<ProxyRule, String>)
        ensures
            match r {
                Ok(rule) => rule_for(prefix@, target@) == Ok::<ProxyRuleView, Seq<char>>(rule@),
                Err(message) => rule_for(prefix@, target@) == Err::<ProxyRuleView, Seq<char>>(
                    message@,
                ),
            },
    {
        let chars = text::chars_of(prefix);
        let slash = text::chars_of("/");
        if text::without_prefix(chars.as_slice(), slash.as_slice()).is_none() {
            return Err(complaint("Proxy prefix must start with '/': ", prefix));
        }
        match Upstream::parse(target) {
            Ok(upstream) => Ok(ProxyRule { prefix: trim_proxy_prefix(prefix), upstream }),
            Err(message) => Err(message),
        }
    }

    /// Reads a rule: a prefix and a target with an equals sign between them.
    pub fn parse(value: &str) -> (r: Result<ProxyRule, String>)
        ensures
            match r {
                Ok(rule) => rule_in(value@) == Ok::<ProxyRuleView, Seq<char>>(rule@),
                Err(message) => rule_in(value@) == Err::<ProxyRuleView, Seq<char>>(message@),
            },
    {
        let chars = text::chars_of(value);
        match text::cut(chars.as_slice(), '=') {
            None => {
                let mut message = "Invalid proxy rule '".to_owned();
                message.append(value);
                message.append("', expected /path=http[s]://host:port");
                Err(message)
            },
            Some((prefix, target)) => ProxyRule::new(
                text::string_of(prefix).as_str(),
                text::string_of(target).as_str(),
            ),
        }
    }

    /// Whether the rule is for `path`.
    pub fn matches(&self, path: &str) -> (r: bool)
        ensures
            r == self@.covers(path@),
    {
        let chars = text::chars_of(path);
        let prefix = text::chars_of(self.prefix.as_str());
        if text::equals(chars.as_slice(), prefix.as_slice()) {
            return true;
        }
        let slash = text::chars_of("/");
        match text::without_prefix(chars.as_slice(), prefix.as_slice()) {
            Some(rest) => text::without_prefix(rest, slash.as_slice()).is_some(),
            None => false,
        }
    }
}

/// The rule for `target`, by its path: the longest that covers it, and of several as
/// long the last.
pub fn find_proxy<'a>(proxies: &'a [ProxyRule], target: &str) -> (r: Option<&'a ProxyRule>)
    ensures
        match r {
            Some(rule) => exists|i: int|
                #[trigger] is_rule_for(
                    rule_views(proxies@),
                    text::before(target@, '?'),
                    i,
                ) && *rule == proxies@[i],
            None => forall|i: int|
                0 <= i < proxies@.len() ==> !(#[trigger] rule_views(proxies@)[i]).covers(
                    text::before(target@, '?'),
                ),
        },
{
    let chars = text::chars_of(target);
    let path = text::string_of(text::head_before(chars.as_slice(), '?'));
    let ghost views = rule_views(proxies@);
    let mut best: Option<usize> = None;
    let mut i: usize = 0;
    while i < proxies.len()
        invariant
            i <= proxies.len(),
            views == rule_views(proxies@),
            best is None ==> forall|j: int| 0 <= j < i ==> !(#[trigger] views[j]).covers(path@),
            best matches Some(b) ==> b < i && views[b as int].covers(path@) && (forall|j: int|
                0 <= j < i && #[trigger] views[j].covers(path@) ==> views[j].width()
                    <= views[b as int].width() && (j > b ==> views[j].width()
                    < views[b as int].width())),
        decreases proxies.len() - i,
    {
        assert(views[i as int] == proxies@[i as int]@);
        if proxies[i].matches(path.as_str()) {
            let width = proxies[i].prefix.as_str().as_bytes().len();
            assert(width == views[i as int].width());
            match best {
                Some(b) => {
                    assert(views[b as int] == proxies@[b as int]@);
                    if width >= proxies[b].prefix.as_str().as_bytes().len() {
                        best = Some(i);
                    }
                },
                None => {
                    best = Some(i);
                },
            }
        }
        i = i + 1;
    }
    match best {
        Some(b) => {
            assert(is_rule_for(views, path@, b as int));
            Some(&proxies[b])
        },
        None => None,
    }
}

/// The query for an upstream server: the fixed one and the one of the request.
pub fn merge_queries(base_query: Option<&str>, request_query: &str) -> (r: Option<String>)
    ensures
        maybe(r) == merged(
            match base_query {
                Some(base) => Some(base@),
                None => None,
            },
            request_query@,
        ),
{
    match base_query {
        Some(base) if !base.is_empty() => if request_query.is_empty() {
            Some(base.to_owned())
        } else {
            let mut out = base.to_owned();
            out.append("&");
            out.append(request_query);
            Some(out)
        },
        _ => if request_query.is_empty() {
            None
        } else {
            Some(request_query.to_owned())
        },
    }
}

/// The target under which the upstream server of `proxy` gets a request for `target`.
pub fn proxied_target(target: &str, proxy: &ProxyRule) -> (r: String)
    ensures
        r@ == upstream_target(target@, proxy@),
{
    let chars = text::chars_of(target);
    let (path, query): (String, String) = match text::cut(chars.as_slice(), '?') {
        Some((path, query)) => (text::string_of(path), text::string_of(query)),
        None => (target.to_owned(), "".to_owned()),
    };
    let base: Option<&str> = match &proxy.upstream.base_query {
        Some(base) => Some(base.as_str()),
        None => None,
    };
    let merged_query = merge_queries(base, query.as_str());
    let mut next: String = if text::same(proxy.upstream.base_path.as_str(), "/") {
        path
    } else {
        let path_chars = text::chars_of(path.as_str());
        let prefix = text::chars_of(proxy.prefix.as_str());
        let suffix: &[char] = match text::without_prefix(path_chars.as_slice(), prefix.as_slice()) {
            Some(suffix) => suffix,
            None => path_chars.as_slice(),
        };
        join_url_paths(proxy.upstream.base_path.as_str(), text::string_of(suffix).as_str())
    };
    match merged_query {
        Some(query) => {
            next.append("?");
            next.append(query.as_str());
        },
        None => {},
    }
    next
}

} // verus!
