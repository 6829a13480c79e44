//! Which requests go to an upstream server, to which, and under what target: for every
//! rule that can be written down, every path and every target.
use crate::number;
use crate::plain;
use crate::rule;
use crate::rule::{ProxyRuleView, UpstreamScheme, UpstreamView};
use crate::server;
use crate::text;
use vstd::prelude::*;
use vstd::utf8::*;

verus! {

/// Whether `path` is `prefix`, or `prefix` with a slash after it and anything after that.
pub open spec fn lies_below(prefix: Seq<char>, path: Seq<char>) -> bool {
    ||| path == prefix
    ||| path.len() > prefix.len() && path.take(prefix.len() as int) == prefix
        && path[prefix.len() as int] == '/'
}

/// A rule covers its prefix and what lies below it, and nothing else: where it covers a
/// path, the path is the prefix, or starts with the prefix and goes on with a slash.
pub proof fn law_covers_what_lies_below(rule: ProxyRuleView, path: Seq<char>)
    ensures
        rule.covers(path) <==> lies_below(rule.prefix, path),
{
    reveal_strlit("/");
    let n = rule.prefix.len() as int;
    if text::starts_with(path, rule.prefix) {
        let rest = path.skip(n);
        if text::starts_with(rest, "/"@) {
            assert(rest[0] == rest.take(1)[0]);
        }
        if path.len() > n && path[n] == '/' {
            assert(rest.take(1) =~= "/"@);
        }
    }
}

/// A request goes to the rule with the longest prefix, in bytes, that its path lies below,
/// the later where two are as long; the path is what stands before the first question mark.
/// Where the path lies below no prefix, the request goes to the files.
pub proof fn law_longest_prefix_is_chosen(
    rules: Seq<ProxyRuleView>,
    path: Seq<char>,
    query: Seq<char>,
    i: int,
)
    requires
        !path.contains('?'),
    ensures
        rule::is_rule_for(rules, path, i) <==> {
            &&& 0 <= i < rules.len()
            &&& lies_below(rules[i].prefix, path)
            &&& forall|j: int|
                0 <= j < rules.len() && lies_below((#[trigger] rules[j]).prefix, path) ==> {
                    &&& encode_utf8(rules[j].prefix).len() <= encode_utf8(rules[i].prefix).len()
                    &&& j > i ==> encode_utf8(rules[j].prefix).len() < encode_utf8(
                        rules[i].prefix,
                    ).len()
                }
        },
        server::some_rule_covers(rules, path) <==> exists|j: int|
            0 <= j < rules.len() && lies_below((#[trigger] rules[j]).prefix, path),
        server::some_rule_covers(rules, path + seq!['?'] + query) == server::some_rule_covers(
            rules,
            path,
        ),
        text::before(path + seq!['?'] + query, '?') == path,
        text::before(path, '?') == path,
{
    plain::law_cut_in_two(path, '?', query);
    assert forall|j: int| 0 <= j < rules.len() implies ((#[trigger] rules[j]).covers(path)
        <==> lies_below(rules[j].prefix, path)) by {
        law_covers_what_lies_below(rules[j], path);
    }
    if rule::is_rule_for(rules, path, i) {
        assert forall|j: int|
            0 <= j < rules.len() && lies_below((#[trigger] rules[j]).prefix, path) implies {
            &&& encode_utf8(rules[j].prefix).len() <= encode_utf8(rules[i].prefix).len()
            &&& j > i ==> encode_utf8(rules[j].prefix).len() < encode_utf8(rules[i].prefix).len()
        } by {
            assert(rules[j].covers(path));
            assert(rules[j].width() <= rules[i].width());
        }
    }
    if server::some_rule_covers(rules, path) {
        let j = choose|j: int|
            0 <= j < rules.len() && (#[trigger] rules[j]).covers(text::before(path, '?'));
        assert(lies_below(rules[j].prefix, path));
    }
    if exists|j: int| 0 <= j < rules.len() && lies_below((#[trigger] rules[j]).prefix, path) {
        let j = choose|j: int|
            0 <= j < rules.len() && lies_below((#[trigger] rules[j]).prefix, path);
        assert(rules[j].covers(text::before(path, '?')));
    }
}

/// Whether a rule is chosen for every path that lies below some prefix.
pub proof fn law_some_rule_is_chosen(rules: Seq<ProxyRuleView>, path: Seq<char>)
    requires
        exists|j: int|
            0 <= j < rules.len() && lies_below((#[trigger] rules[j]).prefix, path),
    ensures
        exists|i: int| rule::is_rule_for(rules, path, i),
    decreases rules.len(),
{
    let j = choose|j: int| 0 <= j < rules.len() && lies_below((#[trigger] rules[j]).prefix, path);
    let n = rules.len() - 1;
    let less = rules.drop_last();
    law_covers_what_lies_below(rules[n], path);
    if exists|k: int| 0 <= k < less.len() && lies_below((#[trigger] less[k]).prefix, path) {
        law_some_rule_is_chosen(less, path);
        let i = choose|i: int| rule::is_rule_for(less, path, i);
        assert(rule::is_rule_for(less, path, i));
        assert forall|k: int| 0 <= k < less.len() implies less[k] == rules[k] by {}
        if rules[n].covers(path) && rules[n].width() >= rules[i].width() {
            assert forall|k: int| 0 <= k < rules.len() && #[trigger] rules[k].covers(
                path,
            ) implies rules[k].width() <= rules[n].width() && (k > n ==> rules[k].width()
                < rules[n].width()) by {
                if k < n {
                    assert(less[k].covers(path));
                }
            }
            assert(rule::is_rule_for(rules, path, n));
        } else {
            assert forall|k: int| 0 <= k < rules.len() && #[trigger] rules[k].covers(
                path,
            ) implies rules[k].width() <= rules[i].width() && (k > i ==> rules[k].width()
                < rules[i].width()) by {
                if k < n {
                    assert(less[k].covers(path));
                }
            }
            assert(rule::is_rule_for(rules, path, i));
        }
    } else {
        if j < n {
            assert(less[j] == rules[j]);
        }
        assert forall|k: int| 0 <= k < rules.len() && #[trigger] rules[k].covers(
            path,
        ) implies rules[k].width() <= rules[n].width() && (k > n ==> rules[k].width()
            < rules[n].width()) by {
            law_covers_what_lies_below(rules[k], path);
            if k < n {
                assert(lies_below(less[k].prefix, path));
            }
        }
        assert(rule::is_rule_for(rules, path, n));
    }
}

/// The query that follows a path, where there is one.
pub open spec fn asked(query: Seq<char>) -> Seq<char> {
    if query.len() == 0 {
        Seq::empty()
    } else {
        seq!['?'] + query
    }
}

/// The queries of the upstream server and of the request, those that there are, with an
/// ampersand between two.
pub open spec fn both(base: Option<Seq<char>>, query: Seq<char>) -> Seq<char> {
    match base {
        Some(base) if base.len() > 0 && query.len() > 0 => base + seq!['&'] + query,
        Some(base) if base.len() > 0 => base,
        _ => query,
    }
}

/// Queries are merged so.
proof fn lemma_both(path: Seq<char>, base: Option<Seq<char>>, query: Seq<char>)
    ensures
        rule::with_query(path, rule::merged(base, query)) == path + asked(both(base, query)),
{
    reveal_strlit("&");
    reveal_strlit("?");
    assert("&"@ =~= seq!['&']);
    assert("?"@ =~= seq!['?']);
    assert(path + Seq::<char>::empty() =~= path);
    let q = both(base, query);
    assert(path + "?"@ + q =~= path + (seq!['?'] + q));
}

/// A target is cut into path and query.
proof fn lemma_path_and_query(path: Seq<char>, query: Seq<char>)
    requires
        !path.contains('?'),
    ensures
        rule::path_and_query(path + seq!['?'] + query) == (path, query),
        rule::path_and_query(path).0 == path,
        rule::path_and_query(path).1.len() == 0,
{
    plain::law_cut_in_two(path, '?', query);
    reveal_strlit("");
}

/// An upstream server without a base path gets the path as it is; one with a base path gets
/// that, and below it what follows the prefix in the path, with one slash between them, or
/// the base path alone where nothing but slashes follows. The query of the server comes
/// first, then that of the request.
pub proof fn law_target_for_upstream(
    rule: ProxyRuleView,
    path: Seq<char>,
    slashes: Seq<char>,
    below: Seq<char>,
    query: Seq<char>,
)
    requires
        !path.contains('?'),
        !rule.prefix.contains('?'),
        !below.contains('?'),
        plain::only(slashes, '/'),
        below.len() > 0 ==> below[0] != '/',
    ensures
        rule.upstream.base_path == seq!['/'] ==> {
            &&& rule::upstream_target(path + seq!['?'] + query, rule) == path + asked(
                both(rule.upstream.base_query, query),
            )
            &&& rule::upstream_target(path, rule) == path + asked(
                both(rule.upstream.base_query, Seq::empty()),
            )
        },
        rule.upstream.base_path.len() > 0 && rule.upstream.base_path[rule.upstream.base_path.len()
            - 1] != '/' ==> {
            let base = rule.upstream.base_path;
            let asked_for = rule.prefix + slashes + below;
            let there = if below.len() == 0 {
                base
            } else {
                base + seq!['/'] + below
            };
            &&& rule::upstream_target(asked_for + seq!['?'] + query, rule) == there + asked(
                both(rule.upstream.base_query, query),
            )
            &&& rule::upstream_target(asked_for, rule) == there + asked(
                both(rule.upstream.base_query, Seq::empty()),
            )
        },
{
    reveal_strlit("/");
    assert("/"@ =~= seq!['/']);
    let none = Seq::<char>::empty();
    let base = rule.upstream.base_path;
    let base_query = rule.upstream.base_query;
    lemma_path_and_query(path, query);
    let asked_for = rule.prefix + slashes + below;
    assert forall|i: int| 0 <= i < asked_for.len() implies asked_for[i] != '?' by {
        if i < rule.prefix.len() {
            assert(rule.prefix.contains(rule.prefix[i]));
        } else if i < rule.prefix.len() + slashes.len() {
            assert(slashes[i - rule.prefix.len()] == '/');
        } else {
            assert(below.contains(below[i - rule.prefix.len() - slashes.len()]));
        }
    }
    lemma_path_and_query(asked_for, query);
    if base == seq!['/'] {
        lemma_both(path, base_query, query);
        lemma_both(path, base_query, none);
        assert(rule::path_and_query(path).1 =~= none);
    } else if base.len() > 0 && base[base.len() - 1] != '/' {
        assert(asked_for =~= rule.prefix + (slashes + below));
        plain::law_prefix(rule.prefix, slashes + below, asked_for);
        plain::law_slashes_trimmed(slashes, below);
        plain::law_slashes_trimmed(none, base);
        assert(base + none =~= base);
        let there = if below.len() == 0 {
            base
        } else {
            base + seq!['/'] + below
        };
        lemma_both(there, base_query, query);
        lemma_both(there, base_query, none);
        assert(rule::path_and_query(asked_for).1 =~= none);
    }
}

/// What is read where no rule covers the path: the path goes below the base as it is.
pub proof fn law_target_without_prefix(
    rule: ProxyRuleView,
    slashes: Seq<char>,
    below: Seq<char>,
    query: Seq<char>,
)
    requires
        !below.contains('?'),
        plain::only(slashes, '/'),
        below.len() > 0 ==> below[0] != '/',
        forall|rest: Seq<char>| slashes + below != #[trigger] (rule.prefix + rest),
        rule.upstream.base_path.len() > 0,
        rule.upstream.base_path[rule.upstream.base_path.len() - 1] != '/',
    ensures
        rule::upstream_target(slashes + below + seq!['?'] + query, rule) == (if below.len() == 0 {
            rule.upstream.base_path
        } else {
            rule.upstream.base_path + seq!['/'] + below
        }) + asked(both(rule.upstream.base_query, query)),
{
    reveal_strlit("/");
    assert("/"@ =~= seq!['/']);
    let none = Seq::<char>::empty();
    let base = rule.upstream.base_path;
    let path = slashes + below;
    assert forall|i: int| 0 <= i < path.len() implies path[i] != '?' by {
        if i < slashes.len() {
            assert(slashes[i] == '/');
        } else {
            assert(below.contains(below[i - slashes.len()]));
        }
    }
    lemma_path_and_query(path, query);
    plain::law_prefix(rule.prefix, none, path);
    plain::law_slashes_trimmed(slashes, below);
    plain::law_slashes_trimmed(none, base);
    assert(base + none =~= base);
    lemma_both(
        if below.len() == 0 {
            base
        } else {
            base + seq!['/'] + below
        },
        rule.upstream.base_query,
        query,
    );
}

/// The scheme of an upstream target, as it is written before the host.
pub open spec fn written_scheme(scheme: UpstreamScheme) -> Seq<char> {
    match scheme {
        UpstreamScheme::Http => "http://"@,
        UpstreamScheme::Https => "https://"@,
    }
}

/// The port of a scheme: 80 for HTTP and 443 for HTTPS.
pub open spec fn usual_port(scheme: UpstreamScheme) -> u16 {
    match scheme {
        UpstreamScheme::Http => 80,
        UpstreamScheme::Https => 443,
    }
}

/// A host as it may stand in a target: a name or an address without colons, or an address
/// in brackets.
pub open spec fn is_host(host: Seq<char>) -> bool {
    &&& host.len() > 0
    &&& !host.contains('/') && !host.contains('?') && !host.contains(':') && !host.contains('[')
}

/// What is wrong or right with a target is decided by its scheme, and by what stands before
/// and after the first slash or question mark behind it.
proof fn lemma_upstream(
    scheme: UpstreamScheme,
    authority: Seq<char>,
    tail: Seq<char>,
)
    requires
        !authority.contains('/') && !authority.contains('?'),
        tail.len() > 0 ==> tail[0] == '/' || tail[0] == '?',
    ensures
        rule::upstream_in(written_scheme(scheme) + authority + tail) == rule::upstream_after(
            scheme,
            authority + tail,
            written_scheme(scheme) + authority + tail,
        ),
        rule::authority_end(authority + tail, 0) == authority.len(),
        (authority + tail).take(authority.len() as int) == authority,
{
    reveal_strlit("http://");
    reveal_strlit("https://");
    let rest = authority + tail;
    let value = written_scheme(scheme) + authority + tail;
    assert(value =~= written_scheme(scheme) + rest);
    plain::law_prefix(written_scheme(scheme), rest, value);
    if scheme == UpstreamScheme::Https {
        assert(value[4] == 's');
        assert("http://"@[4] == ':');
        if text::starts_with(value, "http://"@) {
            assert(value.take(7)[4] == value[4]);
        }
    }
    lemma_authority_end(authority, tail, 0);
    assert(rest.take(authority.len() as int) =~= authority);
}

proof fn lemma_authority_end(authority: Seq<char>, tail: Seq<char>, from: int)
    requires
        !authority.contains('/') && !authority.contains('?'),
        tail.len() > 0 ==> tail[0] == '/' || tail[0] == '?',
        0 <= from <= authority.len(),
    ensures
        rule::authority_end(authority + tail, from) == authority.len(),
    decreases authority.len() - from,
{
    let rest = authority + tail;
    if from < authority.len() {
        assert(rest[from] == authority[from]);
        assert(authority.contains(authority[from]));
        lemma_authority_end(authority, tail, from + 1);
    } else if tail.len() > 0 {
        assert(rest[from] == tail[0]);
    }
}

/// What the part of a target behind its host says: the base path between the slashes at its
/// ends, after one slash, and the query, where there is one.
pub open spec fn tail_of(
    lead: Seq<char>,
    inner: Seq<char>,
    slashes: Seq<char>,
    query: Option<Seq<char>>,
) -> Seq<char> {
    lead + inner + slashes + match query {
        Some(query) => seq!['?'] + query,
        None => Seq::empty(),
    }
}

/// Whether the parts of a tail can stand so.
pub open spec fn is_tail(
    lead: Seq<char>,
    inner: Seq<char>,
    slashes: Seq<char>,
    query: Option<Seq<char>>,
) -> bool {
    &&& plain::only(lead, '/')
    &&& plain::only(slashes, '/')
    &&& !inner.contains('?')
    &&& inner.len() > 0 ==> inner[0] != '/' && inner[inner.len() - 1] != '/' && lead.len() > 0
    &&& lead.len() == 0 ==> slashes.len() == 0
}

proof fn lemma_base(
    lead: Seq<char>,
    inner: Seq<char>,
    slashes: Seq<char>,
    query: Option<Seq<char>>,
    cut: Seq<char>,
)
    requires
        plain::only(lead, '/'),
        plain::only(slashes, '/'),
        !inner.contains('?'),
        inner.len() > 0 ==> inner[0] != '/' && inner[inner.len() - 1] != '/',
        cut == tail_of(lead, inner, slashes, query),
    ensures
        rule::base_in(cut) == (
            seq!['/'] + inner,
            match query {
                Some(query) if query.len() > 0 => Some(query),
                _ => None,
            },
        ),
{
    reveal_strlit("/");
    assert("/"@ =~= seq!['/']);
    let none = Seq::<char>::empty();
    let path = lead + inner + slashes;
    assert forall|i: int| 0 <= i < path.len() implies path[i] != '?' by {
        if i < lead.len() {
            assert(lead[i] == '/');
        } else if i < lead.len() + inner.len() {
            assert(inner.contains(inner[i - lead.len()]));
        } else {
            assert(slashes[i - lead.len() - inner.len()] == '/');
        }
    }
    match query {
        Some(query) => {
            assert(cut =~= path + seq!['?'] + query);
            lemma_path_and_query(path, query);
        },
        None => {
            assert(cut =~= path);
            lemma_path_and_query(path, none);
        },
    }
    if inner.len() > 0 {
        assert(path =~= lead + (inner + slashes));
        assert((inner + slashes)[0] == inner[0]);
        plain::law_slashes_trimmed(lead, inner + slashes);
        plain::law_slashes_trimmed(slashes, inner);
    } else {
        assert forall|i: int| 0 <= i < path.len() implies #[trigger] path[i] == '/' by {
            if i < lead.len() {
                assert(path[i] == lead[i]);
            } else {
                assert(path[i] == slashes[i - lead.len()]);
            }
        }
        assert(path + none =~= path);
        plain::law_slashes_trimmed(path, none);
        plain::law_slashes_trimmed(none, none);
        assert(none + none =~= none);
        assert(seq!['/'] + inner =~= "/"@);
    }
}

proof fn lemma_tail_base(
    lead: Seq<char>,
    inner: Seq<char>,
    slashes: Seq<char>,
    query: Option<Seq<char>>,
)
    requires
        is_tail(lead, inner, slashes, query),
    ensures
        ({
            let tail = tail_of(lead, inner, slashes, query);
            let cut = if tail.len() > 0 && tail[0] == '/' {
                tail.skip(1)
            } else {
                tail
            };
            rule::base_in(cut) == (
                seq!['/'] + inner,
                match query {
                    Some(query) if query.len() > 0 => Some(query),
                    _ => None,
                },
            )
        }),
{
    let tail = tail_of(lead, inner, slashes, query);
    if lead.len() > 0 {
        assert(lead[0] == '/');
        assert(tail[0] == '/');
        let less = lead.skip(1);
        assert forall|i: int| 0 <= i < less.len() implies #[trigger] less[i] == '/' by {
            assert(less[i] == lead[i + 1]);
        }
        assert(tail.skip(1) =~= tail_of(less, inner, slashes, query));
        lemma_base(less, inner, slashes, query, tail.skip(1));
    } else {
        lemma_base(lead, inner, slashes, query, tail);
        if tail.len() > 0 {
            assert(tail[0] == '?');
        }
    }
}

/// A target names a scheme, a host, a port, a base path and a query, and reads back as these:
/// with the port that is written, or the usual one of the scheme, 80 or 443; with the base
/// path between one slash and no slash at its end; and with the query, unless it is empty.
pub proof fn law_target_reads_back(
    scheme: UpstreamScheme,
    host: Seq<char>,
    port: u16,
    lead: Seq<char>,
    inner: Seq<char>,
    slashes: Seq<char>,
    query: Option<Seq<char>>,
)
    requires
        is_host(host),
        is_tail(lead, inner, slashes, query),
    ensures
        ({
            let tail = tail_of(lead, inner, slashes, query);
            let made = UpstreamView {
                scheme,
                host,
                port,
                base_path: seq!['/'] + inner,
                base_query: match query {
                    Some(query) if query.len() > 0 => Some(query),
                    _ => None,
                },
            };
            &&& rule::upstream_in(
                written_scheme(scheme) + (host + seq![':'] + number::decimal(port as nat)) + tail,
            ) == Ok::<UpstreamView, Seq<char>>(made)
            &&& rule::upstream_in(written_scheme(scheme) + host + tail) == Ok::<
                UpstreamView,
                Seq<char>,
            >(UpstreamView { port: usual_port(scheme), ..made })
        }),
{
    let digits = number::decimal(port as nat);
    let full = host + seq![':'] + digits;
    let tail = tail_of(lead, inner, slashes, query);
    lemma_digits(port as nat);
    number::law_decimal_read_back(port as nat, u16::MAX as nat);
    lemma_tail_base(lead, inner, slashes, query);
    if tail.len() > 0 {
        if lead.len() > 0 {
            assert(tail[0] == lead[0]);
            assert(lead[0] == '/');
        } else {
            assert(tail[0] == '?');
        }
    }
    assert forall|i: int| 0 <= i < full.len() implies full[i] != '/' && full[i] != '?' && (full[i]
        == ':' ==> i == host.len()) && full[i] != '[' by {
        if i < host.len() {
            assert(host.contains(host[i]));
        } else if i > host.len() {
            assert(plain::figure(digits[i - host.len() - 1]));
        }
    }
    lemma_upstream(scheme, full, tail);
    lemma_upstream(scheme, host, tail);
    lemma_no_bracket(full);
    lemma_no_bracket(host);
    lemma_cut_tail(full, tail);
    lemma_cut_tail(host, tail);
    plain::law_cut_in_two(host, ':', digits);
    plain::law_count(full, ':');
    plain::law_count(host, ':');
    if text::count(full, ':') > 1 {
        let (i, j) = choose|i: int, j: int|
            0 <= i < j < full.len() && #[trigger] full[i] == ':' && #[trigger] full[j] == ':';
        assert(false);
    }
}

/// What follows the host in a target, without the slash that it may start with.
proof fn lemma_cut_tail(authority: Seq<char>, tail: Seq<char>)
    ensures
        ({
            let rest = authority + tail;
            let k = authority.len() as int;
            &&& k >= rest.len() <==> tail.len() == 0
            &&& rest.skip(k) == tail
            &&& tail.len() > 0 ==> rest[k] == tail[0] && rest.skip(k + 1) == tail.skip(1)
            &&& tail.len() == 0 ==> ""@ == tail
        }),
{
    reveal_strlit("");
    let rest = authority + tail;
    let k = authority.len() as int;
    assert(rest.skip(k) =~= tail);
    if tail.len() > 0 {
        assert(rest.skip(k + 1) =~= tail.skip(1));
    } else {
        assert(""@ =~= tail);
    }
}

proof fn lemma_no_bracket(authority: Seq<char>)
    requires
        authority.len() > 0 ==> authority[0] != '[',
    ensures
        text::strip_prefix(authority, "["@) is None,
{
    reveal_strlit("[");
    if text::starts_with(authority, "["@) {
        assert(authority.take(1)[0] == authority[0]);
    }
}

/// Digits are digits.
proof fn lemma_digits(n: nat)
    ensures
        number::decimal(n).len() > 0,
        forall|i: int|
            0 <= i < number::decimal(n).len() ==> plain::figure(#[trigger] number::decimal(n)[i]),
{
    number::lemma_decimal(n);
    let s = number::decimal(n);
    assert forall|i: int| 0 <= i < s.len() implies plain::figure(#[trigger] s[i]) by {
        assert(number::is_digit(s[i]));
    }
}

/// An address in brackets is read without them, with the port that follows it or the usual
/// one; an address with more than one colon and no brackets is a host without a port.
pub proof fn law_address_reads_back(
    scheme: UpstreamScheme,
    address: Seq<char>,
    port: u16,
    lead: Seq<char>,
    inner: Seq<char>,
    slashes: Seq<char>,
    query: Option<Seq<char>>,
)
    requires
        address.len() > 0,
        !address.contains('/') && !address.contains('?') && !address.contains(']'),
        is_tail(lead, inner, slashes, query),
    ensures
        ({
            let tail = tail_of(lead, inner, slashes, query);
            let made = UpstreamView {
                scheme,
                host: address,
                port,
                base_path: seq!['/'] + inner,
                base_query: match query {
                    Some(query) if query.len() > 0 => Some(query),
                    _ => None,
                },
            };
            let boxed = seq!['['] + address + seq![']'];
            &&& rule::upstream_in(
                written_scheme(scheme) + (boxed + seq![':'] + number::decimal(port as nat)) + tail,
            ) == Ok::<UpstreamView, Seq<char>>(made)
            &&& rule::upstream_in(written_scheme(scheme) + boxed + tail) == Ok::<
                UpstreamView,
                Seq<char>,
            >(UpstreamView { port: usual_port(scheme), ..made })
            &&& address[0] != '[' && (exists|i: int, j: int|
                0 <= i < j < address.len() && #[trigger] address[i] == ':' && #[trigger] address[j]
                    == ':') ==> rule::upstream_in(written_scheme(scheme) + address + tail) == Ok::<
                UpstreamView,
                Seq<char>,
            >(UpstreamView { port: usual_port(scheme), ..made })
        }),
{
    reveal_strlit("[");
    reveal_strlit(":");
    assert("["@ =~= seq!['[']);
    assert(":"@ =~= seq![':']);
    let digits = number::decimal(port as nat);
    let boxed = seq!['['] + address + seq![']'];
    let full = boxed + seq![':'] + digits;
    let tail = tail_of(lead, inner, slashes, query);
    lemma_digits(port as nat);
    number::law_decimal_read_back(port as nat, u16::MAX as nat);
    lemma_tail_base(lead, inner, slashes, query);
    if tail.len() > 0 {
        if lead.len() > 0 {
            assert(tail[0] == lead[0]);
            assert(lead[0] == '/');
        } else {
            assert(tail[0] == '?');
        }
    }
    assert forall|i: int| 0 <= i < full.len() implies full[i] != '/' && full[i] != '?' by {
        if 0 < i <= address.len() {
            assert(full[i] == address[i - 1]);
            assert(address.contains(address[i - 1]));
        } else if i > address.len() + 2 {
            assert(full[i] == digits[i - address.len() - 3]);
            assert(plain::figure(digits[i - address.len() - 3]));
        }
    }
    assert forall|i: int| 0 <= i < boxed.len() implies boxed[i] != '/' && boxed[i] != '?' by {
        assert(boxed[i] == full[i]);
    }
    lemma_upstream(scheme, full, tail);
    lemma_upstream(scheme, boxed, tail);
    lemma_upstream(scheme, address, tail);
    lemma_cut_tail(full, tail);
    lemma_cut_tail(boxed, tail);
    lemma_cut_tail(address, tail);
    let none = Seq::<char>::empty();
    assert(full =~= "["@ + (address + seq![']'] + (":"@ + digits)));
    assert(boxed =~= "["@ + (address + seq![']'] + none));
    plain::law_prefix("["@, address + seq![']'] + (":"@ + digits), full);
    plain::law_prefix("["@, address + seq![']'] + none, boxed);
    plain::law_cut_in_two(address, ']', ":"@ + digits);
    plain::law_cut_in_two(address, ']', none);
    plain::law_prefix(":"@, digits, ":"@ + digits);
    if address[0] != '[' {
        lemma_no_bracket(address);
        plain::law_count(address, ':');
    }
}

/// Whether `value` does not start with `start`.
pub open spec fn is_without(value: Seq<char>, start: Seq<char>) -> bool {
    value.len() < start.len() || value.take(start.len() as int) != start
}

/// What is wrong with a target is said: a scheme other than the two, no host, and a port
/// that is no number.
pub proof fn law_wrong_targets(
    value: Seq<char>,
    scheme: UpstreamScheme,
    host: Seq<char>,
    port: Seq<char>,
    tail: Seq<char>,
)
    requires
        tail.len() > 0 ==> tail[0] == '/' || tail[0] == '?',
        is_host(host),
        !port.contains('/') && !port.contains('?') && !port.contains(':'),
    ensures
        is_without(value, "http://"@) && is_without(value, "https://"@) ==> rule::upstream_in(
            value,
        ) == Err::<UpstreamView, Seq<char>>(
            "Proxy target must start with http:// or https://: "@ + value,
        ),
        rule::upstream_in(written_scheme(scheme) + tail) == Err::<UpstreamView, Seq<char>>(
            "Missing proxy upstream host: "@ + (written_scheme(scheme) + tail),
        ),
        number::number(port, u16::MAX as nat) is None ==> rule::upstream_in(
            written_scheme(scheme) + (host + seq![':'] + port) + tail,
        ) == Err::<UpstreamView, Seq<char>>("Invalid proxy upstream port: "@ + port),
{
    let none = Seq::<char>::empty();
    if is_without(value, "http://"@) && is_without(value, "https://"@) {
        plain::law_prefix("http://"@, none, value);
        plain::law_prefix("https://"@, none, value);
    }
    lemma_upstream(scheme, none, tail);
    assert(written_scheme(scheme) + none + tail =~= written_scheme(scheme) + tail);
    let full = host + seq![':'] + port;
    assert forall|i: int| 0 <= i < full.len() implies full[i] != '/' && full[i] != '?' && (full[i]
        == ':' ==> i == host.len()) by {
        if i < host.len() {
            assert(host.contains(host[i]));
        } else if i > host.len() {
            assert(port.contains(port[i - host.len() - 1]));
        }
    }
    assert(host.contains(host[0]));
    assert(full[0] == host[0]);
    lemma_upstream(scheme, full, tail);
    lemma_no_bracket(full);
    lemma_cut_tail(full, tail);
    plain::law_cut_in_two(host, ':', port);
    plain::law_count(full, ':');
    if text::count(full, ':') > 1 {
        let (i, j) = choose|i: int, j: int|
            0 <= i < j < full.len() && #[trigger] full[i] == ':' && #[trigger] full[j] == ':';
        assert(false);
    }
}

/// What is wrong with an address in brackets is said: no closing bracket, nothing between
/// the brackets, something other than a port behind them, and a port that is no number. A
/// port without a host is taken for the host.
pub proof fn law_wrong_addresses(address: Seq<char>, after: Seq<char>, port: u16)
    requires
        !address.contains(']'),
    ensures
        rule::authority_in(seq!['['] + address, port) == Err::<(Seq<char>, u16), Seq<char>>(
            "Invalid IPv6 proxy upstream authority: "@ + (seq!['['] + address),
        ),
        ({
            let whole = seq!['['] + address + seq![']'] + after;
            &&& address.len() == 0 ==> rule::authority_in(whole, port) == Err::<
                (Seq<char>, u16),
                Seq<char>,
            >("Missing proxy upstream host: "@ + whole)
            &&& address.len() > 0 && after.len() > 0 && after[0] != ':' ==> rule::authority_in(
                whole,
                port,
            ) == Err::<(Seq<char>, u16), Seq<char>>(
                "Invalid IPv6 proxy upstream authority: "@ + whole,
            )
            &&& address.len() > 0 && after.len() > 0 && after[0] == ':' && number::number(
                after.skip(1),
                u16::MAX as nat,
            ) is None ==> rule::authority_in(whole, port) == Err::<(Seq<char>, u16), Seq<char>>(
                "Invalid proxy upstream port in authority: "@ + whole,
            )
        }),
        !after.contains(':') ==> rule::authority_in(seq![':'] + after, port) == Ok::<
            (Seq<char>, u16),
            Seq<char>,
        >((seq![':'] + after, port)),
{
    reveal_strlit("[");
    reveal_strlit(":");
    assert("["@ =~= seq!['[']);
    assert(":"@ =~= seq![':']);
    let open = seq!['['] + address;
    let whole = seq!['['] + address + seq![']'] + after;
    assert(whole =~= "["@ + (address + seq![']'] + after));
    plain::law_prefix("["@, address, open);
    plain::law_prefix("["@, address + seq![']'] + after, whole);
    plain::law_cut_in_two(address, ']', after);
    plain::law_prefix(":"@, after.skip(1), after);
    if after.len() > 0 && after[0] == ':' {
        assert(after =~= ":"@ + after.skip(1));
    }
    if !after.contains(':') {
        let late = seq![':'] + after;
        let none = Seq::<char>::empty();
        assert(late =~= none + seq![':'] + after);
        lemma_no_bracket(late);
        plain::law_cut_in_two(none, ':', after);
        plain::law_count(late, ':');
        if text::count(late, ':') > 1 {
            let (i, j) = choose|i: int, j: int|
                0 <= i < j < late.len() && #[trigger] late[i] == ':' && #[trigger] late[j] == ':';
            assert(after.contains(after[j - 1]));
        }
    }
}

/// A rule has the prefix that it was made with, without the slashes at its end but for the
/// root, and the upstream server that its target names; a prefix that starts with no slash
/// is refused. As one text, a prefix and a target are parted by the first equals sign.
pub proof fn law_rule_reads_back(
    name: Seq<char>,
    slashes: Seq<char>,
    target: Seq<char>,
    upstream: UpstreamView,
)
    requires
        plain::only(slashes, '/'),
        name.len() > 0 ==> name[name.len() - 1] != '/',
        rule::upstream_in(target) == Ok::<UpstreamView, Seq<char>>(upstream),
    ensures
        name.len() > 0 && name[0] == '/' ==> rule::rule_for(name + slashes, target) == Ok::<
            ProxyRuleView,
            Seq<char>,
        >(ProxyRuleView { prefix: name, upstream }),
        slashes.len() > 0 ==> rule::rule_for(slashes, target) == Ok::<ProxyRuleView, Seq<char>>(
            ProxyRuleView { prefix: seq!['/'], upstream },
        ),
        (name.len() == 0 || name[0] != '/') ==> rule::rule_for(name, target) == Err::<
            ProxyRuleView,
            Seq<char>,
        >("Proxy prefix must start with '/': "@ + name),
        forall|p: Seq<char>, t: Seq<char>|
            !p.contains('=') ==> #[trigger] rule::rule_in(p + seq!['='] + t) == rule::rule_for(
                p,
                t,
            ),
        forall|p: Seq<char>|
            !p.contains('=') ==> #[trigger] rule::rule_in(p) == Err::<ProxyRuleView, Seq<char>>(
                "Invalid proxy rule '"@ + p + "', expected /path=http[s]://host:port"@,
            ),
{
    reveal_strlit("/");
    assert("/"@ =~= seq!['/']);
    let none = Seq::<char>::empty();
    if name.len() > 0 && name[0] == '/' {
        let prefix = name + slashes;
        assert(prefix.take(1) =~= "/"@);
        plain::law_slashes_trimmed(slashes, name);
    }
    if slashes.len() > 0 {
        assert(slashes[0] == '/');
        assert(slashes.take(1) =~= "/"@);
        plain::law_slashes_trimmed(slashes, none);
        assert(none + slashes =~= slashes);
    }
    if name.len() == 0 || name[0] != '/' {
        if text::starts_with(name, "/"@) {
            assert(name.take(1)[0] == name[0]);
        }
    }
    assert forall|p: Seq<char>, t: Seq<char>|
        !p.contains('=') implies #[trigger] rule::rule_in(p + seq!['='] + t) == rule::rule_for(
        p,
        t,
    ) by {
        plain::law_cut_in_two(p, '=', t);
    }
    assert forall|p: Seq<char>| !p.contains('=') implies #[trigger] rule::rule_in(p) == Err::<
        ProxyRuleView,
        Seq<char>,
    >("Invalid proxy rule '"@ + p + "', expected /path=http[s]://host:port"@) by {
        plain::law_cut_in_two(p, '=', none);
    }
}

/// An upstream server is called by its host, and by its port where that is not the usual one
/// of its scheme, 80 or 443.
pub proof fn law_authority(upstream: UpstreamView)
    ensures
        upstream.authority() == if upstream.port == usual_port(upstream.scheme) {
            upstream.host
        } else {
            upstream.host + seq![':'] + number::decimal(upstream.port as nat)
        },
        upstream.scheme.name() == match upstream.scheme {
            UpstreamScheme::Http => seq!['h', 't', 't', 'p'],
            UpstreamScheme::Https => seq!['h', 't', 't', 'p', 's'],
        },
{
    reveal_strlit(":");
    reveal_strlit("http");
    reveal_strlit("https");
    assert(":"@ =~= seq![':']);
    assert("http"@ =~= seq!['h', 't', 't', 'p']);
    assert("https"@ =~= seq!['h', 't', 't', 'p', 's']);
}

} // verus!
