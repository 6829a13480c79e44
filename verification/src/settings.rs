//! The settings of a server: what each default, each line of a configuration file and each
//! argument makes of a configuration, for every value that can be written down.
use crate::config;
use crate::config::{ConfigFile, ConfigView, Reading, SectionView};
use crate::notation;
use crate::number;
use crate::plain;
use crate::rule;
use crate::runtime::RuntimeConfig;
use crate::server;
use crate::text;
use crate::toml;
use vstd::prelude::*;

verus! {

/// How many connections there is room for where `limit` file descriptors can be open: all
/// but 128 of them, but at least 1 and at most 16384.
pub open spec fn room(limit: nat) -> nat {
    if limit <= 129 {
        1
    } else if limit >= 16512 {
        16384
    } else {
        (limit - 128) as nat
    }
}

/// The settings of a server where nothing is set.
pub proof fn law_defaults(dir: Seq<char>, limit: Option<usize>)
    ensures
        ({
            let made = ConfigView::defaults(dir, limit);
            &&& made.host == "127.0.0.1"@
            &&& made.port == 8080
            &&& made.root == dir
            &&& made.spa_fallback
            &&& made.proxies.len() == 0
            &&& made.runtime.keep_alive_timeout_secs == 5
            &&& made.runtime.keep_alive_max == 100
            &&& made.runtime.max_events == 256
            &&& made.runtime.max_request_size == 1048576
            &&& made.runtime.max_connections == match limit {
                Some(limit) => room(limit as nat),
                None => 4096,
            }
        }),
{
}

/// The limits of a server: each must be above zero, in this order, and there is room for as
/// many connections as the file descriptors leave, which are never raised.
pub proof fn law_limits(limits: RuntimeConfig, limit: Option<usize>)
    ensures
        limits.problem() is None <==> limits.keep_alive_timeout_secs > 0 && limits.keep_alive_max
            > 0 && limits.max_events > 0 && limits.max_connections > 0 && limits.max_request_size
            > 0,
        limits.keep_alive_timeout_secs == 0 ==> limits.problem() == Some(
            "keep-alive timeout must be greater than 0"@,
        ),
        limits.keep_alive_timeout_secs > 0 && limits.keep_alive_max == 0 ==> limits.problem()
            == Some("keep-alive max must be greater than 0"@),
        limits.keep_alive_timeout_secs > 0 && limits.keep_alive_max > 0 && limits.max_events == 0
            ==> limits.problem() == Some("max-events must be greater than 0"@),
        limits.keep_alive_timeout_secs > 0 && limits.keep_alive_max > 0 && limits.max_events > 0
            && limits.max_connections == 0 ==> limits.problem() == Some(
            "max-connections must be greater than 0"@,
        ),
        limits.keep_alive_timeout_secs > 0 && limits.keep_alive_max > 0 && limits.max_events > 0
            && limits.max_connections > 0 && limits.max_request_size == 0 ==> limits.problem()
            == Some("max-request-size must be greater than 0"@),
        limits.capped(limit) == match limit {
            Some(limit) if limits.max_connections > room(limit as nat) => RuntimeConfig {
                max_connections: room(limit as nat) as usize,
                ..limits
            },
            _ => limits,
        },
        limit matches Some(n) ==> limits.cap_warning(n) == "Warning: max_connections="@
            + number::decimal(limits.max_connections as nat)
            + " exceeds OS file descriptor limit "@ + number::decimal(n as nat) + " (reserved "@
            + number::decimal(128) + "), capping to "@ + number::decimal(room(n as nat)),
{
}

/// A text of a configuration file is read as it stands in quotes, a number as its digits
/// say, and a switch as `true` or `false`; anything else is refused, with its line.
pub proof fn law_values(
    s: Seq<char>,
    n: usize,
    port: u16,
    other: Seq<char>,
    path: Seq<char>,
    line: nat,
)
    ensures
        toml::string_in(toml::in_quotes(s), path, line) == Ok::<Seq<char>, Seq<char>>(s),
        toml::size_in(number::decimal(n as nat), path, line) == Ok::<usize, Seq<char>>(n),
        toml::port_in(number::decimal(port as nat), path, line) == Ok::<u16, Seq<char>>(port),
        toml::bool_in("true"@, path, line) == Ok::<bool, Seq<char>>(true),
        toml::bool_in("false"@, path, line) == Ok::<bool, Seq<char>>(false),
        (other.len() < 2 || other[0] != '"' || other[other.len() - 1] != '"') ==> toml::string_in(
            other,
            path,
            line,
        ) == Err::<Seq<char>, Seq<char>>(
            path + ":"@ + number::decimal(line) + ": "@ + ("expected quoted string, got: "@
                + other),
        ),
        number::number(other, usize::MAX as nat) is None ==> toml::size_in(other, path, line)
            == Err::<usize, Seq<char>>(
            path + ":"@ + number::decimal(line) + ": "@ + ("expected integer, got: "@ + other),
        ),
        number::number(other, u16::MAX as nat) is None ==> toml::port_in(other, path, line)
            == Err::<u16, Seq<char>>(
            path + ":"@ + number::decimal(line) + ": "@ + ("expected port number, got: "@ + other),
        ),
        other != "true"@ && other != "false"@ ==> toml::bool_in(other, path, line) == Err::<
            bool,
            Seq<char>,
        >(path + ":"@ + number::decimal(line) + ": "@ + ("expected boolean, got: "@ + other)),
{
    toml::law_quoted_text_reads_back(s);
    number::law_decimal_read_back(n as nat, usize::MAX as nat);
    number::law_decimal_read_back(port as nat, u16::MAX as nat);
    reveal_strlit("true");
    reveal_strlit("false");
    assert("true"@.len() == 4 && "false"@.len() == 5);
}

/// Each key of a configuration file sets its own field, and no other; a key that is none is
/// refused.
pub proof fn law_keys(
    config: ConfigView,
    s: Seq<char>,
    n: usize,
    port: u16,
    key: Seq<char>,
    value: Seq<char>,
    path: Seq<char>,
    line: nat,
)
    ensures
        ({
            let text = toml::in_quotes(s);
            let size = number::decimal(n as nat);
            let digits = number::decimal(port as nat);
            let runtime = config.runtime;
            let set = |key: Seq<char>, value: Seq<char>|
                config.with_setting(key, value, path, line);
            &&& set("host"@, text) == Ok::<ConfigView, Seq<char>>(ConfigView { host: s, ..config })
            &&& set("port"@, digits) == Ok::<ConfigView, Seq<char>>(ConfigView { port, ..config })
            &&& set("root"@, text) == Ok::<ConfigView, Seq<char>>(ConfigView { root: s, ..config })
            &&& set("dir"@, text) == Ok::<ConfigView, Seq<char>>(ConfigView { root: s, ..config })
            &&& set("spa_fallback"@, "true"@) == Ok::<ConfigView, Seq<char>>(
                ConfigView { spa_fallback: true, ..config },
            )
            &&& set("spa_fallback"@, "false"@) == Ok::<ConfigView, Seq<char>>(
                ConfigView { spa_fallback: false, ..config },
            )
            &&& set("keep_alive_timeout"@, size) == Ok::<ConfigView, Seq<char>>(
                ConfigView {
                    runtime: RuntimeConfig { keep_alive_timeout_secs: n as u64, ..runtime },
                    ..config
                },
            )
            &&& set("keep_alive_timeout_secs"@, size) == set("keep_alive_timeout"@, size)
            &&& set("keep_alive_max"@, size) == Ok::<ConfigView, Seq<char>>(
                ConfigView { runtime: RuntimeConfig { keep_alive_max: n, ..runtime }, ..config },
            )
            &&& set("max_events"@, size) == Ok::<ConfigView, Seq<char>>(
                ConfigView { runtime: RuntimeConfig { max_events: n, ..runtime }, ..config },
            )
            &&& set("max_connections"@, size) == Ok::<ConfigView, Seq<char>>(
                ConfigView { runtime: RuntimeConfig { max_connections: n, ..runtime }, ..config },
            )
            &&& set("max_request_size"@, size) == Ok::<ConfigView, Seq<char>>(
                ConfigView { runtime: RuntimeConfig { max_request_size: n, ..runtime }, ..config },
            )
            &&& key != "host"@ && key != "port"@ && key != "root"@ && key != "dir"@ && key
                != "spa_fallback"@ && key != "keep_alive_timeout"@ && key
                != "keep_alive_timeout_secs"@ && key != "keep_alive_max"@ && key != "max_events"@
                && key != "max_connections"@ && key != "max_request_size"@ ==> set(key, value)
                == Err::<ConfigView, Seq<char>>(
                path + ":"@ + number::decimal(line) + ": "@ + ("unsupported config key: "@ + key),
            )
            &&& (value.len() < 2 || value[0] != '"' || value[value.len() - 1] != '"') ==> set(
                "host"@,
                value,
            ) is Err && set("root"@, value) is Err && set("dir"@, value) is Err
            &&& number::number(value, u16::MAX as nat) is None ==> set("port"@, value) is Err
            &&& value != "true"@ && value != "false"@ ==> set("spa_fallback"@, value) is Err
            &&& number::number(value, usize::MAX as nat) is None ==> set(
                "keep_alive_timeout"@,
                value,
            ) is Err && set("keep_alive_timeout_secs"@, value) is Err && set(
                "keep_alive_max"@,
                value,
            ) is Err && set("max_events"@, value) is Err && set("max_connections"@, value) is Err
                && set("max_request_size"@, value) is Err
        }),
{
    law_values(s, n, port, value, path, line);
    lemma_key_names();
}

/// The keys differ.
proof fn lemma_key_names()
    ensures
        "host"@.len() == 4 && "host"@[0] == 'h',
        "port"@.len() == 4 && "port"@[0] == 'p',
        "root"@.len() == 4 && "root"@[0] == 'r',
        "dir"@.len() == 3,
        "spa_fallback"@.len() == 12,
        "keep_alive_timeout"@.len() == 18,
        "keep_alive_timeout_secs"@.len() == 23,
        "keep_alive_max"@.len() == 14,
        "max_events"@.len() == 10,
        "max_connections"@.len() == 15,
        "max_request_size"@.len() == 16,
{
    reveal_strlit("host");
    reveal_strlit("port");
    reveal_strlit("root");
    reveal_strlit("dir");
    reveal_strlit("spa_fallback");
    reveal_strlit("keep_alive_timeout");
    reveal_strlit("keep_alive_timeout_secs");
    reveal_strlit("keep_alive_max");
    reveal_strlit("max_events");
    reveal_strlit("max_connections");
    reveal_strlit("max_request_size");
}

/// Whether `s` holds no hash sign, no quote and no backslash.
pub open spec fn is_quiet(s: Seq<char>) -> bool {
    forall|i: int|
        0 <= i < s.len() ==> #[trigger] s[i] != '#' && s[i] != '"' && s[i] != '\\'
}

/// A comment is what follows the first hash sign outside quotes: what stands before it is
/// left, texts in quotes with it.
pub proof fn law_comments(a: Seq<char>, s: Seq<char>, b: Seq<char>, comment: Seq<char>)
    requires
        is_quiet(a),
        is_quiet(b),
        comment.len() > 0 ==> comment[0] == '#',
    ensures
        toml::uncommented(a + comment) == a,
        toml::uncommented(a + toml::in_quotes(s) + b + comment) == a + toml::in_quotes(s) + b,
{
    let line = a + comment;
    let n = a.len() as int;
    assert forall|i: int| 0 <= i < n implies #[trigger] line[i] != '"' && line[i] != '\\' && line[i]
        != '#' by {
        assert(line[i] == a[i]);
    }
    notation::lemma_passed_over(line, 0, n, false);
    assert(toml::comment_start(line, n, false, false) == n);
    assert(line.take(n) =~= a);
    let value = toml::in_quotes(s);
    let long = a + value + b + comment;
    let m = toml::escaped(s).len() as int;
    assert forall|i: int| 0 <= i < n implies #[trigger] long[i] != '"' && long[i] != '\\' && long[i]
        != '#' by {
        assert(long[i] == a[i]);
    }
    notation::lemma_passed_over(long, 0, n, false);
    assert(long[n] == '"' && long[n + 1 + m] == '"');
    assert(long.subrange(n + 1, n + 1 + m) =~= toml::escaped(s));
    toml::lemma_escaped_holds_no_comment(long, n + 1, s);
    let k = n + m + 2;
    let end = k + b.len();
    assert forall|i: int| k <= i < end implies #[trigger] long[i] != '"' && long[i] != '\\'
        && long[i] != '#' by {
        assert(long[i] == b[i - k]);
    }
    notation::lemma_passed_over(long, k, end, false);
    assert(toml::comment_start(long, end, false, false) == end);
    reveal_with_fuel(toml::comment_start, 2);
    assert(long.take(end) =~= a + value + b);
}

/// A line of a configuration file with a key, an equals sign and a value sets the key to the
/// value, whatever white space stands around them and whatever comment follows. The value
/// may be a text in quotes or anything without quotes.
pub proof fn law_line_is_a_setting(
    reading: Reading,
    lead: Seq<char>,
    key: Seq<char>,
    gap: Seq<char>,
    next_gap: Seq<char>,
    s: Seq<char>,
    value: Seq<char>,
    tail: Seq<char>,
    comment: Seq<char>,
    path: Seq<char>,
    line: nat,
)
    requires
        plain::all_white(lead) && plain::all_white(gap),
        plain::all_white(next_gap) && plain::all_white(tail),
        key.len() > 0 && plain::bare(key) && is_quiet(key),
        key[0] != '[' && !key.contains('='),
        plain::bare(value) && is_quiet(value),
        comment.len() > 0 ==> comment[0] == '#',
    ensures
        reading.after_line(
            lead + key + gap + seq!['='] + next_gap + toml::in_quotes(s) + tail + comment,
            path,
            line,
        ) == reading.set(key, toml::in_quotes(s), path, line),
        value.len() > 0 ==> reading.after_line(
            lead + key + gap + seq!['='] + next_gap + value + tail + comment,
            path,
            line,
        ) == reading.set(key, value, path, line),
        reading.after_line(lead + comment, path, line) == reading,
{
    let a = lead + key + gap + seq!['='] + next_gap;
    lemma_quiet_white(lead);
    lemma_quiet_white(gap);
    lemma_quiet_white(next_gap);
    lemma_quiet_white(tail);
    assert forall|i: int| 0 <= i < a.len() implies #[trigger] a[i] != '#' && a[i] != '"' && a[i]
        != '\\' by {
        if i < lead.len() {
            assert(a[i] == lead[i]);
        } else if i < lead.len() + key.len() {
            assert(a[i] == key[i - lead.len()]);
        } else if i < lead.len() + key.len() + gap.len() {
            assert(a[i] == gap[i - lead.len() - key.len()]);
        } else if i > lead.len() + key.len() + gap.len() {
            assert(a[i] == next_gap[i - lead.len() - key.len() - gap.len() - 1]);
        }
    }
    law_comments(a, s, tail, comment);
    let quoted = toml::in_quotes(s);
    assert(quoted[0] == '"' && quoted[quoted.len() - 1] == '"');
    lemma_setting_line(reading, lead, key, gap, next_gap, quoted, tail, path, line);
    assert(a + quoted + tail + comment =~= lead + key + gap + seq!['='] + next_gap + quoted + tail
        + comment);
    if value.len() > 0 {
        let b = a + value + tail;
        assert forall|i: int| 0 <= i < b.len() implies #[trigger] b[i] != '#' && b[i] != '"' && b[i]
            != '\\' by {
            if i < a.len() {
                assert(b[i] == a[i]);
            } else if i < a.len() + value.len() {
                assert(b[i] == value[i - a.len()]);
            } else {
                assert(b[i] == tail[i - a.len() - value.len()]);
            }
        }
        law_comments(b, s, tail, comment);
        lemma_setting_line(reading, lead, key, gap, next_gap, value, tail, path, line);
    }
    law_comments(lead, s, tail, comment);
    let none = Seq::<char>::empty();
    assert(lead + none + none =~= lead);
    plain::law_trimmed(lead, none, none);
}

proof fn lemma_quiet_white(s: Seq<char>)
    requires
        plain::all_white(s),
    ensures
        is_quiet(s),
{
    assert forall|i: int| 0 <= i < s.len() implies #[trigger] s[i] != '#' && s[i] != '"' && s[i]
        != '\\' by {
        assert(plain::white(s[i]));
    }
}

proof fn lemma_setting_line(
    reading: Reading,
    lead: Seq<char>,
    key: Seq<char>,
    gap: Seq<char>,
    next_gap: Seq<char>,
    value: Seq<char>,
    tail: Seq<char>,
    path: Seq<char>,
    line: nat,
)
    requires
        plain::all_white(lead) && plain::all_white(gap),
        plain::all_white(next_gap) && plain::all_white(tail),
        key.len() > 0 && plain::bare(key) && is_quiet(key),
        key[0] != '[' && !key.contains('='),
        plain::bare(value) && value.len() > 0,
    ensures
        ({
            let whole = lead + key + gap + seq!['='] + next_gap + value + tail;
            forall|raw: Seq<char>| #[trigger]
                toml::uncommented(raw) == whole ==> reading.after_line(raw, path, line)
                    == reading.set(key, value, path, line)
        }),
{
    let inner = key + gap + seq!['='] + next_gap + value;
    let whole = lead + key + gap + seq!['='] + next_gap + value + tail;
    assert(whole =~= lead + inner + tail);
    assert(inner[0] == key[0]);
    assert(inner[inner.len() - 1] == value[value.len() - 1]);
    plain::law_trimmed(lead, inner, tail);
    reveal_strlit("[[proxy]]");
    reveal_strlit("[[proxies]]");
    reveal_strlit("[proxy]");
    reveal_strlit("[proxies]");
    assert("[[proxy]]"@[0] == '[' && "[[proxies]]"@[0] == '[' && "[proxy]"@[0] == '['
        && "[proxies]"@[0] == '[');
    let before = key + gap;
    let after = next_gap + value;
    assert(inner =~= before + seq!['='] + after);
    assert forall|i: int| 0 <= i < before.len() implies before[i] != '=' by {
        if i < key.len() {
            assert(key.contains(key[i]));
        } else {
            assert(plain::white(gap[i - key.len()]));
        }
    }
    plain::law_cut_in_two(before, '=', after);
    let none = Seq::<char>::empty();
    assert(none + key + gap =~= before);
    plain::law_trimmed(none, key, gap);
    assert(next_gap + value + none =~= after);
    plain::law_trimmed(next_gap, value, none);
    assert(toml::key(key) == key) by {
        assert(key[0] != '"');
    }
}

/// A character after a backslash, in quotes, is meant so.
pub open spec fn meant(c: char) -> Seq<char> {
    let n = c as int;
    if n == 34 || n == 92 {
        seq![c]
    } else if n == 110 {
        seq![10u8 as char]
    } else if n == 114 {
        seq![13u8 as char]
    } else if n == 116 {
        seq![9u8 as char]
    } else {
        seq![92u8 as char, c]
    }
}

/// In quotes, a backslash and the character after it stand for a quote, a backslash, a line
/// break, a carriage return or a tab, and for both of them where the character is another; a
/// backslash at the end is no text. A key may stand in quotes or without.
pub proof fn law_backslashes(a: Seq<char>, c: char, b: Seq<char>, s: Seq<char>)
    requires
        !a.contains('\\') && !b.contains('\\'),
    ensures
        toml::quoted(seq!['"'] + a + seq!['\\', c] + b + seq!['"']) == Some(a + meant(c) + b),
        toml::quoted(seq!['"'] + a + seq!['\\'] + seq!['"']) is None,
        toml::key(toml::in_quotes(s)) == s,
        s.len() == 0 || s[0] != '"' ==> toml::key(s) == s,
{
    let inner = a + seq!['\\', c] + b;
    let value = seq!['"'] + a + seq!['\\', c] + b + seq!['"'];
    assert(value.subrange(1, value.len() - 1) =~= inner);
    let tail = seq!['\\', c] + b;
    assert(inner =~= a + tail);
    toml::law_plain_quotes(b);
    assert((seq!['"'] + b + seq!['"']).subrange(1, b.len() as int + 1) =~= b);
    assert(toml::unescaped(b) == Some(b));
    assert(tail.skip(2) =~= b);
    assert(toml::unescaped(tail) == Some(toml::escape(c) + b));
    assert(toml::escape(c) =~= meant(c));
    lemma_plain_first(a, tail);
    assert(a + (meant(c) + b) =~= a + meant(c) + b);
    let short = seq!['"'] + a + seq!['\\'] + seq!['"'];
    assert(short.subrange(1, short.len() - 1) =~= a + seq!['\\']);
    lemma_plain_first(a, seq!['\\']);
    toml::law_quoted_text_reads_back(s);
}

/// What stands before the first backslash stands for itself.
proof fn lemma_plain_first(a: Seq<char>, rest: Seq<char>)
    requires
        !a.contains('\\'),
    ensures
        toml::unescaped(a + rest) == match toml::unescaped(rest) {
            Some(end) => Some(a + end),
            None => None::<Seq<char>>,
        },
    decreases a.len(),
{
    let all = a + rest;
    if a.len() == 0 {
        assert(all =~= rest);
        if let Some(end) = toml::unescaped(rest) {
            assert(a + end =~= end);
        }
    } else {
        let less = a.skip(1);
        assert(a.contains(a[0]));
        assert forall|i: int| 0 <= i < less.len() implies less[i] != '\\' by {
            assert(a.contains(a[i + 1]));
        }
        lemma_plain_first(less, rest);
        assert(all.skip(1) =~= less + rest);
        if let Some(end) = toml::unescaped(rest) {
            assert(seq![a[0]] + (less + end) =~= a + end);
        }
    }
}

/// The headings of a configuration file: rules in sections of their own, and rules on lines,
/// each by two names; any other heading is refused, and so is a line without an equals sign.
pub proof fn law_headings(reading: Reading, content: Seq<char>, path: Seq<char>, line: nat)
    ensures
        reading.after_line("[[proxies]]"@, path, line) == reading.after_line(
            "[[proxy]]"@,
            path,
            line,
        ),
        reading.after_line("[proxies]"@, path, line) == reading.after_line(
            "[proxy]"@,
            path,
            line,
        ),
        reading.after_line("[[proxy]]"@, path, line) == reading.flushed(
            SectionView::Proxy { prefix: None, target: None },
            path,
            line,
        ),
        reading.after_line("[proxy]"@, path, line) == reading.flushed(
            SectionView::ProxyMap,
            path,
            line,
        ),
        reading.section !is Proxy ==> reading.after_line("[[proxy]]"@, path, line) == (
        Reading { section: SectionView::Proxy { prefix: None, target: None }, ..reading })
            && reading.after_line("[proxy]"@, path, line) == (Reading {
            section: SectionView::ProxyMap,
            ..reading
        }),
        content.len() > 0 && is_quiet(content) && plain::bare(content) && content[0] == '['
            && content != "[[proxy]]"@ && content != "[[proxies]]"@ && content != "[proxy]"@ && content
            != "[proxies]"@ ==> reading.after_line(content, path, line) == (Reading {
            problem: Some(
                path + ":"@ + number::decimal(line) + ": "@ + ("unsupported TOML section: "@
                    + content),
            ),
            ..reading
        }),
        content.len() > 0 && is_quiet(content) && plain::bare(content) && content[0] != '['
            && !content.contains('=') ==> reading.after_line(content, path, line) == (Reading {
            problem: Some(
                path + ":"@ + number::decimal(line) + ": "@ + ("expected key = value, got: "@
                    + content),
            ),
            ..reading
        }),
{
    let none = Seq::<char>::empty();
    reveal_strlit("[[proxy]]");
    reveal_strlit("[[proxies]]");
    reveal_strlit("[proxy]");
    reveal_strlit("[proxies]");
    assert("[[proxy]]"@.len() == 9 && "[[proxies]]"@.len() == 11 && "[proxy]"@.len() == 7
        && "[proxies]"@.len() == 9);
    assert("[[proxy]]"@[0] == '[' && "[[proxies]]"@[0] == '[' && "[proxy]"@[0] == '['
        && "[proxies]"@[0] == '[');
    assert("[[proxy]]"@[1] == '[' && "[proxies]"@[1] == 'p');
    lemma_bare_line("[[proxy]]"@);
    lemma_bare_line("[[proxies]]"@);
    lemma_bare_line("[proxy]"@);
    lemma_bare_line("[proxies]"@);
    if content.len() > 0 && is_quiet(content) && plain::bare(content) {
        lemma_bare_line(content);
        if content[0] != '[' && !content.contains('=') {
            plain::law_cut_in_two(content, '=', none);
        }
    }
}

proof fn lemma_bare_line(s: Seq<char>)
    requires
        is_quiet(s),
        plain::bare(s),
    ensures
        text::trim(toml::uncommented(s)) == s,
{
    let none = Seq::<char>::empty();
    law_comments(s, none, none, none);
    assert(s + none =~= s);
    plain::law_trimmed(none, s, none);
}

/// Before any section, a key and its value are a setting. In a section for one rule, `prefix`
/// and `target`, or `upstream`, set its parts; where the
/// section ends, its rule is added after the others, and a part that is missing is named. On
/// a line for a rule, the key is the prefix and the value the target.
pub proof fn law_rules_in_a_file(
    reading: Reading,
    prefix: Seq<char>,
    target: Seq<char>,
    old_prefix: Option<Seq<char>>,
    old_target: Option<Seq<char>>,
    key: Seq<char>,
    value: Seq<char>,
    path: Seq<char>,
    line: nat,
)
    ensures
        reading.section == SectionView::Root ==> reading.set(key, value, path, line)
            == match reading.config.with_setting(key, value, path, line) {
            Ok(config) => Reading { config, ..reading },
            Err(message) => Reading { problem: Some(message), ..reading },
        },
        reading.section != SectionView::Root && (value.len() < 2 || value[0] != '"'
            || value[value.len() - 1] != '"') ==> reading.set(
            key,
            value,
            path,
            line,
        ).problem is Some,
        ({
            let section = |prefix: Option<Seq<char>>, target: Option<Seq<char>>|
                Reading { section: SectionView::Proxy { prefix, target }, ..reading };
            let set = |r: Reading, key: Seq<char>, s: Seq<char>|
                r.set(key, toml::in_quotes(s), path, line);
            let next = SectionView::Root;
            let at = path + ":"@ + number::decimal(line) + ": "@;
            &&& set(section(old_prefix, old_target), "prefix"@, prefix) == section(
                Some(prefix),
                old_target,
            )
            &&& set(section(old_prefix, old_target), "target"@, target) == section(
                old_prefix,
                Some(target),
            )
            &&& set(section(old_prefix, old_target), "upstream"@, target) == section(
                old_prefix,
                Some(target),
            )
            &&& key != "prefix"@ && key != "target"@ && key != "upstream"@ ==> set(
                section(old_prefix, old_target),
                key,
                target,
            ).problem == Some(at + ("unsupported proxy key: "@ + key))
            &&& section(None, old_target).flushed(next, path, line).problem == Some(
                at + "proxy section is missing prefix"@,
            )
            &&& section(Some(prefix), None).flushed(next, path, line).problem == Some(
                at + "proxy section is missing target"@,
            )
            &&& match rule::rule_for(prefix, target) {
                Ok(made) => section(Some(prefix), Some(target)).flushed(next, path, line) == (
                Reading {
                    section: next,
                    config: ConfigView {
                        proxies: reading.config.proxies.push(made),
                        ..reading.config
                    },
                    ..reading
                }) && set(
                    Reading { section: SectionView::ProxyMap, ..reading },
                    prefix,
                    target,
                ).config == (ConfigView {
                    proxies: reading.config.proxies.push(made),
                    ..reading.config
                }),
                Err(message) => section(Some(prefix), Some(target)).flushed(
                    next,
                    path,
                    line,
                ).problem == Some(message) && set(
                    Reading { section: SectionView::ProxyMap, ..reading },
                    prefix,
                    target,
                ).problem == Some(message),
            }
        }),
{
    law_values(prefix, 0, 0, value, path, line);
    law_values(target, 0, 0, target, path, line);
    reveal_strlit("prefix");
    reveal_strlit("target");
    reveal_strlit("upstream");
    assert("prefix"@.len() == 6 && "prefix"@[0] == 'p');
    assert("target"@.len() == 6 && "target"@[0] == 't');
    assert("upstream"@.len() == 8);
}

/// The file is read line by line, from the first to the last, until something is wrong; the
/// end of the file ends its last section.
pub proof fn law_file_line_by_line(
    reading: Reading,
    lines: Seq<Seq<char>>,
    path: Seq<char>,
    from: int,
)
    requires
        0 <= from <= lines.len(),
    ensures
        reading.problem is Some ==> reading.after_lines(lines, path, from) == reading,
        reading.problem is None && from == lines.len() ==> reading.after_lines(lines, path, from)
            == reading.flushed(SectionView::Root, path, lines.len()),
        reading.problem is None && from < lines.len() ==> reading.after_lines(lines, path, from)
            == reading.after_line(lines[from], path, (from + 1) as nat).after_lines(
            lines,
            path,
            from + 1,
        ),
        forall|config: ConfigView, content: Seq<char>| #[trigger]
            config::file_read(config, content, path) == (Reading {
                config,
                section: SectionView::Root,
                problem: None,
            }).after_lines(text::lines(content), path, 0),
{
}

/// What an option with a value makes of a configuration: each sets its own field, and no
/// other, by its long name or, where it has one, its short name. A rule is added after the
/// others; the name of the file changes nothing here.
pub proof fn law_options(
    config: ConfigView,
    args: Seq<Seq<char>>,
    from: int,
    n: usize,
    port: u16,
)
    requires
        0 <= from && from + 1 < args.len(),
    ensures
        ({
            let given = config.with_args(args, from);
            let option = args[from];
            let value = args[from + 1];
            let runtime = config.runtime;
            let next = |made: ConfigView| made.with_args(args, from + 2);
            &&& option == "-H"@ || option == "--host"@ ==> given == next(
                ConfigView { host: value, ..config },
            )
            &&& option == "-d"@ || option == "--dir"@ ==> given == next(
                ConfigView { root: value, ..config },
            )
            &&& option == "-c"@ || option == "--config"@ ==> given == next(config)
            &&& (option == "-p"@ || option == "--port"@) && value == number::decimal(port as nat)
                ==> given == next(ConfigView { port, ..config })
            &&& (option == "-p"@ || option == "--port"@) && number::number(
                value,
                u16::MAX as nat,
            ) is None ==> given == Err::<Option<ConfigView>, Seq<char>>(
                "Invalid port value: "@ + value,
            )
            &&& option == "--proxy"@ ==> given == match rule::rule_in(value) {
                Ok(made) => next(ConfigView { proxies: config.proxies.push(made), ..config }),
                Err(message) => Err(message),
            }
            &&& option == "--keep-alive-timeout"@ && value == number::decimal(n as nat) ==> given
                == next(
                ConfigView {
                    runtime: RuntimeConfig { keep_alive_timeout_secs: n as u64, ..runtime },
                    ..config
                },
            )
            &&& option == "--keep-alive-max"@ && value == number::decimal(n as nat) ==> given
                == next(
                ConfigView { runtime: RuntimeConfig { keep_alive_max: n, ..runtime }, ..config },
            )
            &&& option == "--max-events"@ && value == number::decimal(n as nat) ==> given == next(
                ConfigView { runtime: RuntimeConfig { max_events: n, ..runtime }, ..config },
            )
            &&& option == "--max-connections"@ && value == number::decimal(n as nat) ==> given
                == next(
                ConfigView { runtime: RuntimeConfig { max_connections: n, ..runtime }, ..config },
            )
            &&& option == "--max-request-size"@ && value == number::decimal(n as nat) ==> given
                == next(
                ConfigView { runtime: RuntimeConfig { max_request_size: n, ..runtime }, ..config },
            )
            &&& takes_size(option) && number::number(value, usize::MAX as nat) is None ==> given
                == Err::<Option<ConfigView>, Seq<char>>(
                "Invalid value for "@ + option + ": "@ + value,
            )
        }),
{
    config::lemma_option_names();
    lemma_short_names();
    number::law_decimal_read_back(n as nat, usize::MAX as nat);
    number::law_decimal_read_back(port as nat, u16::MAX as nat);
}

/// Whether an option takes a size.
pub open spec fn takes_size(option: Seq<char>) -> bool {
    ||| option == "--keep-alive-timeout"@
    ||| option == "--keep-alive-max"@
    ||| option == "--max-events"@
    ||| option == "--max-connections"@
    ||| option == "--max-request-size"@
}

/// Whether an option takes a value.
pub open spec fn takes_value(option: Seq<char>) -> bool {
    ||| option == "-H"@
    ||| option == "--host"@
    ||| option == "-p"@
    ||| option == "--port"@
    ||| option == "-d"@
    ||| option == "--dir"@
    ||| option == "-c"@
    ||| option == "--config"@
    ||| option == "--proxy"@
    ||| takes_size(option)
}

proof fn lemma_short_names()
    ensures
        "-H"@.len() == 2 && "-H"@[1] == 'H',
        "-p"@.len() == 2 && "-p"@[1] == 'p',
        "-d"@.len() == 2 && "-d"@[1] == 'd',
        "-c"@.len() == 2 && "-c"@[1] == 'c',
        "-h"@.len() == 2 && "-h"@[1] == 'h',
        "--help"@.len() == 6 && "--help"@[2] == 'h' && "--help"@[3] == 'e',
        "--host"@.len() == 6 && "--host"@[2] == 'h' && "--host"@[3] == 'o',
        "--port"@.len() == 6 && "--port"@[2] == 'p',
        "--dir"@.len() == 5,
        "--config"@.len() == 8 && "--config"@[2] == 'c',
        "--no-spa"@.len() == 8 && "--no-spa"@[2] == 'n',
        "--proxy"@.len() == 7,
        "--keep-alive-timeout"@.len() == 20,
        "--keep-alive-max"@.len() == 16,
        "--max-events"@.len() == 12,
        "--max-connections"@.len() == 17,
        "--max-request-size"@.len() == 18,
        "-"@ == seq!['-'],
{
    reveal_strlit("-H");
    reveal_strlit("-p");
    reveal_strlit("-d");
    reveal_strlit("-c");
    reveal_strlit("-h");
    reveal_strlit("--help");
    reveal_strlit("--host");
    reveal_strlit("--port");
    reveal_strlit("--dir");
    reveal_strlit("--config");
    reveal_strlit("--no-spa");
    reveal_strlit("--proxy");
    reveal_strlit("--keep-alive-timeout");
    reveal_strlit("--keep-alive-max");
    reveal_strlit("--max-events");
    reveal_strlit("--max-connections");
    reveal_strlit("--max-request-size");
    reveal_strlit("-");
    assert("-"@ =~= seq!['-']);
}

/// The other arguments: none are left; help is asked for; the fallback is switched off; an
/// option is unknown or has no value; and a directory stands alone.
pub proof fn law_other_arguments(config: ConfigView, args: Seq<Seq<char>>, from: int)
    requires
        0 <= from <= args.len(),
    ensures
        from == args.len() ==> config.with_args(args, from) == Ok::<
            Option<ConfigView>,
            Seq<char>,
        >(Some(config)),
        from < args.len() ==> {
            let given = config.with_args(args, from);
            let arg = args[from];
            &&& arg == "-h"@ || arg == "--help"@ ==> given == Ok::<Option<ConfigView>, Seq<char>>(
                None,
            )
            &&& arg == "--no-spa"@ ==> given == (ConfigView {
                spa_fallback: false,
                ..config
            }).with_args(args, from + 1)
            &&& arg.len() > 0 && arg[0] == '-' && arg != "-h"@ && arg != "--help"@ && arg
                != "--no-spa"@ && !takes_value(arg) ==> given == Err::<
                Option<ConfigView>,
                Seq<char>,
            >("Unknown option: "@ + arg)
            &&& arg.len() == 0 || arg[0] != '-' ==> given == (ConfigView {
                root: arg,
                ..config
            }).with_args(args, from + 1)
            &&& from + 1 == args.len() ==> {
                let missing = |name: Seq<char>|
                    Err::<Option<ConfigView>, Seq<char>>("Missing value for "@ + name);
                &&& arg == "-H"@ || arg == "--host"@ ==> given == missing("--host"@)
                &&& arg == "-p"@ || arg == "--port"@ ==> given == missing("--port"@)
                &&& arg == "-d"@ || arg == "--dir"@ ==> given == missing("--dir"@)
                &&& arg == "-c"@ || arg == "--config"@ ==> given == missing("--config"@)
                &&& arg == "--proxy"@ || takes_size(arg) ==> given == missing(arg)
            }
        },
{
    config::lemma_option_names();
    lemma_short_names();
    if from < args.len() {
        let arg = args[from];
        if arg.len() > 0 && arg[0] == '-' {
            assert(arg.take(1) =~= seq!['-']);
        } else {
            lemma_options_start_with_dash(arg);
            if text::starts_with(arg, "-"@) {
                assert(arg.take(1)[0] == arg[0]);
            }
        }
    }
}

/// What starts with no dash is no option.
proof fn lemma_options_start_with_dash(arg: Seq<char>)
    requires
        arg.len() == 0 || arg[0] != '-',
    ensures
        !takes_value(arg) && arg != "-h"@ && arg != "--help"@ && arg != "--no-spa"@,
        config::valued_option(arg) is None,
{
    lemma_short_names();
    reveal_strlit("-H");
    reveal_strlit("-p");
    reveal_strlit("-d");
    reveal_strlit("-c");
    reveal_strlit("-h");
    reveal_strlit("--help");
    reveal_strlit("--host");
    reveal_strlit("--port");
    reveal_strlit("--dir");
    reveal_strlit("--config");
    reveal_strlit("--no-spa");
    reveal_strlit("--proxy");
    reveal_strlit("--keep-alive-timeout");
    reveal_strlit("--keep-alive-max");
    reveal_strlit("--max-events");
    reveal_strlit("--max-connections");
    reveal_strlit("--max-request-size");
    assert("-H"@[0] == '-' && "-p"@[0] == '-' && "-d"@[0] == '-' && "-c"@[0] == '-' && "-h"@[0]
        == '-' && "--help"@[0] == '-' && "--host"@[0] == '-' && "--port"@[0] == '-' && "--dir"@[0]
        == '-' && "--config"@[0] == '-' && "--no-spa"@[0] == '-' && "--proxy"@[0] == '-');
    assert("--keep-alive-timeout"@[0] == '-' && "--keep-alive-max"@[0] == '-' && "--max-events"@[0]
        == '-' && "--max-connections"@[0] == '-' && "--max-request-size"@[0] == '-');
}

/// The configuration file is the one that the first `-c` or `--config` names, and
/// `config.toml` where there is none.
pub proof fn law_configuration_file(args: Seq<Seq<char>>, k: int)
    requires
        0 <= k <= args.len(),
        forall|i: int| 0 <= i < k ==> #[trigger] args[i] != "-c"@ && args[i] != "--config"@,
    ensures
        k == args.len() ==> config::config_path(args, 0) == Ok::<(Seq<char>, bool), Seq<char>>(
            ("config.toml"@, false),
        ),
        k < args.len() && (args[k] == "-c"@ || args[k] == "--config"@) ==> config::config_path(
            args,
            0,
        ) == if k + 1 < args.len() {
            Ok::<(Seq<char>, bool), Seq<char>>((args[k + 1], true))
        } else {
            Err("Missing value for --config"@)
        },
{
    lemma_config_path(args, k, 0);
}

proof fn lemma_config_path(args: Seq<Seq<char>>, k: int, from: int)
    requires
        0 <= from <= k <= args.len(),
        forall|i: int| 0 <= i < k ==> #[trigger] args[i] != "-c"@ && args[i] != "--config"@,
    ensures
        config::config_path(args, from) == config::config_path(args, k),
    decreases k - from,
{
    if from < k {
        assert(args[from] != "-c"@);
        lemma_config_path(args, k, from + 1);
    }
}

/// Where the settings come from: the defaults, then the file where it is there, then the
/// arguments. A file that is missing is no problem unless it was asked for.
pub proof fn law_sources_of_settings(
    args: Seq<Seq<char>>,
    path: Seq<char>,
    explicit: bool,
    current_dir: Result<String, String>,
    limit: Option<usize>,
    file: ConfigFile,
)
    requires
        config::config_path(args, 0) == Ok::<(Seq<char>, bool), Seq<char>>((path, explicit)),
    ensures
        ({
            let given = config::config_given(args, current_dir, limit, file);
            match (current_dir, file) {
                (Err(reason), _) => given == Err::<Option<ConfigView>, Seq<char>>(
                    "Cannot read current dir: "@ + reason@,
                ),
                (Ok(dir), ConfigFile::Missing) => given == if explicit {
                    Err::<Option<ConfigView>, Seq<char>>("Config file not found: "@ + path)
                } else {
                    ConfigView::defaults(dir@, limit).with_args(args, 0)
                },
                (Ok(dir), ConfigFile::Unreadable(reason)) => given == Err::<
                    Option<ConfigView>,
                    Seq<char>,
                >("Cannot read config '"@ + path + "': "@ + reason@),
                (Ok(dir), ConfigFile::Content(content)) => {
                    let read = config::file_read(
                        ConfigView::defaults(dir@, limit),
                        content@,
                        path,
                    );
                    given == match read.problem {
                        Some(message) => Err::<Option<ConfigView>, Seq<char>>(message),
                        None => read.config.with_args(args, 0),
                    }
                },
            }
        }),
{
}

/// The configuration to run with is the one that is given, with room for no more connections
/// than there are file descriptors for; limits of zero are refused; and the user is told
/// where there was room for fewer.
pub proof fn law_configuration_to_run_with(
    args: Seq<Seq<char>>,
    current_dir: Result<String, String>,
    limit: Option<usize>,
    file: ConfigFile,
)
    ensures
        ({
            let made = config::made(args, current_dir, limit, file);
            let warned = config::warned(args, current_dir, limit, file);
            match config::config_given(args, current_dir, limit, file) {
                Err(message) => made == Err::<Option<ConfigView>, Seq<char>>(message)
                    && warned is None,
                Ok(None) => made == Ok::<Option<ConfigView>, Seq<char>>(None) && warned is None,
                Ok(Some(given)) => {
                    let runtime = given.runtime;
                    let many = limit is Some && runtime.max_connections > room(limit->0 as nat);
                    let kept = if many {
                        room(limit->0 as nat) as usize
                    } else {
                        runtime.max_connections
                    };
                    let valid = runtime.keep_alive_timeout_secs > 0 && runtime.keep_alive_max > 0
                        && runtime.max_events > 0 && runtime.max_connections > 0
                        && runtime.max_request_size > 0;
                    &&& valid ==> made == Ok::<Option<ConfigView>, Seq<char>>(
                        Some(
                            ConfigView {
                                runtime: RuntimeConfig { max_connections: kept, ..runtime },
                                ..given
                            },
                        ),
                    )
                    &&& !valid ==> made is Err && made->Err_0 == runtime.problem()->0
                    &&& many ==> warned == Some("Warning: max_connections="@ + number::decimal(
                        runtime.max_connections as nat,
                    ) + " exceeds OS file descriptor limit "@ + number::decimal(limit->0 as nat)
                        + " (reserved "@ + number::decimal(128) + "), capping to "@
                        + number::decimal(room(limit->0 as nat)))
                    &&& !many ==> warned is None
                },
            }
        }),
{
}

/// What is said at the start: what is served, where, the rules, the runtime and its limits.
pub proof fn law_greeting(made: ConfigView, root: Seq<char>, epoll: bool, i: int)
    requires
        0 <= i < made.proxies.len(),
    ensures
        ({
            let lines = server::greeting(made, root, epoll);
            let n = made.proxies.len();
            let found = made.proxies[i];
            &&& lines.len() == n + 5
            &&& lines[0] == "Serving "@ + root
            &&& lines[1] == "Open http://"@ + (made.host + ":"@ + number::decimal(
                made.port as nat,
            ))
            &&& lines[i + 2] == "Proxy "@ + found.prefix + " -> "@ + found.upstream.scheme.name()
                + "://"@ + found.upstream.host + ":"@ + number::decimal(
                found.upstream.port as nat,
            ) + found.upstream.base_path
            &&& lines[n as int + 2] == if epoll {
                "Runtime epoll + keep-alive"@
            } else {
                "Runtime compat + keep-alive"@
            }
            &&& lines[n as int + 3] == "keep_alive_timeout="@ + number::decimal(
                made.runtime.keep_alive_timeout_secs as nat,
            ) + "s keep_alive_max="@ + number::decimal(made.runtime.keep_alive_max as nat) + (
            if epoll {
                " max_events="@ + number::decimal(made.runtime.max_events as nat)
            } else {
                Seq::empty()
            }) + " max_connections="@ + number::decimal(made.runtime.max_connections as nat)
                + " max_request_size="@ + number::decimal(made.runtime.max_request_size as nat)
            &&& lines[n as int + 4] == "Press Ctrl+C to stop"@
        }),
{
}

/// The first lines and the last ones are the same without rules.
pub proof fn law_greeting_without_rules(made: ConfigView, root: Seq<char>, epoll: bool)
    requires
        made.proxies.len() == 0,
    ensures
        ({
            let lines = server::greeting(made, root, epoll);
            &&& lines.len() == 5
            &&& lines[0] == "Serving "@ + root
            &&& lines[1] == "Open http://"@ + server::address(made)
            &&& server::address(made) == made.host + seq![':'] + number::decimal(made.port as nat)
            &&& lines[4] == "Press Ctrl+C to stop"@
        }),
{
    reveal_strlit(":");
    assert(":"@ =~= seq![':']);
}

/// Temporary files are named by their process and their number.
pub proof fn law_temporary_names(pid: u32, n: u64)
    ensures
        server::temp_name(pid, n) == "pear-body-"@ + number::decimal(pid as nat) + seq!['-']
            + number::decimal(n as nat) + ".tmp"@,
{
    reveal_strlit("-");
    assert("-"@ =~= seq!['-']);
}

} // verus!
