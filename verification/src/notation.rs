//! The two ways to write proxy rules in a configuration file, over whole files.
use crate::config::{ConfigView, Reading, SectionView};
use crate::config;
use crate::rule;
use crate::text;
use crate::toml;
use vstd::prelude::*;

verus! {

/// Lines, each ended by a line feed.
pub open spec fn written(lines: Seq<Seq<char>>) -> Seq<char>
    decreases lines.len(),
{
    if lines.len() == 0 {
        Seq::empty()
    } else {
        lines[0] + seq!['\n'] + written(lines.skip(1))
    }
}

/// `s` in quotes.
pub open spec fn quote(s: Seq<char>) -> Seq<char> {
    seq!['"'] + s + seq!['"']
}

/// The setting of `key` to a text.
pub open spec fn setting(key: Seq<char>, value: Seq<char>) -> Seq<char> {
    key + " = "@ + quote(value)
}

/// Whether `s` stands for itself in quotes on one line.
pub open spec fn is_plain(s: Seq<char>) -> bool {
    !s.contains('"') && !s.contains('\\') && !s.contains('\n')
}

/// Whether all `pairs` of a prefix and a target can be written both ways.
pub open spec fn are_plain(pairs: Seq<(Seq<char>, Seq<char>)>) -> bool {
    forall|i: int|
        0 <= i < pairs.len() ==> is_plain((#[trigger] pairs[i]).0) && is_plain(pairs[i].1)
            && !pairs[i].0.contains('=')
}

/// Rules, each in a section of its own.
pub open spec fn listed(pairs: Seq<(Seq<char>, Seq<char>)>) -> Seq<Seq<char>>
    decreases pairs.len(),
{
    if pairs.len() == 0 {
        Seq::empty()
    } else {
        seq![
            "[[proxy]]"@,
            setting("prefix"@, pairs[0].0),
            setting("target"@, pairs[0].1),
        ] + listed(pairs.skip(1))
    }
}

/// Rules, each on a line.
pub open spec fn mapped(pairs: Seq<(Seq<char>, Seq<char>)>) -> Seq<Seq<char>> {
    pairs.map_values(|pair: (Seq<char>, Seq<char>)| setting(quote(pair.0), pair.1))
}

/// What the rules for `pairs` make of a configuration, up to the first that is wrong, and
/// what is wrong with it.
pub open spec fn given(config: ConfigView, pairs: Seq<(Seq<char>, Seq<char>)>) -> (
    ConfigView,
    Option<Seq<char>>,
)
    decreases pairs.len(),
{
    if pairs.len() == 0 {
        (config, None)
    } else {
        match rule::rule_for(pairs[0].0, pairs[0].1) {
            Ok(found) => given(config.with_rule(found), pairs.skip(1)),
            Err(message) => (config, Some(message)),
        }
    }
}

/// Lines that were written are read.
proof fn lemma_written(lines: Seq<Seq<char>>)
    requires
        forall|i: int|
            0 <= i < lines.len() ==> !(#[trigger] lines[i]).contains('\n') && lines[i].len() > 0
                && lines[i].last() != '\r',
    ensures
        text::lines(written(lines)) == lines,
    decreases lines.len(),
{
    let s = written(lines);
    if lines.len() == 0 {
        assert(lines =~= text::lines(s));
    } else {
        let first = lines[0];
        let rest = lines.skip(1);
        assert forall|i: int| 0 <= i < rest.len() implies !(#[trigger] rest[i]).contains('\n')
            && rest[i].len() > 0 && rest[i].last() != '\r' by {
            assert(rest[i] == lines[i + 1]);
        }
        lemma_written(rest);
        let n = first.len() as int;
        assert(s[n] == '\n');
        assert forall|i: int| 0 <= i < n implies s[i] != '\n' by {
            assert(first.contains(first[i]));
            assert(s[i] == first[i]);
        }
        text::lemma_find_unique(s, '\n', 0, n);
        assert(s.take(n) =~= first);
        assert(s.skip(n + 1) =~= written(rest));
        assert(seq![first] + rest =~= lines);
    }
}

/// Characters that are neither quotes nor backslashes do not change where a comment
/// starts, nor does a hash sign in quotes.
pub proof fn lemma_passed_over(line: Seq<char>, from: int, to: int, quoted: bool)
    requires
        0 <= from <= to <= line.len(),
        forall|i: int|
            from <= i < to ==> #[trigger] line[i] != '"' && line[i] != '\\' && (quoted || line[i]
                != '#'),
    ensures
        toml::comment_start(line, from, quoted, false) == toml::comment_start(
            line,
            to,
            quoted,
            false,
        ),
    decreases to - from,
{
    if from < to {
        assert(line[from] != '"');
        lemma_passed_over(line, from + 1, to, quoted);
    }
}

/// A text in quotes holds no comment.
proof fn lemma_quote_passed_over(line: Seq<char>, from: int, s: Seq<char>)
    requires
        0 <= from,
        from + s.len() + 2 <= line.len(),
        line.subrange(from, from + s.len() + 2) == quote(s),
        is_plain(s),
    ensures
        toml::comment_start(line, from, false, false) == toml::comment_start(
            line,
            from + s.len() + 2,
            false,
            false,
        ),
{
    let part = line.subrange(from, from + s.len() + 2);
    let end = from + s.len() + 1;
    assert(line[from] == part[0] && part[0] == '"');
    assert(line[end] == part[s.len() as int + 1] && part[s.len() as int + 1] == '"');
    assert forall|i: int| from + 1 <= i < end implies #[trigger] line[i] != '"' && line[i]
        != '\\' by {
        assert(line[i] == part[i - from]);
        assert(part[i - from] == s[i - from - 1]);
        assert(s.contains(s[i - from - 1]));
    }
    lemma_passed_over(line, from + 1, end, true);
    reveal_with_fuel(toml::comment_start, 2);
}

/// A setting, as it is read.
proof fn lemma_setting(key: Seq<char>, value: Seq<char>)
    requires
        is_plain(value),
        key.len() > 0,
        !text::is_space(key[0]),
        !text::is_space(key.last()),
        !key.contains('='),
        toml::comment_start(setting(key, value), 0, false, false) == toml::comment_start(
            setting(key, value),
            key.len() as int,
            false,
            false,
        ),
    ensures
        text::trim(toml::uncommented(setting(key, value))) == setting(key, value),
        setting(key, value)[0] == key[0],
        text::split_once(setting(key, value), '=') == Some((key + " "@, " "@ + quote(value))),
        text::trim(key + " "@) == key,
        text::trim(" "@ + quote(value)) == quote(value),
        toml::quoted(quote(value)) == Some(value),
{
    reveal_strlit(" = ");
    reveal_strlit(" ");
    let line = setting(key, value);
    let n = key.len() as int;
    assert(line[n] == ' ' && line[n + 1] == '=' && line[n + 2] == ' ');
    lemma_passed_over(line, n, n + 3, false);
    assert(line.subrange(n + 3, n + 3 + value.len() + 2) =~= quote(value));
    lemma_quote_passed_over(line, n + 3, value);
    assert(line.take(line.len() as int) =~= line);
    assert(line.last() == '"');
    assert(line[0] == key[0]);
    assert forall|i: int| 0 <= i < n + 1 implies line[i] != '=' by {
        if i < n {
            assert(line[i] == key[i]);
            assert(key.contains(key[i]));
        }
    }
    text::lemma_find_unique(line, '=', 0, n + 1);
    assert(line.take(n + 1) =~= key + " "@);
    assert(line.skip(n + 2) =~= " "@ + quote(value));
    let wide = key + " "@;
    assert(wide[0] == key[0]);
    assert(wide.last() == ' ');
    assert(wide.drop_last() =~= key);
    let late = " "@ + quote(value);
    assert(late[0] == ' ');
    assert(late.skip(1) =~= quote(value));
    assert(quote(value)[0] == '"' && quote(value).last() == '"');
    reveal_with_fuel(text::trim_start_by, 3);
    reveal_with_fuel(text::trim_end_by, 3);
    toml::law_plain_quotes(value);
}

/// A setting with a bare key, as it is read.
proof fn lemma_bare_setting(key: Seq<char>, value: Seq<char>)
    requires
        is_plain(value),
        key == "prefix"@ || key == "target"@,
    ensures
        text::trim(toml::uncommented(setting(key, value))) == setting(key, value),
        setting(key, value)[0] != '[',
        text::split_once(setting(key, value), '=') == Some((key + " "@, " "@ + quote(value))),
        toml::key(text::trim(key + " "@)) == key,
        text::trim(" "@ + quote(value)) == quote(value),
        toml::quoted(quote(value)) == Some(value),
        !setting(key, value).contains('\n'),
        setting(key, value).last() == '"',
{
    reveal_strlit("prefix");
    reveal_strlit("target");
    reveal_strlit(" = ");
    let line = setting(key, value);
    assert forall|i: int| 0 <= i < key.len() implies #[trigger] line[i] != '"' && line[i] != '\\'
        && line[i] != '#' by {
        assert(line[i] == key[i]);
    }
    lemma_passed_over(line, 0, key.len() as int, false);
    lemma_setting(key, value);
    lemma_no_line_feed(key, value);
}

/// A setting with a key in quotes, as it is read.
proof fn lemma_quoted_setting(key: Seq<char>, value: Seq<char>)
    requires
        is_plain(key),
        !key.contains('='),
        is_plain(value),
    ensures
        ({
            let line = setting(quote(key), value);
            &&& text::trim(toml::uncommented(line)) == line
            &&& line[0] == '"'
            &&& text::split_once(line, '=') == Some((quote(key) + " "@, " "@ + quote(value)))
            &&& toml::key(text::trim(quote(key) + " "@)) == key
            &&& text::trim(" "@ + quote(value)) == quote(value)
            &&& toml::quoted(quote(value)) == Some(value)
            &&& !line.contains('\n')
            &&& line.last() == '"'
        }),
{
    let whole = quote(key);
    let line = setting(whole, value);
    assert(line.subrange(0, 0int + key.len() + 2) =~= whole);
    lemma_quote_passed_over(line, 0, key);
    assert forall|i: int| 0 <= i < whole.len() implies whole[i] != '=' && whole[i] != '\n' by {
        if 0 < i < whole.len() - 1 {
            assert(whole[i] == key[i - 1]);
            assert(key.contains(key[i - 1]));
        }
    }
    lemma_setting(whole, value);
    toml::law_plain_quotes(key);
    lemma_no_line_feed(whole, value);
}

proof fn lemma_no_line_feed(key: Seq<char>, value: Seq<char>)
    requires
        !key.contains('\n'),
        is_plain(value),
    ensures
        !setting(key, value).contains('\n'),
        setting(key, value).last() == '"',
{
    reveal_strlit(" = ");
    let line = setting(key, value);
    let n = key.len() as int;
    assert forall|i: int| 0 <= i < line.len() implies line[i] != '\n' by {
        if i < n {
            assert(line[i] == key[i]);
            assert(key.contains(key[i]));
        } else if n + 3 < i < line.len() - 1 {
            assert(line[i] == value[i - n - 4]);
            assert(value.contains(value[i - n - 4]));
        }
    }
}

/// The headings of sections, as they are read.
proof fn lemma_headings()
    ensures
        text::trim(toml::uncommented("[[proxy]]"@)) == "[[proxy]]"@,
        text::trim(toml::uncommented("[proxy]"@)) == "[proxy]"@,
        "[[proxy]]"@.len() > 0,
        "[proxy]"@.len() > 0,
        "[proxy]"@ != "[[proxy]]"@,
        "[proxy]"@ != "[[proxies]]"@,
        forall|s: Seq<char>|
            s.len() > 0 && s[0] != '[' ==> s != "[[proxy]]"@ && s != "[[proxies]]"@ && s
                != "[proxy]"@ && s != "[proxies]"@,
        !"[[proxy]]"@.contains('\n'),
        !"[proxy]"@.contains('\n'),
        "[[proxy]]"@.last() == ']',
        "[proxy]"@.last() == ']',
{
    reveal_strlit("[[proxy]]");
    reveal_strlit("[[proxies]]");
    reveal_strlit("[proxy]");
    reveal_strlit("[proxies]");
    let a = "[[proxy]]"@;
    let b = "[proxy]"@;
    assert(a[0] == '[' && a.last() == ']');
    assert(b[0] == '[' && b.last() == ']');
    lemma_passed_over(a, 0, a.len() as int, false);
    lemma_passed_over(b, 0, b.len() as int, false);
    assert(a.take(a.len() as int) =~= a);
    assert(b.take(b.len() as int) =~= b);
    assert(a.len() == 9 && b.len() == 7);
    assert("[[proxies]]"@.len() == 11);
    assert("[[proxies]]"@[0] == '[' && "[proxies]"@[0] == '[');
}

/// The rule that a section holds, where it is complete.
pub open spec fn pending(section: SectionView) -> Seq<(Seq<char>, Seq<char>)> {
    match section {
        SectionView::Proxy { prefix: Some(prefix), target: Some(target) } => seq![(prefix, target)],
        _ => Seq::empty(),
    }
}

/// Reading rules in sections of their own, from line `from` on.
proof fn lemma_listed(
    reading: Reading,
    lines: Seq<Seq<char>>,
    from: int,
    pairs: Seq<(Seq<char>, Seq<char>)>,
    path: Seq<char>,
)
    requires
        reading.problem is None,
        reading.section == SectionView::Root || pending(reading.section).len() == 1,
        0 <= from <= lines.len(),
        lines.skip(from) == listed(pairs),
        are_plain(pairs),
    ensures
        ({
            let end = reading.after_lines(lines, path, from);
            (end.config, end.problem) == given(reading.config, pending(reading.section) + pairs)
        }),
    decreases pairs.len(),
{
    let before = pending(reading.section);
    let all = before + pairs;
    reveal_with_fuel(given, 2);
    if before.len() == 1 {
        assert(all.skip(1) =~= pairs);
        assert(all[0] == before[0]);
    } else {
        assert(all =~= pairs);
    }
    if pairs.len() == 0 {
        assert(lines.skip(from).len() == 0);
    } else {
        let (prefix, target) = pairs[0];
        let rest = pairs.skip(1);
        let left = lines.skip(from);
        assert(left[0] == "[[proxy]]"@);
        assert(left[1] == setting("prefix"@, prefix));
        assert(left[2] == setting("target"@, target));
        assert(left.len() == lines.len() - from);
        assert(left[0] == lines[from + 0] && left[1] == lines[from + 1] && left[2] == lines[from
            + 2]);
        assert(lines.skip(from + 3) =~= left.skip(3));
        assert(left.skip(3) =~= listed(rest));
        assert(is_plain(pairs[0].0) && is_plain(pairs[0].1));
        lemma_headings();
        let first = reading.after_line(lines[from], path, (from + 1) as nat);
        assert(first == reading.flushed(
            SectionView::Proxy { prefix: None, target: None },
            path,
            (from + 1) as nat,
        ));
        assert(reading.after_lines(lines, path, from) == first.after_lines(lines, path, from + 1));
        if first.problem is None {
            lemma_bare_setting("prefix"@, prefix);
            lemma_bare_setting("target"@, target);
            reveal_strlit("prefix");
            reveal_strlit("target");
            assert("prefix"@[0] == 'p' && "target"@[0] == 't');
            let second = first.after_line(lines[from + 1], path, (from + 2) as nat);
            assert(second == (Reading {
                section: SectionView::Proxy { prefix: Some(prefix), target: None },
                ..first
            }));
            let third = second.after_line(lines[from + 2], path, (from + 3) as nat);
            assert(third == (Reading {
                section: SectionView::Proxy { prefix: Some(prefix), target: Some(target) },
                ..first
            }));
            assert(first.after_lines(lines, path, from + 1) == second.after_lines(
                lines,
                path,
                from + 2,
            ));
            assert(second.after_lines(lines, path, from + 2) == third.after_lines(
                lines,
                path,
                from + 3,
            ));
            assert forall|i: int| 0 <= i < rest.len() implies is_plain((#[trigger] rest[i]).0)
                && is_plain(rest[i].1) && !rest[i].0.contains('=') by {
                assert(rest[i] == pairs[i + 1]);
            }
            lemma_listed(third, lines, from + 3, rest, path);
            assert(pending(third.section) + rest =~= pairs);
        }
    }
}

/// Reading rules on a line each, from line `from` on.
proof fn lemma_mapped(
    reading: Reading,
    lines: Seq<Seq<char>>,
    from: int,
    pairs: Seq<(Seq<char>, Seq<char>)>,
    path: Seq<char>,
)
    requires
        reading.problem is None,
        reading.section == SectionView::ProxyMap,
        0 <= from <= lines.len(),
        lines.skip(from) == mapped(pairs),
        are_plain(pairs),
    ensures
        ({
            let end = reading.after_lines(lines, path, from);
            (end.config, end.problem) == given(reading.config, pairs)
        }),
    decreases pairs.len(),
{
    if pairs.len() == 0 {
        assert(lines.skip(from).len() == 0);
    } else {
        let (prefix, target) = pairs[0];
        let rest = pairs.skip(1);
        let left = lines.skip(from);
        assert(is_plain(pairs[0].0) && is_plain(pairs[0].1));
        assert(left[0] == setting(quote(prefix), target));
        assert(left.len() == lines.len() - from);
        assert(left[0] == lines[from + 0]);
        assert(lines.skip(from + 1) =~= left.skip(1));
        assert(left.skip(1) =~= mapped(rest));
        lemma_headings();
        lemma_quoted_setting(prefix, target);
        let next = reading.after_line(lines[from], path, (from + 1) as nat);
        assert(next == reading.set(prefix, quote(target), path, (from + 1) as nat));
        assert(reading.after_lines(lines, path, from) == next.after_lines(lines, path, from + 1));
        assert forall|i: int| 0 <= i < rest.len() implies is_plain((#[trigger] rest[i]).0)
            && is_plain(rest[i].1) && !rest[i].0.contains('=') by {
            assert(rest[i] == pairs[i + 1]);
        }
        if next.problem is None {
            lemma_mapped(next, lines, from + 1, rest, path);
        }
    }
}

/// The lines of rules are lines.
proof fn lemma_lines_of_rules(pairs: Seq<(Seq<char>, Seq<char>)>)
    requires
        are_plain(pairs),
    ensures
        forall|i: int|
            0 <= i < listed(pairs).len() ==> !(#[trigger] listed(pairs)[i]).contains('\n')
                && listed(pairs)[i].len() > 0 && listed(pairs)[i].last() != '\r',
        forall|i: int|
            0 <= i < mapped(pairs).len() ==> !(#[trigger] mapped(pairs)[i]).contains('\n')
                && mapped(pairs)[i].len() > 0 && mapped(pairs)[i].last() != '\r',
    decreases pairs.len(),
{
    lemma_headings();
    assert forall|i: int| 0 <= i < mapped(pairs).len() implies !(#[trigger] mapped(
        pairs,
    )[i]).contains('\n') && mapped(pairs)[i].len() > 0 && mapped(pairs)[i].last() != '\r' by {
        assert(is_plain(pairs[i].0) && is_plain(pairs[i].1));
        lemma_quoted_setting(pairs[i].0, pairs[i].1);
    }
    if pairs.len() > 0 {
        let rest = pairs.skip(1);
        assert forall|i: int| 0 <= i < rest.len() implies is_plain((#[trigger] rest[i]).0)
            && is_plain(rest[i].1) && !rest[i].0.contains('=') by {
            assert(rest[i] == pairs[i + 1]);
        }
        lemma_lines_of_rules(rest);
        assert(is_plain(pairs[0].0) && is_plain(pairs[0].1));
        lemma_bare_setting("prefix"@, pairs[0].0);
        lemma_bare_setting("target"@, pairs[0].1);
        let all = listed(pairs);
        let more = listed(rest);
        assert forall|i: int| 0 <= i < all.len() implies !(#[trigger] all[i]).contains('\n')
            && all[i].len() > 0 && all[i].last() != '\r' by {
            if i >= 3 {
                assert(all[i] == more[i - 3]);
            }
        }
    }
}

/// What rules make of a configuration: nothing but more rules, those for the pairs in
/// order.
proof fn lemma_given(config: ConfigView, pairs: Seq<(Seq<char>, Seq<char>)>)
    ensures
        ({
            let (made, problem) = given(config, pairs);
            &&& made == (ConfigView { proxies: made.proxies, ..config })
            &&& problem is None <==> forall|i: int|
                0 <= i < pairs.len() ==> rule::rule_for((#[trigger] pairs[i]).0, pairs[i].1) is Ok
            &&& problem is None ==> made.proxies == config.proxies + pairs.map_values(
                |pair: (Seq<char>, Seq<char>)| rule::rule_for(pair.0, pair.1)->Ok_0,
            )
        }),
    decreases pairs.len(),
{
    let rules = pairs.map_values(
        |pair: (Seq<char>, Seq<char>)| rule::rule_for(pair.0, pair.1)->Ok_0,
    );
    if pairs.len() == 0 {
        assert(config.proxies + rules =~= config.proxies);
    } else {
        let rest = pairs.skip(1);
        match rule::rule_for(pairs[0].0, pairs[0].1) {
            Ok(found) => {
                let next = config.with_rule(found);
                lemma_given(next, rest);
                let more = rest.map_values(
                    |pair: (Seq<char>, Seq<char>)| rule::rule_for(pair.0, pair.1)->Ok_0,
                );
                assert(config.proxies + rules =~= next.proxies + more);
                assert(forall|i: int| 0 <= i < rest.len() ==> rest[i] == pairs[i + 1]);
                if forall|i: int|
                    0 <= i < rest.len() ==> rule::rule_for((#[trigger] rest[i]).0, rest[i].1) is Ok {
                    assert forall|i: int| 0 <= i < pairs.len() implies rule::rule_for(
                        (#[trigger] pairs[i]).0,
                        pairs[i].1,
                    ) is Ok by {
                        if i > 0 {
                            assert(pairs[i] == rest[i - 1]);
                        }
                    }
                } else {
                    let i = choose|i: int|
                        0 <= i < rest.len() && !(rule::rule_for((#[trigger] rest[i]).0, rest[i].1)
                            is Ok);
                    assert(pairs[i + 1] == rest[i]);
                }
            },
            Err(_) => {
                assert(!(rule::rule_for(pairs[0].0, pairs[0].1) is Ok));
            },
        }
    }
}

/// The two ways to write rules in a configuration file mean the same: a file with a
/// `[[proxy]]` section for each pair of a prefix and a target, and a file with one
/// `[proxy]` section and a line for each pair. Both are right or both are wrong, for the
/// same reason; where they are right they add the rules for the pairs, in order, and
/// change nothing else.
pub proof fn law_notations_agree(
    config: ConfigView,
    pairs: Seq<(Seq<char>, Seq<char>)>,
    path: Seq<char>,
)
    requires
        are_plain(pairs),
    ensures
        ({
            let a = config::file_read(config, written(listed(pairs)), path);
            let b = config::file_read(config, written(seq!["[proxy]"@] + mapped(pairs)), path);
            &&& a.problem == b.problem
            &&& a.config == b.config
            &&& a.config == (ConfigView { proxies: a.config.proxies, ..config })
            &&& a.problem is None <==> forall|i: int|
                0 <= i < pairs.len() ==> rule::rule_for((#[trigger] pairs[i]).0, pairs[i].1) is Ok
            &&& a.problem is None ==> a.config.proxies == config.proxies + pairs.map_values(
                |pair: (Seq<char>, Seq<char>)| rule::rule_for(pair.0, pair.1)->Ok_0,
            )
        }),
{
    let start = Reading::start(config);
    let one = listed(pairs);
    let two = seq!["[proxy]"@] + mapped(pairs);
    lemma_lines_of_rules(pairs);
    lemma_headings();
    lemma_written(one);
    assert forall|i: int| 0 <= i < two.len() implies !(#[trigger] two[i]).contains('\n')
        && two[i].len() > 0 && two[i].last() != '\r' by {
        if i > 0 {
            assert(two[i] == mapped(pairs)[i - 1]);
        }
    }
    lemma_written(two);
    assert(one.skip(0) =~= one);
    lemma_listed(start, one, 0, pairs, path);
    assert(pending(start.section) + pairs =~= pairs);
    let next = start.after_line(two[0], path, 1);
    assert(next == start.flushed(SectionView::ProxyMap, path, 1));
    assert(next == (Reading { section: SectionView::ProxyMap, ..start }));
    assert(start.after_lines(two, path, 0) == next.after_lines(two, path, 1));
    assert(two.skip(1) =~= mapped(pairs));
    lemma_mapped(next, two, 1, pairs, path);
    lemma_given(config, pairs);
}

} // verus!
