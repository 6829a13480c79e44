//! The values of a configuration file: the part of TOML that is understood.
use crate::number;
use crate::text;
use vstd::prelude::*;

verus! {

/// The position of the first hash sign of `line` at or after `from` that stands
/// outside quotes, or the length of `line`. `quoted` and `escaped` say whether `from`
/// lies inside quotes and whether it follows a backslash that counts.
pub open spec fn comment_start(line: Seq<char>, from: int, quoted: bool, escaped: bool) -> int
    decreases line.len() - from,
{
    if from >= line.len() {
        line.len() as int
    } else if line[from] == '#' && !quoted {
        from
    } else {
        comment_start(
            line,
            from + 1,
            if line[from] == '"' && !escaped {
                !quoted
            } else {
                quoted
            },
            line[from] == '\\' && !escaped,
        )
    }
}

/// `line` up to its comment.
pub open spec fn uncommented(line: Seq<char>) -> Seq<char> {
    line.take(comment_start(line, 0, false, false))
}

/// What a backslash and `c` stand for.
pub open spec fn escape(c: char) -> Seq<char> {
    if c == '"' {
        seq!['"']
    } else if c == '\\' {
        seq!['\\']
    } else if c == 'n' {
        seq!['\n']
    } else if c == 'r' {
        seq!['\r']
    } else if c == 't' {
        seq!['\t']
    } else {
        seq!['\\', c]
    }
}

/// What stands for itself or for another character between quotes; nothing where a
/// backslash stands at the end.
pub open spec fn unescaped(s: Seq<char>) -> Option<Seq<char>>
    decreases s.len(),
{
    if s.len() == 0 {
        Some(Seq::empty())
    } else if s[0] != '\\' {
        match unescaped(s.skip(1)) {
            Some(rest) => Some(seq![s[0]] + rest),
            None => None,
        }
    } else if s.len() == 1 {
        None
    } else {
        match unescaped(s.skip(2)) {
            Some(rest) => Some(escape(s[1]) + rest),
            None => None,
        }
    }
}

/// The text that stands in quotes.
pub open spec fn quoted(value: Seq<char>) -> Option<Seq<char>> {
    if value.len() >= 2 && value[0] == '"' && value.last() == '"' {
        unescaped(value.subrange(1, value.len() - 1))
    } else {
        None
    }
}

/// A key: what stands in quotes, or all of it where it does not.
pub open spec fn key(value: Seq<char>) -> Seq<char> {
    match quoted(value) {
        Some(key) => key,
        None => value,
    }
}

/// A message about a line of a file.
pub open spec fn located(path: Seq<char>, line: nat, message: Seq<char>) -> Seq<char> {
    path + ":"@ + number::decimal(line) + ": "@ + message
}

/// The text that `value` spells in quotes.
pub open spec fn string_in(value: Seq<char>, path: Seq<char>, line: nat) -> Result<
    Seq<char>,
    Seq<char>,
> {
    match quoted(value) {
        Some(s) => Ok(s),
        None => Err(located(path, line, "expected quoted string, got: "@ + value)),
    }
}

/// The truth value that `value` spells.
pub open spec fn bool_in(value: Seq<char>, path: Seq<char>, line: nat) -> Result<bool, Seq<char>> {
    if value == "true"@ {
        Ok(true)
    } else if value == "false"@ {
        Ok(false)
    } else {
        Err(located(path, line, "expected boolean, got: "@ + value))
    }
}

/// The port that `value` spells.
pub open spec fn port_in(value: Seq<char>, path: Seq<char>, line: nat) -> Result<u16, Seq<char>> {
    match number::number(value, u16::MAX as nat) {
        Some(n) => Ok(n as u16),
        None => Err(located(path, line, "expected port number, got: "@ + value)),
    }
}

/// The size that `value` spells.
pub open spec fn size_in(value: Seq<char>, path: Seq<char>, line: nat) -> Result<usize, Seq<char>> {
    match number::number(value, usize::MAX as nat) {
        Some(n) => Ok(n as usize),
        None => Err(located(path, line, "expected integer, got: "@ + value)),
    }
}

proof fn lemma_comment_start(line: Seq<char>, from: int, quoted: bool, escaped: bool)
    requires
        0 <= from <= line.len(),
    ensures
        from <= comment_start(line, from, quoted, escaped) <= line.len(),
    decreases line.len() - from,
{
    if from < line.len() && !(line[from] == '#' && !quoted) {
        let q = if line[from] == '"' && !escaped {
            !quoted
        } else {
            quoted
        };
        lemma_comment_start(line, from + 1, q, line[from] == '\\' && !escaped);
    }
}

/// Removes the comment from a line.
pub fn strip_inline_comment(line: &str) -> (r: String)
    ensures
        r@ == uncommented(line@),
{
    let chars = text::chars_of(line);
    let mut in_string = false;
    let mut escaped = false;
    let mut i: usize = 0;
    while i < chars.len()
        invariant
            i <= chars.len(),
            chars@ == line@,
            comment_start(line@, 0, false, false) == comment_start(
                line@,
                i as int,
                in_string,
                escaped,
            ),
        decreases chars.len() - i,
    {
        let c = chars[i];
        if c == '#' && !in_string {
            return text::string_of(text::take(chars.as_slice(), i));
        }
        if c == '"' && !escaped {
            in_string = !in_string;
        }
        escaped = c == '\\' && !escaped;
        i = i + 1;
    }
    assert(line@.take(line@.len() as int) == line@);
    text::string_of(chars.as_slice())
}

/// Reads a text in quotes.
pub fn parse_quoted_string(value: &str) -> (r: Option<String>)
    ensures
        r is Some <==> quoted(value@) is Some,
        r matches Some(s) ==> quoted(value@) == Some(s@),
{
    let chars = text::chars_of(value);
    if chars.len() < 2 || chars[0] != '"' || chars[chars.len() - 1] != '"' {
        return None;
    }
    let inner = vstd::slice::slice_subrange(chars.as_slice(), 1, chars.len() - 1);
    let mut out = String::new();
    let mut i: usize = 0;
    assert(inner@.skip(0) == inner@);
    proof {
        if let Some(rest) = unescaped(inner@) {
            assert(out@ + rest == rest);
        }
    }
    while i < inner.len()
        invariant
            i <= inner.len(),
            quoted(value@) == unescaped(inner@),
            unescaped(inner@) is Some <==> unescaped(inner@.skip(i as int)) is Some,
            unescaped(inner@.skip(i as int)) matches Some(rest) ==> unescaped(inner@) == Some(
                out@ + rest,
            ),
        decreases inner.len() - i,
    {
        let ghost left = inner@.skip(i as int);
        let ghost before = out@;
        let c = inner[i];
        assert(left[0] == c);
        assert(left.skip(1) == inner@.skip(i + 1));
        if c != '\\' {
            out.push(c);
            i = i + 1;
            proof {
                if let Some(rest) = unescaped(left.skip(1)) {
                    assert(before + (seq![c] + rest) == out@ + rest);
                }
            }
        } else {
            if i + 1 == inner.len() {
                return None;
            }
            let d = inner[i + 1];
            assert(left[1] == d);
            assert(left.skip(2) == inner@.skip(i + 2));
            if d == '"' {
                out.push('"');
            } else if d == '\\' {
                out.push('\\');
            } else if d == 'n' {
                out.push('\n');
            } else if d == 'r' {
                out.push('\r');
            } else if d == 't' {
                out.push('\t');
            } else {
                out.push('\\');
                out.push(d);
            }
            assert(out@ == before + escape(d));
            i = i + 2;
            proof {
                if let Some(rest) = unescaped(left.skip(2)) {
                    assert(before + (escape(d) + rest) == out@ + rest);
                }
            }
        }
    }
    assert(inner@.skip(i as int).len() == 0);
    assert(out@ + Seq::<char>::empty() == out@);
    Some(out)
}

/// Reads a key.
pub fn parse_key(value: &str) -> (r: String)
    ensures
        r@ == key(value@),
{
    match parse_quoted_string(value) {
        Some(key) => key,
        None => value.to_owned(),
    }
}

/// Writes a message about a line of a file.
pub fn at_line(path: &str, line_number: usize, message: &str, detail: &str) -> (r: String)
    ensures
        r@ == located(path@, line_number as nat, message@ + detail@),
{
    let mut out = path.to_owned();
    out.append(":");
    number::push_decimal(&mut out, line_number as u64);
    out.append(": ");
    out.append(message);
    out.append(detail);
    assert(out@ == located(path@, line_number as nat, message@ + detail@));
    out
}

/// Reads a text in quotes, or says what stands there instead.
pub fn parse_string(value: &str, path: &str, line_number: usize) -> (r: Result<String, String>)
    ensures
        match r {
            Ok(s) => string_in(value@, path@, line_number as nat) == Ok::<Seq<char>, Seq<char>>(
                s@,
            ),
            Err(m) => string_in(value@, path@, line_number as nat) == Err::<Seq<char>, Seq<char>>(
                m@,
            ),
        },
{
    match parse_quoted_string(value) {
        Some(s) => Ok(s),
        None => Err(at_line(path, line_number, "expected quoted string, got: ", value)),
    }
}

/// Reads a truth value, or says what stands there instead.
pub fn parse_bool(value: &str, path: &str, line_number: usize) -> (r: Result<bool, String>)
    ensures
        match r {
            Ok(b) => bool_in(value@, path@, line_number as nat) == Ok::<bool, Seq<char>>(b),
            Err(m) => bool_in(value@, path@, line_number as nat) == Err::<bool, Seq<char>>(m@),
        },
{
    if text::same(value, "true") {
        return Ok(true);
    }
    if text::same(value, "false") {
        proof {
            reveal_strlit("true");
            reveal_strlit("false");
        }
        return Ok(false);
    }
    Err(at_line(path, line_number, "expected boolean, got: ", value))
}

/// Reads a port, or says what stands there instead.
pub fn parse_u16(value: &str, path: &str, line_number: usize) -> (r: Result<u16, String>)
    ensures
        match r {
            Ok(n) => port_in(value@, path@, line_number as nat) == Ok::<u16, Seq<char>>(n),
            Err(m) => port_in(value@, path@, line_number as nat) == Err::<u16, Seq<char>>(m@),
        },
{
    let chars = text::chars_of(value);
    match number::read_u16(chars.as_slice()) {
        Some(n) => Ok(n),
        None => Err(at_line(path, line_number, "expected port number, got: ", value)),
    }
}

/// Reads a size, or says what stands there instead.
pub fn parse_usize(value: &str, path: &str, line_number: usize) -> (r: Result<usize, String>)
    ensures
        match r {
            Ok(n) => size_in(value@, path@, line_number as nat) == Ok::<usize, Seq<char>>(n),
            Err(m) => size_in(value@, path@, line_number as nat) == Err::<usize, Seq<char>>(m@),
        },
{
    let chars = text::chars_of(value);
    match number::read_usize(chars.as_slice()) {
        Some(n) => Ok(n),
        None => Err(at_line(path, line_number, "expected integer, got: ", value)),
    }
}

/// A line without a hash sign has no comment, and what is left of a line has none.
pub proof fn law_comment_is_removed(line: Seq<char>)
    ensures
        !line.contains('#') ==> uncommented(line) == line,
        uncommented(line).len() <= line.len(),
        uncommented(line) == line.take(uncommented(line).len() as int),
        uncommented(uncommented(line)) == uncommented(line),
{
    lemma_comment_start(line, 0, false, false);
    lemma_no_comment_left(line, uncommented(line).len() as int, 0, false, false);
    let k = comment_start(line, 0, false, false);
    assert(uncommented(line).take(k) == uncommented(line));
    if !line.contains('#') {
        lemma_no_hash(line, 0, false, false);
        assert(line.take(line.len() as int) == line);
    }
}

proof fn lemma_no_hash(line: Seq<char>, from: int, quoted: bool, escaped: bool)
    requires
        0 <= from <= line.len(),
        !line.contains('#'),
    ensures
        comment_start(line, from, quoted, escaped) == line.len(),
    decreases line.len() - from,
{
    if from < line.len() {
        let q = if line[from] == '"' && !escaped {
            !quoted
        } else {
            quoted
        };
        lemma_no_hash(line, from + 1, q, line[from] == '\\' && !escaped);
    }
}

proof fn lemma_no_comment_left(
    line: Seq<char>,
    end: int,
    from: int,
    quoted: bool,
    escaped: bool,
)
    requires
        0 <= from <= end <= line.len(),
        end == comment_start(line, from, quoted, escaped),
    ensures
        comment_start(line.take(end), from, quoted, escaped) == end,
    decreases end - from,
{
    if from < end {
        let q = if line[from] == '"' && !escaped {
            !quoted
        } else {
            quoted
        };
        let e = line[from] == '\\' && !escaped;
        lemma_comment_start(line, from + 1, q, e);
        lemma_no_comment_left(line, end, from + 1, q, e);
    }
}

/// What stands for `c` between quotes.
pub open spec fn spelled(c: char) -> Seq<char> {
    if c == '"' {
        seq!['\\', '"']
    } else if c == '\\' {
        seq!['\\', '\\']
    } else if c == '\n' {
        seq!['\\', 'n']
    } else if c == '\r' {
        seq!['\\', 'r']
    } else if c == '\t' {
        seq!['\\', 't']
    } else {
        seq![c]
    }
}

/// What stands for the text `s` between quotes.
pub open spec fn escaped(s: Seq<char>) -> Seq<char>
    decreases s.len(),
{
    if s.len() == 0 {
        Seq::empty()
    } else {
        spelled(s[0]) + escaped(s.skip(1))
    }
}

/// The text `s` in quotes, with quotes, backslashes, line breaks and tabs escaped.
pub open spec fn in_quotes(s: Seq<char>) -> Seq<char> {
    seq!['"'] + escaped(s) + seq!['"']
}

/// Any text can be written in quotes: it reads back as itself, whatever it holds, and what
/// is written stays on one line and holds no comment.
pub proof fn law_quoted_text_reads_back(s: Seq<char>)
    ensures
        quoted(in_quotes(s)) == Some(s),
        uncommented(in_quotes(s)) == in_quotes(s),
        !in_quotes(s).contains('\n') && !in_quotes(s).contains('\r'),
{
    let value = in_quotes(s);
    let n = escaped(s).len() as int;
    lemma_escaped(s);
    assert(value.subrange(1, value.len() - 1) =~= escaped(s));
    assert(value.subrange(1, 1 + n) =~= escaped(s));
    lemma_escaped_holds_no_comment(value, 1, s);
    reveal_with_fuel(comment_start, 3);
    assert(value.take(value.len() as int) =~= value);
    assert forall|i: int| 0 <= i < value.len() implies value[i] != '\n' && value[i] != '\r' by {
        if 0 < i < value.len() - 1 {
            assert(value[i] == escaped(s)[i - 1]);
        }
    }
}

/// What stands for a text between quotes reads back, and holds no line break.
pub proof fn lemma_escaped(s: Seq<char>)
    ensures
        unescaped(escaped(s)) == Some(s),
        forall|i: int|
            0 <= i < escaped(s).len() ==> #[trigger] escaped(s)[i] != '\n' && escaped(s)[i]
                != '\r',
    decreases s.len(),
{
    let all = escaped(s);
    if s.len() == 0 {
        assert(s =~= Seq::empty());
    } else {
        let first = spelled(s[0]);
        let rest = escaped(s.skip(1));
        lemma_escaped(s.skip(1));
        assert(all.skip(first.len() as int) =~= rest);
        assert(all[0] == first[0]);
        assert(seq![s[0]] + s.skip(1) =~= s);
        if first.len() == 2 {
            assert(all[1] == first[1]);
            assert(escape(all[1]) =~= seq![s[0]]);
        }
        assert forall|i: int| 0 <= i < all.len() implies #[trigger] all[i] != '\n' && all[i]
            != '\r' by {
            if i >= first.len() {
                assert(all[i] == rest[i - first.len()]);
            } else {
                assert(all[i] == first[i]);
            }
        }
    }
}

/// What stands for a text between quotes ends neither the quotes nor the line.
pub proof fn lemma_escaped_holds_no_comment(line: Seq<char>, from: int, s: Seq<char>)
    requires
        0 <= from,
        from + escaped(s).len() <= line.len(),
        line.subrange(from, from + escaped(s).len()) == escaped(s),
    ensures
        comment_start(line, from, true, false) == comment_start(
            line,
            from + escaped(s).len(),
            true,
            false,
        ),
    decreases s.len(),
{
    if s.len() > 0 {
        let first = spelled(s[0]);
        let rest = escaped(s.skip(1));
        let part = line.subrange(from, from + escaped(s).len());
        assert(line[from] == part[0] && part[0] == first[0]);
        if first.len() == 2 {
            assert(line[from + 1] == part[1] && part[1] == first[1]);
        }
        let next = from + first.len();
        assert(line.subrange(next, next + rest.len()) =~= rest) by {
            assert forall|i: int| 0 <= i < rest.len() implies line[next + i] == rest[i] by {
                assert(part[first.len() + i] == rest[i]);
            }
        }
        lemma_escaped_holds_no_comment(line, next, s.skip(1));
        reveal_with_fuel(comment_start, 3);
    }
}

/// A text without a backslash stands for itself in quotes.
pub proof fn law_plain_quotes(s: Seq<char>)
    requires
        !s.contains('\\'),
    ensures
        quoted(seq!['"'] + s + seq!['"']) == Some(s),
{
    let value = seq!['"'] + s + seq!['"'];
    assert(value.subrange(1, value.len() - 1) == s);
    lemma_unescaped_plain(s);
}

proof fn lemma_unescaped_plain(s: Seq<char>)
    requires
        !s.contains('\\'),
    ensures
        unescaped(s) == Some(s),
    decreases s.len(),
{
    if s.len() > 0 {
        assert(forall|i: int| 0 <= i < s.skip(1).len() ==> s.skip(1)[i] == s[i + 1]);
        assert(!s.skip(1).contains('\\'));
        lemma_unescaped_plain(s.skip(1));
        assert(seq![s[0]] + s.skip(1) == s);
    }
}

} // verus!
