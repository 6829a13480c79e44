//! Texts, character by character: what the finding, cutting, trimming and comparing of
//! the library, and its numbers, come to on every text.
//!
//! The laws here speak of characters and their codes, of texts put together from others,
//! and of positions in them.
use crate::bytes;
use crate::number;
use crate::text;
use vstd::prelude::*;

verus! {

/// Whether `c` is white space, by its code.
pub open spec fn white(c: char) -> bool {
    let n = c as int;
    ||| 9 <= n <= 13
    ||| n == 32
    ||| n == 0x85
    ||| n == 0xa0
    ||| n == 0x1680
    ||| 0x2000 <= n <= 0x200a
    ||| n == 0x2028
    ||| n == 0x2029
    ||| n == 0x202f
    ||| n == 0x205f
    ||| n == 0x3000
}

/// Whether `s` is white space alone.
pub open spec fn all_white(s: Seq<char>) -> bool {
    forall|i: int| 0 <= i < s.len() ==> white(#[trigger] s[i])
}

/// Whether `s` neither starts nor ends with white space.
pub open spec fn bare(s: Seq<char>) -> bool {
    s.len() > 0 ==> !white(s[0]) && !white(s[s.len() - 1])
}

/// Whether `s` is not empty and holds no white space.
pub open spec fn word(s: Seq<char>) -> bool {
    s.len() > 0 && forall|i: int| 0 <= i < s.len() ==> !white(#[trigger] s[i])
}

/// Whether `x` and `y` are the same character, or a capital letter of ASCII and its small
/// one.
pub open spec fn same_letter(x: char, y: char) -> bool {
    ||| x == y
    ||| 65 <= x as int <= 90 && y as int == x as int + 32
    ||| 65 <= y as int <= 90 && x as int == y as int + 32
}

/// Whether `a` and `b` are the same text, capital and small letters of ASCII aside.
pub open spec fn same_letters(a: Seq<char>, b: Seq<char>) -> bool {
    a.len() == b.len() && forall|i: int| 0 <= i < a.len() ==> same_letter(#[trigger] a[i], b[i])
}

/// Whether `s` is `n` times the character `c`.
pub open spec fn only(s: Seq<char>, c: char) -> bool {
    forall|i: int| 0 <= i < s.len() ==> #[trigger] s[i] == c
}

/// Whether `s` holds no carriage return that a line feed follows.
pub open spec fn one_line(s: Seq<char>) -> bool {
    forall|i: int| 0 <= i && i + 1 < s.len() && #[trigger] s[i] == '\r' ==> s[i + 1] != '\n'
}

/// White space is what the codes say.
pub proof fn law_white_space(c: char)
    ensures
        text::is_space(c) <==> white(c),
{
}

/// Two texts are taken for the same where they differ at most by capital letters.
pub proof fn law_same_letters(a: Seq<char>, b: Seq<char>)
    ensures
        text::same_ignoring_case(a, b) <==> same_letters(a, b),
{
    if text::same_ignoring_case(a, b) {
        assert forall|i: int| 0 <= i < a.len() implies same_letter(#[trigger] a[i], b[i]) by {
            assert(text::lower(a[i]) == text::lower(b[i]));
        }
    }
    if same_letters(a, b) {
        assert forall|i: int| 0 <= i < a.len() implies text::lower(#[trigger] a[i]) == text::lower(
            b[i],
        ) by {
            assert(same_letter(a[i], b[i]));
        }
    }
}

/// A text is cut in two at the first `c`, and is what it was cut into with a `c` between;
/// one without `c` is not cut.
pub proof fn law_cut_in_two(a: Seq<char>, c: char, b: Seq<char>)
    requires
        !a.contains(c),
    ensures
        text::split_once(a + seq![c] + b, c) == Some((a, b)),
        text::split_once(a, c) is None,
        text::before(a + seq![c] + b, c) == a,
        text::before(a, c) == a,
{
    let s = a + seq![c] + b;
    assert(s[a.len() as int] == c);
    assert forall|i: int| 0 <= i < a.len() implies s[i] != c && a[i] != c by {
        assert(a.contains(a[i]));
    }
    text::lemma_find_unique(s, c, 0, a.len() as int);
    text::lemma_find_unique(a, c, 0, a.len() as int);
    assert(s.take(a.len() as int) =~= a);
    assert(s.skip(a.len() as int + 1) =~= b);
    assert(a.take(a.len() as int) =~= a);
}

/// Every text with a `c` is one without `c`, a `c`, and the rest.
pub proof fn lemma_first(s: Seq<char>, c: char)
    requires
        s.contains(c),
    ensures
        ({
            let k = text::find(s, c, 0);
            &&& 0 <= k < s.len()
            &&& !s.take(k).contains(c)
            &&& s == s.take(k) + seq![c] + s.skip(k + 1)
        }),
{
    let k = text::find(s, c, 0);
    text::lemma_find(s, c, 0);
    if k == s.len() {
        let i = s.index_of(c);
        assert(s[i] == c);
    }
    assert(s =~= s.take(k) + seq![c] + s.skip(k + 1));
}

/// The parts of a text between its `c`s.
pub proof fn law_cut_at_each(a: Seq<char>, c: char, b: Seq<char>)
    requires
        !a.contains(c),
    ensures
        text::split(a + seq![c] + b, c) == seq![a] + text::split(b, c),
        text::split(a, c) == seq![a],
{
    let s = a + seq![c] + b;
    law_cut_in_two(a, c, b);
    assert(s[a.len() as int] == c);
    assert forall|i: int| 0 <= i < a.len() implies s[i] != c && a[i] != c by {
        assert(a.contains(a[i]));
    }
    text::lemma_find_unique(s, c, 0, a.len() as int);
    text::lemma_find_unique(a, c, 0, a.len() as int);
    assert(s.take(a.len() as int) =~= a);
    assert(s.skip(a.len() as int + 1) =~= b);
}

/// The parts of a text between its carriage return, line feed pairs.
pub proof fn law_cut_into_lines(a: Seq<char>, b: Seq<char>)
    requires
        one_line(a),
    ensures
        text::split_crlf(a + seq!['\r', '\n'] + b) == seq![a] + text::split_crlf(b),
        text::split_crlf(a) == seq![a],
{
    let s = a + seq!['\r', '\n'] + b;
    let n = a.len() as int;
    text::lemma_find_crlf(s, 0);
    text::lemma_find_crlf(a, 0);
    let f = text::find_crlf(s, 0);
    assert(s[n] == '\r' && s[n + 1] == '\n');
    if f < n {
        assert(s[f] == '\r' && s[f + 1] == '\n');
        if f + 1 < n {
            assert(a[f] == '\r');
        }
    }
    if f > n {
        assert(s[n + 1] == '\n');
    }
    let g = text::find_crlf(a, 0);
    if g < n {
        assert(a[g] == '\r');
    }
    assert(s.take(n) =~= a);
    assert(s.skip(n + 2) =~= b);
}

/// The lines of a file: each ends at a line feed, without the carriage return that may
/// stand before it, and the last may have no end.
pub proof fn law_lines_of_a_file(a: Seq<char>, b: Seq<char>)
    requires
        !a.contains('\n'),
    ensures
        text::lines(a + seq!['\n'] + b) == seq![
            if a.len() > 0 && a[a.len() - 1] == '\r' {
                a.take(a.len() - 1)
            } else {
                a
            },
        ] + text::lines(b),
        a.len() > 0 ==> text::lines(a) == seq![a],
        text::lines(Seq::empty()) == Seq::<Seq<char>>::empty(),
{
    let s = a + seq!['\n'] + b;
    assert(s[a.len() as int] == '\n');
    assert forall|i: int| 0 <= i < a.len() implies s[i] != '\n' && a[i] != '\n' by {
        assert(a.contains(a[i]));
    }
    text::lemma_find_unique(s, '\n', 0, a.len() as int);
    text::lemma_find_unique(a, '\n', 0, a.len() as int);
    assert(s.take(a.len() as int) =~= a);
    assert(s.skip(a.len() as int + 1) =~= b);
    if a.len() > 0 {
        assert(a.drop_last() =~= a.take(a.len() - 1));
    }
}

proof fn lemma_trim_start(lead: Seq<char>, s: Seq<char>, p: spec_fn(char) -> bool)
    requires
        forall|i: int| 0 <= i < lead.len() ==> p(#[trigger] lead[i]),
        s.len() > 0 ==> !p(s[0]),
    ensures
        text::trim_start_by(lead + s, p) == s,
    decreases lead.len(),
{
    let all = lead + s;
    if lead.len() > 0 {
        assert(all[0] == lead[0]);
        assert(all.skip(1) =~= lead.skip(1) + s);
        assert forall|i: int| 0 <= i < lead.skip(1).len() implies p(#[trigger] lead.skip(1)[i]) by {
            assert(lead.skip(1)[i] == lead[i + 1]);
        }
        lemma_trim_start(lead.skip(1), s, p);
    } else {
        assert(all =~= s);
    }
}

proof fn lemma_trim_end(s: Seq<char>, tail: Seq<char>, p: spec_fn(char) -> bool)
    requires
        forall|i: int| 0 <= i < tail.len() ==> p(#[trigger] tail[i]),
        s.len() > 0 ==> !p(s[s.len() - 1]),
    ensures
        text::trim_end_by(s + tail, p) == s,
    decreases tail.len(),
{
    let all = s + tail;
    if tail.len() > 0 {
        assert(all.last() == tail.last());
        assert(all.drop_last() =~= s + tail.drop_last());
        lemma_trim_end(s, tail.drop_last(), p);
    } else {
        assert(all =~= s);
    }
}

/// Trimming takes the white space from both ends, all of it and nothing else.
pub proof fn law_trimmed(lead: Seq<char>, s: Seq<char>, tail: Seq<char>)
    requires
        all_white(lead),
        all_white(tail),
        bare(s),
    ensures
        text::trim(lead + s + tail) == s,
        text::trim(s) == s,
{
    let p = |c: char| text::is_space(c);
    assert forall|i: int| 0 <= i < lead.len() implies p(#[trigger] lead[i]) by {
        assert(white(lead[i]));
    }
    assert forall|i: int| 0 <= i < tail.len() implies p(#[trigger] tail[i]) by {
        assert(white(tail[i]));
    }
    if s.len() > 0 {
        assert(lead + s + tail =~= lead + (s + tail));
        assert((s + tail)[0] == s[0]);
        lemma_trim_start(lead, s + tail, p);
        lemma_trim_end(s, tail, p);
    } else {
        let blank = lead + s + tail;
        assert forall|i: int| 0 <= i < blank.len() implies p(#[trigger] blank[i]) by {
            if i < lead.len() {
                assert(blank[i] == lead[i]);
            } else {
                assert(blank[i] == tail[i - lead.len()]);
            }
        }
        assert(blank + s =~= blank);
        lemma_trim_start(blank, s, p);
        assert(text::trim_end_by(s, p) =~= s);
    }
    if s.len() > 0 {
        assert(Seq::<char>::empty() + s =~= s);
        lemma_trim_start(Seq::empty(), s, p);
        assert(s + Seq::<char>::empty() =~= s);
        lemma_trim_end(s, Seq::empty(), p);
    }
}

/// Trimming slashes takes them from one end, all of them and nothing else.
pub proof fn law_slashes_trimmed(slashes: Seq<char>, s: Seq<char>)
    requires
        only(slashes, '/'),
    ensures
        s.len() > 0 && s[0] != '/' || s.len() == 0 ==> text::trim_start_slash(slashes + s) == s,
        s.len() > 0 && s[s.len() - 1] != '/' || s.len() == 0 ==> text::trim_end_slash(s + slashes)
            == s,
{
    let p = |c: char| c == '/';
    assert forall|i: int| 0 <= i < slashes.len() implies p(#[trigger] slashes[i]) by {
        assert(slashes[i] == '/');
    }
    if s.len() == 0 || s[0] != '/' {
        lemma_trim_start(slashes, s, p);
    }
    if s.len() == 0 || s[s.len() - 1] != '/' {
        lemma_trim_end(s, slashes, p);
    }
}

/// The words of a text: after white space, the next word is all that comes before white
/// space again.
pub proof fn law_words(lead: Seq<char>, w: Seq<char>, rest: Seq<char>)
    requires
        all_white(lead),
        word(w),
        rest.len() > 0 ==> white(rest[0]),
    ensures
        text::words(lead + w + rest) == seq![w] + text::words(rest),
        text::words(lead) == Seq::<Seq<char>>::empty(),
    decreases lead.len(),
{
    let s = lead + w + rest;
    if lead.len() > 0 {
        let less = lead.skip(1);
        assert(white(lead[0]));
        assert(s[0] == lead[0]);
        assert(s.skip(1) =~= less + w + rest);
        assert forall|i: int| 0 <= i < less.len() implies white(#[trigger] less[i]) by {
            assert(less[i] == lead[i + 1]);
        }
        law_words(less, w, rest);
    } else {
        assert(s =~= w + rest);
        assert(s[0] == w[0]);
        assert(!white(w[0]));
        text::lemma_find_space(s, 0);
        let k = text::find_space(s, 0);
        assert forall|i: int| 0 <= i < w.len() implies !text::is_space(s[i]) by {
            assert(!white(w[i]));
        }
        if k < w.len() {
            assert(text::is_space(s[k]));
        }
        if k > w.len() {
            assert(s[w.len() as int] == rest[0]);
        }
        assert(k == w.len());
        assert(s.take(k) =~= w);
        assert(s.skip(k) =~= rest);
    }
}

/// A text starts with `p` where it is `p` and something after it.
pub proof fn law_prefix(p: Seq<char>, rest: Seq<char>, s: Seq<char>)
    ensures
        text::strip_prefix(p + rest, p) == Some(rest),
        text::starts_with(p + rest, p),
        text::strip_prefix(s, p) matches Some(found) ==> s == p + found,
        text::starts_with(s, p) ==> s == p + s.skip(p.len() as int),
{
    assert((p + rest).take(p.len() as int) =~= p);
    assert((p + rest).skip(p.len() as int) =~= rest);
    if text::starts_with(s, p) {
        assert(s =~= s.take(p.len() as int) + s.skip(p.len() as int));
    }
}

/// A text holds `p` where it is something, `p`, and something.
pub proof fn law_part(s: Seq<char>, p: Seq<char>)
    ensures
        text::has_part(s, p) <==> exists|a: Seq<char>, b: Seq<char>| s == #[trigger] (a + p + b),
{
    if text::has_part(s, p) {
        let i = choose|i: int|
            0 <= i && i + p.len() <= s.len() && #[trigger] s.subrange(i, i + p.len()) == p;
        assert(s =~= s.take(i) + p + s.skip(i + p.len()));
    }
    if exists|a: Seq<char>, b: Seq<char>| s == #[trigger] (a + p + b) {
        let (a, b) = choose|a: Seq<char>, b: Seq<char>| s == #[trigger] (a + p + b);
        let i = a.len() as int;
        assert(s.subrange(i, i + p.len()) =~= p);
    }
}

/// A character is counted as often as it stands in a text.
pub proof fn law_count(s: Seq<char>, c: char)
    ensures
        text::count(s, c) == 0 <==> !s.contains(c),
        text::count(s, c) > 1 <==> exists|i: int, j: int|
            0 <= i < j < s.len() && #[trigger] s[i] == c && #[trigger] s[j] == c,
        forall|d: char|
            text::count(s.push(d), c) == text::count(s, c) + if d == c {
                1int
            } else {
                0
            },
    decreases s.len(),
{
    if s.len() > 0 {
        let less = s.drop_last();
        law_count(less, c);
        let n = s.len() - 1;
        if s.contains(c) {
            let k = s.index_of(c);
            assert(s[k] == c);
            if k < n {
                assert(less[k] == c);
                assert(less.contains(c));
            }
        }
        if less.contains(c) {
            let k = less.index_of(c);
            assert(s[k] == c);
            assert(s.contains(c));
        }
        if text::count(less, c) > 1 {
            let (i, j) = choose|i: int, j: int|
                0 <= i < j < less.len() && #[trigger] less[i] == c && #[trigger] less[j] == c;
            assert(s[i] == c && s[j] == c);
        }
        if exists|i: int, j: int|
            0 <= i < j < s.len() && #[trigger] s[i] == c && #[trigger] s[j] == c {
            let (i, j) = choose|i: int, j: int|
                0 <= i < j < s.len() && #[trigger] s[i] == c && #[trigger] s[j] == c;
            assert(less[i] == c);
            if j < n {
                assert(less[j] == c);
            }
        }
    }
    assert forall|d: char| text::count(s.push(d), c) == text::count(s, c) + if d == c {
        1int
    } else {
        0
    } by {
        assert(s.push(d).drop_last() =~= s);
    }
}

/// The digits of a number: those of its tenth part, and the digit for what is left.
pub proof fn law_digits(n: nat, d: nat)
    requires
        d < 10,
    ensures
        number::decimal(d) == seq![(48 + d) as char],
        n > 0 ==> number::decimal(n * 10 + d) == number::decimal(n).push((48 + d) as char),
{
    if n > 0 {
        assert((n * 10 + d) / 10 == n);
        assert((n * 10 + d) % 10 == d);
    }
}

/// Whether `c` is a digit, by its code.
pub open spec fn figure(c: char) -> bool {
    48 <= c as int <= 57
}

/// A number is read digit by digit, each counting ten times less than the one before it.
pub proof fn law_number_digit_by_digit(s: Seq<char>, c: char, max: nat)
    requires
        figure(c),
    ensures
        c as int - 48 <= max ==> number::number(seq![c], max) == Some((c as int - 48) as nat),
        number::number(s, max) matches Some(n) ==> number::number(s.push(c), max) == if n * 10 + (
        c as int - 48) <= max {
            Some((n * 10 + (c as int - 48)) as nat)
        } else {
            None
        },
{
    assert(seq![c].drop_last() =~= Seq::empty());
    assert(number::value(seq![c].drop_last()) == 0);
    assert(number::all_digits(seq![c]));
    if let Some(n) = number::number(s, max) {
        let digits = number::unsigned(s);
        let more = number::unsigned(s.push(c));
        assert(more =~= digits.push(c));
        assert(more.drop_last() =~= digits);
        assert forall|i: int| 0 <= i < more.len() implies number::is_digit(#[trigger] more[i]) by {
            if i < digits.len() {
                assert(number::is_digit(digits[i]));
            }
        }
    }
}

/// What is not a number: nothing, a sign alone, anything with a character that is no digit
/// after its sign, and what is too large.
pub proof fn law_not_a_number(s: Seq<char>, max: nat, more: nat)
    ensures
        number::number(s, max) matches Some(n) ==> {
            &&& n <= max
            &&& s.len() > 0
            &&& s[0] == '+' ==> s.len() > 1
            &&& forall|i: int| 0 <= i < s.len() ==> figure(#[trigger] s[i]) || (i == 0 && s[0]
                == '+')
        },
        s.len() > 0 && s[0] != '+' ==> number::number(seq!['+'] + s, max) == number::number(
            s,
            max,
        ),
        max <= more && number::number(s, more) is Some ==> number::number(s, max) == if (
        number::number(s, more)->0) <= max {
            number::number(s, more)
        } else {
            None
        },
{
    assert((seq!['+'] + s).skip(1) =~= s);
    if let Some(n) = number::number(s, max) {
        let digits = number::unsigned(s);
        assert forall|i: int| 0 <= i < s.len() implies figure(#[trigger] s[i]) || (i == 0 && s[0]
            == '+') by {
            if s[0] == '+' {
                if i > 0 {
                    assert(number::is_digit(digits[i - 1]));
                }
            } else {
                assert(number::is_digit(digits[i]));
            }
        }
    }
}

/// The head of a message ends at its first empty line.
pub proof fn law_head_ends_at_empty_line(b: Seq<u8>, e: int)
    ensures
        bytes::head_end(b) == Some(e as nat) && e >= 0 <==> {
            &&& 0 <= e && e + 4 <= b.len()
            &&& b.subrange(e, e + 4) == seq![13u8, 10, 13, 10]
            &&& forall|i: int|
                0 <= i < e ==> #[trigger] b.subrange(i, i + 4) != seq![13u8, 10, 13, 10]
        },
        bytes::head_end(b) is None <==> forall|i: int|
            0 <= i && i + 4 <= b.len() ==> #[trigger] b.subrange(i, i + 4) != seq![
                13u8,
                10,
                13,
                10,
            ],
{
    let line = seq![13u8, 10, 13, 10];
    bytes::lemma_head_end(b, 0);
    assert forall|i: int| 0 <= i && i + 4 <= b.len() implies (#[trigger] b.subrange(i, i + 4)
        == line <==> bytes::blank_line_at(b, i)) by {
        let part = b.subrange(i, i + 4);
        assert(part[0] == b[i] && part[1] == b[i + 1] && part[2] == b[i + 2] && part[3] == b[i
            + 3]);
        if bytes::blank_line_at(b, i) {
            assert(part =~= line);
        }
    }
    if let Some(k) = bytes::head_end(b) {
        assert(b.subrange(k as int, k as int + 4) == line);
        if 0 <= e && e + 4 <= b.len() && b.subrange(e, e + 4) == line && (forall|i: int|
            0 <= i < e ==> #[trigger] b.subrange(i, i + 4) != line) {
            assert(bytes::blank_line_at(b, e));
        }
    } else if 0 <= e && e + 4 <= b.len() && b.subrange(e, e + 4) == line {
        assert(bytes::blank_line_at(b, e));
    }
}

/// Whether `i` is the first of `headers` with the name `name`.
pub open spec fn first_named(
    headers: Seq<(Seq<char>, Seq<char>)>,
    name: Seq<char>,
    i: int,
) -> bool {
    &&& 0 <= i < headers.len()
    &&& same_letters(headers[i].0, name)
    &&& forall|j: int| 0 <= j < i ==> !same_letters(#[trigger] headers[j].0, name)
}

/// Whether none of `headers` has the name `name`.
pub open spec fn none_named(headers: Seq<(Seq<char>, Seq<char>)>, name: Seq<char>) -> bool {
    forall|j: int| 0 <= j < headers.len() ==> !same_letters(#[trigger] headers[j].0, name)
}

} // verus!
