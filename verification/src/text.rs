//! Character sequences: the finding, splitting, trimming and comparing that the
//! rest of the library reads its inputs with.
//!
//! Specifications speak of `Seq<char>`, the view of a `str`. Executable code works
//! on `&[char]`, which can be cut anywhere in constant time.
use vstd::prelude::*;
use vstd::slice::slice_subrange;

verus! {

/// The position of the first `c` in `s` at or after `from`, or the length of `s`.
pub open spec fn find(s: Seq<char>, c: char, from: int) -> int
    decreases s.len() - from,
{
    if from >= s.len() {
        s.len() as int
    } else if s[from] == c {
        from
    } else {
        find(s, c, from + 1)
    }
}

/// What stands before and after the first `c` of `s`.
pub open spec fn split_once(s: Seq<char>, c: char) -> Option<(Seq<char>, Seq<char>)> {
    let k = find(s, c, 0);
    if k < s.len() {
        Some((s.take(k), s.skip(k + 1)))
    } else {
        None
    }
}

/// The part of `s` before its first `c`: all of `s` where there is none.
pub open spec fn before(s: Seq<char>, c: char) -> Seq<char> {
    s.take(find(s, c, 0))
}

/// The parts of `s` between its `c`s.
pub open spec fn split(s: Seq<char>, c: char) -> Seq<Seq<char>>
    decreases s.len(),
{
    let k = find(s, c, 0);
    if 0 <= k < s.len() {
        seq![s.take(k)] + split(s.skip(k + 1), c)
    } else {
        seq![s]
    }
}

/// The position of the first carriage return, line feed pair of `s` at or after
/// `from`, or the length of `s`.
pub open spec fn find_crlf(s: Seq<char>, from: int) -> int
    decreases s.len() - from,
{
    if from + 1 >= s.len() {
        s.len() as int
    } else if s[from] == '\r' && s[from + 1] == '\n' {
        from
    } else {
        find_crlf(s, from + 1)
    }
}

/// The parts of `s` between its carriage return, line feed pairs.
pub open spec fn split_crlf(s: Seq<char>) -> Seq<Seq<char>>
    decreases s.len(),
{
    let k = find_crlf(s, 0);
    if 0 <= k && k + 1 < s.len() {
        seq![s.take(k)] + split_crlf(s.skip(k + 2))
    } else {
        seq![s]
    }
}

/// `s` without one carriage return at its end.
pub open spec fn chomp(s: Seq<char>) -> Seq<char> {
    if s.len() > 0 && s.last() == '\r' {
        s.drop_last()
    } else {
        s
    }
}

/// The lines of `s`, each ended by a line feed or by a carriage return and a line
/// feed; the end of the last line may be missing.
pub open spec fn lines(s: Seq<char>) -> Seq<Seq<char>>
    decreases s.len(),
{
    let k = find(s, '\n', 0);
    if s.len() == 0 {
        Seq::empty()
    } else if 0 <= k < s.len() {
        seq![chomp(s.take(k))] + lines(s.skip(k + 1))
    } else {
        seq![s]
    }
}

/// Whether `c` has the Unicode property `White_Space`.
pub open spec fn is_space(c: char) -> bool {
    ||| '\u{9}' <= c <= '\u{d}'
    ||| c == ' '
    ||| c == '\u{85}'
    ||| c == '\u{a0}'
    ||| c == '\u{1680}'
    ||| '\u{2000}' <= c <= '\u{200a}'
    ||| c == '\u{2028}'
    ||| c == '\u{2029}'
    ||| c == '\u{202f}'
    ||| c == '\u{205f}'
    ||| c == '\u{3000}'
}

/// `s` without the characters at its start that satisfy `p`.
pub open spec fn trim_start_by(s: Seq<char>, p: spec_fn(char) -> bool) -> Seq<char>
    decreases s.len(),
{
    if s.len() > 0 && p(s[0]) {
        trim_start_by(s.skip(1), p)
    } else {
        s
    }
}

/// `s` without the characters at its end that satisfy `p`.
pub open spec fn trim_end_by(s: Seq<char>, p: spec_fn(char) -> bool) -> Seq<char>
    decreases s.len(),
{
    if s.len() > 0 && p(s.last()) {
        trim_end_by(s.drop_last(), p)
    } else {
        s
    }
}

/// `s` without the white space at both ends.
pub open spec fn trim(s: Seq<char>) -> Seq<char> {
    trim_end_by(trim_start_by(s, |c: char| is_space(c)), |c: char| is_space(c))
}

/// `s` without the slashes at its start.
pub open spec fn trim_start_slash(s: Seq<char>) -> Seq<char> {
    trim_start_by(s, |c: char| c == '/')
}

/// `s` without the slashes at its end.
pub open spec fn trim_end_slash(s: Seq<char>) -> Seq<char> {
    trim_end_by(s, |c: char| c == '/')
}

/// The position of the first white space of `s` at or after `from`, or the length
/// of `s`.
pub open spec fn find_space(s: Seq<char>, from: int) -> int
    decreases s.len() - from,
{
    if from >= s.len() {
        s.len() as int
    } else if is_space(s[from]) {
        from
    } else {
        find_space(s, from + 1)
    }
}

/// The longest stretches of `s` that hold no white space.
pub open spec fn words(s: Seq<char>) -> Seq<Seq<char>>
    decreases s.len(),
{
    if s.len() == 0 {
        Seq::empty()
    } else if is_space(s[0]) {
        words(s.skip(1))
    } else {
        let k = find_space(s, 0);
        if 0 < k <= s.len() {
            seq![s.take(k)] + words(s.skip(k))
        } else {
            Seq::empty()
        }
    }
}

/// The ASCII lower case of `c`.
pub open spec fn lower(c: char) -> int {
    if 'A' <= c <= 'Z' {
        c as int + 32
    } else {
        c as int
    }
}

/// Whether `a` and `b` are equal but for the case of ASCII letters.
pub open spec fn same_ignoring_case(a: Seq<char>, b: Seq<char>) -> bool {
    &&& a.len() == b.len()
    &&& forall|i: int| 0 <= i < a.len() ==> lower(#[trigger] a[i]) == lower(b[i])
}

/// Whether `s` starts with `p`.
pub open spec fn starts_with(s: Seq<char>, p: Seq<char>) -> bool {
    p.len() <= s.len() && s.take(p.len() as int) == p
}

/// What follows `p` in `s`, where `s` starts with `p`.
pub open spec fn strip_prefix(s: Seq<char>, p: Seq<char>) -> Option<Seq<char>> {
    if starts_with(s, p) {
        Some(s.skip(p.len() as int))
    } else {
        None
    }
}

/// Whether `p` stands somewhere in `s`.
pub open spec fn has_part(s: Seq<char>, p: Seq<char>) -> bool {
    exists|i: int|
        0 <= i && i + p.len() <= s.len() && #[trigger] s.subrange(i, i + p.len()) == p
}

/// How many times `c` stands in `s`.
pub open spec fn count(s: Seq<char>, c: char) -> nat
    decreases s.len(),
{
    if s.len() == 0 {
        0
    } else {
        count(s.drop_last(), c) + (if s.last() == c {
            1nat
        } else {
            0
        })
    }
}

/// The texts that the slices of `v` hold.
pub open spec fn texts(v: Seq<&[char]>) -> Seq<Seq<char>> {
    v.map_values(|p: &[char]| p@)
}

/// The texts that the strings of `v` hold.
pub open spec fn strings(v: Seq<String>) -> Seq<Seq<char>> {
    v.map_values(|p: String| p@)
}

/// `find` lies in range, at a `c` unless at the end, and nothing before it is `c`.
pub proof fn lemma_find(s: Seq<char>, c: char, from: int)
    requires
        0 <= from <= s.len(),
    ensures
        from <= find(s, c, from) <= s.len(),
        find(s, c, from) < s.len() ==> s[find(s, c, from)] == c,
        forall|i: int| from <= i < find(s, c, from) ==> s[i] != c,
    decreases s.len() - from,
{
    if from < s.len() && s[from] != c {
        lemma_find(s, c, from + 1);
    }
}

/// A position with a `c`, and no `c` before it, is the one that `find` gives.
pub proof fn lemma_find_unique(s: Seq<char>, c: char, from: int, k: int)
    requires
        0 <= from <= k <= s.len(),
        k < s.len() ==> s[k] == c,
        forall|i: int| from <= i < k ==> s[i] != c,
    ensures
        find(s, c, from) == k,
    decreases k - from,
{
    if from < k {
        lemma_find_unique(s, c, from + 1, k);
    }
}

/// No part between the `c`s of a text holds a `c`, and there is at least one part.
pub proof fn lemma_split(s: Seq<char>, c: char)
    ensures
        split(s, c).len() > 0,
        forall|i: int| 0 <= i < split(s, c).len() ==> !(#[trigger] split(s, c)[i]).contains(c),
    decreases s.len(),
{
    lemma_find(s, c, 0);
    let k = find(s, c, 0);
    if k < s.len() {
        let rest = split(s.skip(k + 1), c);
        lemma_split(s.skip(k + 1), c);
        assert forall|i: int| 0 <= i < split(s, c).len() implies !(#[trigger] split(
            s,
            c,
        )[i]).contains(c) by {
            if i > 0 {
                assert(split(s, c)[i] == rest[i - 1]);
            }
        }
    }
}

/// `find_crlf` lies in range, at a pair unless at the end, and no pair stands
/// before it.
pub proof fn lemma_find_crlf(s: Seq<char>, from: int)
    requires
        0 <= from <= s.len(),
    ensures
        from <= find_crlf(s, from) <= s.len(),
        find_crlf(s, from) < s.len() ==> find_crlf(s, from) + 1 < s.len() && s[find_crlf(s, from)]
            == '\r' && s[find_crlf(s, from) + 1] == '\n',
        forall|i: int|
            from <= i < find_crlf(s, from) && i + 1 < s.len() ==> !(s[i] == '\r' && #[trigger] s[i
                + 1] == '\n'),
    decreases s.len() - from,
{
    if from + 1 < s.len() && !(s[from] == '\r' && s[from + 1] == '\n') {
        lemma_find_crlf(s, from + 1);
    }
}

pub proof fn lemma_find_space(s: Seq<char>, from: int)
    requires
        0 <= from <= s.len(),
    ensures
        from <= find_space(s, from) <= s.len(),
        find_space(s, from) < s.len() ==> is_space(s[find_space(s, from)]),
        forall|i: int| from <= i < find_space(s, from) ==> !is_space(s[i]),
    decreases s.len() - from,
{
    if from < s.len() && !is_space(s[from]) {
        lemma_find_space(s, from + 1);
    }
}

/// `String::push` appends one character.
pub assume_specification[ String::push ](s: &mut String, c: char)
    ensures
        final(s)@ == old(s)@.push(c),
;

/// The characters of `s`, one by one.
pub fn chars_of(s: &str) -> (r: Vec<char>)
    ensures
        r@ == s@,
{
    let mut out: Vec<char> = Vec::new();
    for c in it: s.chars()
        invariant
            it.seq() == s@,
            out@ == s@.take(it.index()),
    {
        out.push(c);
    }
    out
}

/// The string that `chars` spells.
pub fn string_of(chars: &[char]) -> (r: String)
    ensures
        r@ == chars@,
{
    let mut out = String::new();
    let mut i: usize = 0;
    while i < chars.len()
        invariant
            i <= chars.len(),
            out@ == chars@.take(i as int),
        decreases chars.len() - i,
    {
        out.push(chars[i]);
        i = i + 1;
    }
    out
}

/// The first `n` elements.
pub fn take<T>(s: &[T], n: usize) -> (r: &[T])
    requires
        n <= s@.len(),
    ensures
        r@ == s@.take(n as int),
{
    slice_subrange(s, 0, n)
}

/// All but the first `n` elements.
pub fn skip<T>(s: &[T], n: usize) -> (r: &[T])
    requires
        n <= s@.len(),
    ensures
        r@ == s@.skip(n as int),
{
    slice_subrange(s, n, s.len())
}

pub fn find_char(s: &[char], c: char) -> (r: usize)
    ensures
        r == find(s@, c, 0),
        r <= s@.len(),
        r < s@.len() ==> s@[r as int] == c,
        forall|i: int| 0 <= i < r ==> s@[i] != c,
{
    let mut i: usize = 0;
    while i < s.len()
        invariant
            i <= s.len(),
            find(s@, c, 0) == find(s@, c, i as int),
            forall|j: int| 0 <= j < i ==> s@[j] != c,
        decreases s.len() - i,
    {
        if s[i] == c {
            return i;
        }
        i = i + 1;
    }
    i
}

/// Cuts `s` at its first `c`.
pub fn cut<'a>(s: &'a [char], c: char) -> (r: Option<(&'a [char], &'a [char])>)
    ensures
        r is Some <==> split_once(s@, c) is Some,
        r matches Some(p) ==> split_once(s@, c) == Some((p.0@, p.1@)),
{
    let k = find_char(s, c);
    if k < s.len() {
        Some((take(s, k), skip(s, k + 1)))
    } else {
        None
    }
}

/// The part of `s` before its first `c`.
pub fn head_before<'a>(s: &'a [char], c: char) -> (r: &'a [char])
    ensures
        r@ == before(s@, c),
{
    take(s, find_char(s, c))
}

/// Cuts `s` at every `c`.
pub fn cut_all<'a>(s: &'a [char], c: char) -> (r: Vec<&'a [char]>)
    ensures
        texts(r@) == split(s@, c),
{
    let mut out: Vec<&'a [char]> = Vec::new();
    let mut rest: &'a [char] = s;
    loop
        invariant
            split(s@, c) == texts(out@) + split(rest@, c),
        decreases rest@.len(),
    {
        let k = find_char(rest, c);
        let ghost done = texts(out@);
        if k < rest.len() {
            out.push(take(rest, k));
            assert(texts(out@) == done.push(rest@.take(k as int)));
            assert(split(s@, c) == texts(out@) + split(rest@.skip(k + 1), c));
            rest = skip(rest, k + 1);
        } else {
            out.push(rest);
            assert(texts(out@) == done.push(rest@));
            assert(texts(out@) == done + seq![rest@]);
            return out;
        }
    }
}

/// Cuts `s` at every carriage return, line feed pair.
pub fn cut_crlf<'a>(s: &'a [char]) -> (r: Vec<&'a [char]>)
    ensures
        texts(r@) == split_crlf(s@),
{
    let mut out: Vec<&'a [char]> = Vec::new();
    let mut rest: &'a [char] = s;
    loop
        invariant
            split_crlf(s@) == texts(out@) + split_crlf(rest@),
        decreases rest@.len(),
    {
        let k = crlf_at(rest);
        let ghost done = texts(out@);
        if k < rest.len() {
            out.push(take(rest, k));
            assert(texts(out@) == done.push(rest@.take(k as int)));
            assert(split_crlf(s@) == texts(out@) + split_crlf(rest@.skip(k + 2)));
            rest = skip(rest, k + 2);
        } else {
            out.push(rest);
            assert(texts(out@) == done.push(rest@));
            assert(texts(out@) == done + seq![rest@]);
            return out;
        }
    }
}

fn crlf_at(s: &[char]) -> (r: usize)
    ensures
        r == find_crlf(s@, 0),
        r == s@.len() || r + 1 < s@.len(),
{
    let mut i: usize = 0;
    while i < s.len() && i + 1 < s.len()
        invariant
            i <= s.len(),
            find_crlf(s@, 0) == find_crlf(s@, i as int),
        decreases s.len() - i,
    {
        if s[i] == '\r' && s[i + 1] == '\n' {
            return i;
        }
        i = i + 1;
    }
    s.len()
}

/// Cuts `s` into lines.
pub fn cut_lines<'a>(s: &'a [char]) -> (r: Vec<&'a [char]>)
    ensures
        texts(r@) == lines(s@),
{
    let mut out: Vec<&'a [char]> = Vec::new();
    let mut rest: &'a [char] = s;
    while rest.len() > 0
        invariant
            lines(s@) == texts(out@) + lines(rest@),
        decreases rest@.len(),
    {
        let k = find_char(rest, '\n');
        let ghost done = texts(out@);
        if k < rest.len() {
            let line = take(rest, k);
            if k > 0 && line[k - 1] == '\r' {
                let short = take(line, k - 1);
                assert(short@ == line@.drop_last());
                out.push(short);
            } else {
                out.push(line);
            }
            assert(texts(out@) == done.push(chomp(rest@.take(k as int))));
            assert(lines(s@) == texts(out@) + lines(rest@.skip(k + 1)));
            rest = skip(rest, k + 1);
        } else {
            out.push(rest);
            assert(texts(out@) == done.push(rest@));
            assert(texts(out@) == done + seq![rest@]);
            return out;
        }
    }
    assert(texts(out@) + lines(rest@) == texts(out@));
    out
}

pub fn is_space_char(c: char) -> (r: bool)
    ensures
        r == is_space(c),
{
    ('\u{9}' <= c && c <= '\u{d}') || c == ' ' || c == '\u{85}' || c == '\u{a0}' || c
        == '\u{1680}' || ('\u{2000}' <= c && c <= '\u{200a}') || c == '\u{2028}' || c
        == '\u{2029}' || c == '\u{202f}' || c == '\u{205f}' || c == '\u{3000}'
}

/// Cuts the white space off both ends of `s`.
pub fn trimmed<'a>(s: &'a [char]) -> (r: &'a [char])
    ensures
        r@ == trim(s@),
{
    let ghost p = |c: char| is_space(c);
    let mut rest: &'a [char] = s;
    while rest.len() > 0 && is_space_char(rest[0])
        invariant
            p == |c: char| is_space(c),
            trim_start_by(s@, p) == trim_start_by(rest@, p),
        decreases rest@.len(),
    {
        rest = skip(rest, 1);
    }
    let ghost start = rest@;
    while rest.len() > 0 && is_space_char(rest[rest.len() - 1])
        invariant
            p == |c: char| is_space(c),
            trim_end_by(start, p) == trim_end_by(rest@, p),
        decreases rest@.len(),
    {
        let ghost shorter = rest@.drop_last();
        rest = take(rest, rest.len() - 1);
        assert(rest@ == shorter);
    }
    rest
}

/// Cuts the slashes off the start of `s`.
pub fn without_start_slash<'a>(s: &'a [char]) -> (r: &'a [char])
    ensures
        r@ == trim_start_slash(s@),
{
    let ghost p = |c: char| c == '/';
    let mut rest: &'a [char] = s;
    while rest.len() > 0 && rest[0] == '/'
        invariant
            p == |c: char| c == '/',
            trim_start_by(s@, p) == trim_start_by(rest@, p),
        decreases rest@.len(),
    {
        rest = skip(rest, 1);
    }
    rest
}

/// Cuts the slashes off the end of `s`.
pub fn without_end_slash<'a>(s: &'a [char]) -> (r: &'a [char])
    ensures
        r@ == trim_end_slash(s@),
{
    let ghost p = |c: char| c == '/';
    let mut rest: &'a [char] = s;
    while rest.len() > 0 && rest[rest.len() - 1] == '/'
        invariant
            p == |c: char| c == '/',
            trim_end_by(s@, p) == trim_end_by(rest@, p),
        decreases rest@.len(),
    {
        let ghost shorter = rest@.drop_last();
        rest = take(rest, rest.len() - 1);
        assert(rest@ == shorter);
    }
    rest
}

fn space_at(s: &[char]) -> (r: usize)
    ensures
        r == find_space(s@, 0),
        r <= s@.len(),
{
    let mut i: usize = 0;
    while i < s.len()
        invariant
            i <= s.len(),
            find_space(s@, 0) == find_space(s@, i as int),
        decreases s.len() - i,
    {
        if is_space_char(s[i]) {
            return i;
        }
        i = i + 1;
    }
    i
}

/// Cuts `s` into the stretches that hold no white space.
pub fn cut_words<'a>(s: &'a [char]) -> (r: Vec<&'a [char]>)
    ensures
        texts(r@) == words(s@),
{
    let mut out: Vec<&'a [char]> = Vec::new();
    let mut rest: &'a [char] = s;
    while rest.len() > 0
        invariant
            words(s@) == texts(out@) + words(rest@),
        decreases rest@.len(),
    {
        let ghost done = texts(out@);
        if is_space_char(rest[0]) {
            rest = skip(rest, 1);
        } else {
            let k = space_at(rest);
            proof {
                lemma_find_space(rest@, 0);
            }
            out.push(take(rest, k));
            assert(texts(out@) == done.push(rest@.take(k as int)));
            assert(words(s@) == texts(out@) + words(rest@.skip(k as int)));
            rest = skip(rest, k);
        }
    }
    assert(texts(out@) + words(rest@) == texts(out@));
    out
}

fn lower_char(c: char) -> (r: u32)
    ensures
        r == lower(c),
{
    if 'A' <= c && c <= 'Z' {
        c as u32 + 32
    } else {
        c as u32
    }
}

/// Compares two texts, the case of ASCII letters aside.
pub fn equals_ignoring_case(a: &[char], b: &[char]) -> (r: bool)
    ensures
        r == same_ignoring_case(a@, b@),
{
    if a.len() != b.len() {
        return false;
    }
    let mut i: usize = 0;
    while i < a.len()
        invariant
            i <= a.len(),
            a.len() == b.len(),
            forall|j: int| 0 <= j < i ==> lower(#[trigger] a@[j]) == lower(b@[j]),
        decreases a.len() - i,
    {
        if lower_char(a[i]) != lower_char(b[i]) {
            assert(lower(a@[i as int]) != lower(b@[i as int]));
            return false;
        }
        i = i + 1;
    }
    true
}

/// Whether `name` is `word`, the case of ASCII letters aside.
pub fn is_word(name: &str, word: &str) -> (r: bool)
    ensures
        r == same_ignoring_case(name@, word@),
{
    let a = chars_of(name);
    let b = chars_of(word);
    equals_ignoring_case(a.as_slice(), b.as_slice())
}

/// Compares two texts.
pub fn equals(a: &[char], b: &[char]) -> (r: bool)
    ensures
        r == (a@ == b@),
{
    if a.len() != b.len() {
        return false;
    }
    let mut i: usize = 0;
    while i < a.len()
        invariant
            i <= a.len(),
            a.len() == b.len(),
            forall|j: int| 0 <= j < i ==> #[trigger] a@[j] == b@[j],
        decreases a.len() - i,
    {
        if a[i] != b[i] {
            assert(a@[i as int] != b@[i as int]);
            return false;
        }
        i = i + 1;
    }
    assert(a@ =~= b@);
    true
}

/// Whether `chars` spells `word`.
pub fn spells(chars: &[char], word: &str) -> (r: bool)
    ensures
        r == (chars@ == word@),
{
    let b = chars_of(word);
    equals(chars, b.as_slice())
}

/// Compares two strings.
pub fn same(a: &str, b: &str) -> (r: bool)
    ensures
        r == (a@ == b@),
{
    let x = chars_of(a);
    spells(x.as_slice(), b)
}

/// What follows `p` in `s`, where `s` starts with `p`.
pub fn without_prefix<'a>(s: &'a [char], p: &[char]) -> (r: Option<&'a [char]>)
    ensures
        r is Some <==> strip_prefix(s@, p@) is Some,
        r matches Some(rest) ==> strip_prefix(s@, p@) == Some(rest@),
{
    if p.len() <= s.len() && equals(take(s, p.len()), p) {
        Some(skip(s, p.len()))
    } else {
        None
    }
}

/// Whether `p` stands somewhere in `s`.
pub fn contains_part(s: &[char], p: &[char]) -> (r: bool)
    ensures
        r == has_part(s@, p@),
{
    if p.len() > s.len() {
        return false;
    }
    let last = s.len() - p.len();
    let mut i: usize = 0;
    loop
        invariant
            i <= last,
            last == s.len() - p.len(),
            forall|j: int| 0 <= j < i ==> #[trigger] s@.subrange(j, j + p@.len()) != p@,
        decreases last - i,
    {
        if equals(slice_subrange(s, i, i + p.len()), p) {
            assert(s@.subrange(i as int, i + p@.len()) == p@);
            return true;
        }
        if i == last {
            return false;
        }
        i = i + 1;
    }
}

/// How many times `c` stands in `s`.
pub fn count_char(s: &[char], c: char) -> (r: usize)
    ensures
        r == count(s@, c),
{
    let mut n: usize = 0;
    let mut i: usize = 0;
    while i < s.len()
        invariant
            i <= s.len(),
            n <= i,
            n == count(s@.take(i as int), c),
        decreases s.len() - i,
    {
        assert(s@.take(i + 1).drop_last() == s@.take(i as int));
        if s[i] == c {
            n = n + 1;
        }
        i = i + 1;
    }
    assert(s@.take(i as int) == s@);
    n
}

} // verus!
