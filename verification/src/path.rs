//! Paths: how the target of a request becomes a path below the served directory,
//! and what type of content a path names. The steps of these paths are separated by
//! slashes; on Windows a request may separate them by backslashes too.
use crate::bytes;
use crate::text;
use vstd::prelude::*;
use vstd::utf8::*;

verus! {

/// The value of a hexadecimal digit.
pub open spec fn hex(b: u8) -> Option<u8> {
    if 48 <= b <= 57 {
        Some((b - 48) as u8)
    } else if 97 <= b <= 102 {
        Some((b - 97 + 10) as u8)
    } else if 65 <= b <= 70 {
        Some((b - 65 + 10) as u8)
    } else {
        None
    }
}

/// The bytes that `b` stands for, each percent sign and the two hexadecimal digits
/// after it standing for one byte. Nothing where such digits are missing.
pub open spec fn unescaped(b: Seq<u8>) -> Option<Seq<u8>>
    decreases b.len(),
{
    if b.len() == 0 {
        Some(Seq::empty())
    } else if b[0] == 37 {
        if b.len() < 3 {
            None
        } else {
            match (hex(b[1]), hex(b[2]), unescaped(b.skip(3))) {
                (Some(high), Some(low), Some(rest)) => Some(
                    seq![(high * 16 + low) as u8] + rest,
                ),
                _ => None,
            }
        }
    } else {
        match unescaped(b.skip(1)) {
            Some(rest) => Some(seq![b[0]] + rest),
            None => None,
        }
    }
}

/// The text that `s` stands for once its escapes are undone. Nothing where an escape
/// is broken or the result is not UTF-8.
pub open spec fn percent_decoded(s: Seq<char>) -> Option<Seq<char>> {
    match unescaped(encode_utf8(s)) {
        Some(b) => if valid_utf8(b) {
            Some(decode_utf8(b))
        } else {
            None
        },
        None => None,
    }
}

/// Whether `p` names something: it is neither empty nor a single dot.
pub open spec fn is_step(p: Seq<char>) -> bool {
    p.len() > 0 && p != "."@
}

/// The steps of a path: its parts between slashes, but for those that are empty or a
/// single dot.
pub open spec fn steps(path: Seq<char>) -> Seq<Seq<char>> {
    steps_among(text::split(path, '/'))
}

/// Those of `parts` that name something.
pub open spec fn steps_among(parts: Seq<Seq<char>>) -> Seq<Seq<char>> {
    parts.filter(|p: Seq<char>| is_step(p))
}

/// How the file system that is served reads paths.
#[derive(Clone, Copy, Debug, PartialEq, Eq, Structural)]
pub enum PathStyle {
    Unix,
    /// Backslashes separate steps as slashes do, and a path that starts with a letter and a
    /// colon starts at a drive.
    Windows,
}

impl PathStyle {
    /// The path `s` with slashes alone between its steps.
    pub open spec fn slashed(self, s: Seq<char>) -> Seq<char> {
        match self {
            PathStyle::Unix => s,
            PathStyle::Windows => s.map_values(
                |c: char|
                    if c == '\\' {
                        '/'
                    } else {
                        c
                    },
            ),
        }
    }

    /// Whether the path `s` starts at a drive.
    pub open spec fn starts_at_drive(self, s: Seq<char>) -> bool {
        self == PathStyle::Windows && names_drive(s)
    }

    /// Whether the path `s`, which starts with no slash, starts at a root or a drive all the
    /// same.
    pub open spec fn starts_elsewhere(self, s: Seq<char>) -> bool {
        self == PathStyle::Windows && ((s.len() > 0 && s[0] == '\\') || names_drive(s))
    }

    /// The path `path` with the step `part` after it. A drive takes the place of all that
    /// stands before it, and what follows a drive is relative to the directory that is
    /// current there.
    pub open spec fn pushed(self, path: Seq<char>, part: Seq<char>) -> Seq<char> {
        if path.len() == 0 || self.starts_at_drive(part) {
            part
        } else if self.starts_at_drive(path) && path.len() == 2 {
            path + part
        } else {
            path + seq!['/'] + part
        }
    }

    /// The path with the given steps.
    pub open spec fn joined(self, parts: Seq<Seq<char>>) -> Seq<char>
        decreases parts.len(),
    {
        if parts.len() == 0 {
            Seq::empty()
        } else {
            self.pushed(self.joined(parts.drop_last()), parts.last())
        }
    }

    /// The path `path` without the drive that it starts at.
    pub open spec fn below_drive(self, path: Seq<char>) -> Seq<char> {
        if self.starts_at_drive(path) {
            path.skip(2)
        } else {
            path
        }
    }
}

/// Whether `p` starts with a letter and a colon.
pub open spec fn names_drive(p: Seq<char>) -> bool {
    p.len() >= 2 && ('a' <= p[0] <= 'z' || 'A' <= p[0] <= 'Z') && p[1] == ':'
}

/// The path below the served directory that `target` asks for: its part before any
/// query, with escapes undone. Nothing where an escape is broken, where the path starts
/// at a root or a drive or where a step leads upwards.
pub open spec fn clean_path(target: Seq<char>, style: PathStyle) -> Option<Seq<char>> {
    match percent_decoded(text::before(target, '?')) {
        None => None,
        Some(decoded) => {
            let path = text::trim_start_slash(decoded);
            let parts = steps(style.slashed(path));
            if style.starts_elsewhere(path) || parts.contains(".."@) {
                None
            } else {
                Some(style.joined(parts))
            }
        },
    }
}

/// Whether the absolute path `path` names `root` or something below it, where neither
/// holds links or steps that lead upwards.
pub open spec fn below(root: Seq<u8>, path: Seq<u8>, separator: u8) -> bool {
    ||| path == root
    ||| root.push(separator).is_prefix_of(path)
    ||| root.len() > 0 && root.last() == separator && root.is_prefix_of(path)
}

/// The position of the last `c` in `s`, or -1.
pub open spec fn rfind(s: Seq<char>, c: char) -> int
    decreases s.len(),
{
    if s.len() == 0 {
        -1
    } else if s.last() == c {
        s.len() - 1
    } else {
        rfind(s.drop_last(), c)
    }
}

/// The last step of a path, unless it leads upwards.
pub open spec fn file_name(path: Seq<char>) -> Option<Seq<char>> {
    let parts = steps(path);
    if parts.len() == 0 || parts.last() == ".."@ {
        None
    } else {
        Some(parts.last())
    }
}

/// What follows the last dot of the file name, unless that dot comes first: then, and
/// without a dot, there is no extension, which the empty text stands for.
pub open spec fn extension(path: Seq<char>) -> Seq<char> {
    match file_name(path) {
        Some(name) => if rfind(name, '.') > 0 {
            name.skip(rfind(name, '.') + 1)
        } else {
            Seq::empty()
        },
        None => Seq::empty(),
    }
}

/// The content type for an extension.
pub open spec fn content_type_of(ext: Seq<char>) -> Seq<char> {
    if ext == "html"@ || ext == "htm"@ {
        "text/html; charset=utf-8"@
    } else if ext == "css"@ {
        "text/css; charset=utf-8"@
    } else if ext == "js"@ || ext == "mjs"@ {
        "text/javascript; charset=utf-8"@
    } else if ext == "json"@ || ext == "map"@ {
        "application/json; charset=utf-8"@
    } else if ext == "svg"@ {
        "image/svg+xml"@
    } else if ext == "png"@ {
        "image/png"@
    } else if ext == "jpg"@ || ext == "jpeg"@ {
        "image/jpeg"@
    } else if ext == "gif"@ {
        "image/gif"@
    } else if ext == "webp"@ {
        "image/webp"@
    } else if ext == "ico"@ {
        "image/x-icon"@
    } else if ext == "wasm"@ {
        "application/wasm"@
    } else if ext == "txt"@ {
        "text/plain; charset=utf-8"@
    } else if ext == "pdf"@ {
        "application/pdf"@
    } else if ext == "woff"@ {
        "font/woff"@
    } else if ext == "woff2"@ {
        "font/woff2"@
    } else if ext == "ttf"@ {
        "font/ttf"@
    } else if ext == "otf"@ {
        "font/otf"@
    } else if ext == "mp4"@ {
        "video/mp4"@
    } else if ext == "webm"@ {
        "video/webm"@
    } else if ext == "mp3"@ {
        "audio/mpeg"@
    } else if ext == "wav"@ {
        "audio/wav"@
    } else {
        "application/octet-stream"@
    }
}

/// Reads a hexadecimal digit.
pub fn from_hex(byte: u8) -> (r: Option<u8>)
    ensures
        r == hex(byte),
        r matches Some(d) ==> d < 16,
{
    if 48 <= byte && byte <= 57 {
        Some(byte - 48)
    } else if 97 <= byte && byte <= 102 {
        Some(byte - 97 + 10)
    } else if 65 <= byte && byte <= 70 {
        Some(byte - 65 + 10)
    } else {
        None
    }
}

/// Undoes the escapes of `bytes`.
fn unescape(bytes: &[u8]) -> (r: Option<Vec<u8>>)
    ensures
        r is Some <==> unescaped(bytes@) is Some,
        r matches Some(out) ==> unescaped(bytes@) == Some(out@),
{
    let mut out: Vec<u8> = Vec::new();
    let mut index: usize = 0;
    proof {
        assert(bytes@.skip(0) == bytes@);
        if let Some(more) = unescaped(bytes@) {
            assert(out@ + more == more);
        }
    }
    while index < bytes.len()
        invariant
            index <= bytes.len(),
            unescaped(bytes@) is Some <==> unescaped(bytes@.skip(index as int)) is Some,
            unescaped(bytes@.skip(index as int)) matches Some(more) ==> unescaped(bytes@) == Some(
                out@ + more,
            ),
        decreases bytes.len() - index,
    {
        let ghost rest = bytes@.skip(index as int);
        let ghost done = out@;
        let byte = bytes[index];
        assert(rest[0] == byte);
        if byte == 37 {
            if bytes.len() - index < 3 {
                return None;
            }
            assert(rest[1] == bytes@[index + 1]);
            assert(rest[2] == bytes@[index + 2]);
            assert(rest.skip(3) == bytes@.skip(index + 3));
            let high: u8 = match from_hex(bytes[index + 1]) {
                Some(high) => high,
                None => {
                    return None;
                },
            };
            let low: u8 = match from_hex(bytes[index + 2]) {
                Some(low) => low,
                None => {
                    return None;
                },
            };
            assert((high << 4 | low) == high * 16 + low) by (bit_vector)
                requires
                    high < 16,
                    low < 16,
            ;
            out.push(high << 4 | low);
            proof {
                if let Some(more) = unescaped(rest.skip(3)) {
                    assert(done + (seq![(high * 16 + low) as u8] + more) == out@ + more);
                }
            }
            index = index + 3;
        } else {
            assert(rest.skip(1) == bytes@.skip(index + 1));
            out.push(byte);
            proof {
                if let Some(more) = unescaped(rest.skip(1)) {
                    assert(done + (seq![byte] + more) == out@ + more);
                }
            }
            index = index + 1;
        }
    }
    proof {
        assert(bytes@.skip(index as int).len() == 0);
        assert(out@ + Seq::<u8>::empty() == out@);
    }
    Some(out)
}

/// Undoes the escapes of `input`.
pub fn percent_decode(input: &str) -> (r: Option<String>)
    ensures
        r is Some <==> percent_decoded(input@) is Some,
        r matches Some(out) ==> percent_decoded(input@) == Some(out@),
{
    match unescape(input.as_bytes()) {
        Some(out) => match core::str::from_utf8(out.as_slice()) {
            Ok(s) => Some(s.to_owned()),
            Err(_) => None,
        },
        None => None,
    }
}

/// Cuts a path into its steps.
fn cut_steps<'a>(path: &'a [char]) -> (r: Vec<&'a [char]>)
    ensures
        text::texts(r@) == steps(path@),
{
    let parts = text::cut_all(path, '/');
    let ghost all = text::texts(parts@);
    let ghost pred = |p: Seq<char>| is_step(p);
    let mut out: Vec<&'a [char]> = Vec::new();
    let mut i: usize = 0;
    proof {
        reveal(Seq::filter);
        assert(text::texts(out@) == all.take(0).filter(pred));
    }
    while i < parts.len()
        invariant
            i <= parts.len(),
            all == text::texts(parts@),
            pred == |p: Seq<char>| is_step(p),
            text::texts(out@) == all.take(i as int).filter(pred),
        decreases parts.len() - i,
    {
        let part = parts[i];
        proof {
            reveal(Seq::filter);
            assert(all.take(i + 1).drop_last() == all.take(i as int));
            assert(all.take(i + 1).last() == part@);
        }
        let ghost done = text::texts(out@);
        if part.len() > 0 && !text::spells(part, ".") {
            out.push(part);
            assert(text::texts(out@) == done.push(part@));
        }
        i = i + 1;
    }
    assert(all.take(i as int) == all);
    out
}

/// Steps are among the parts, and name something.
proof fn lemma_steps_without(parts: Seq<Seq<char>>, c: char)
    requires
        forall|i: int| 0 <= i < parts.len() ==> !(#[trigger] parts[i]).contains(c),
    ensures
        forall|i: int|
            0 <= i < steps_among(parts).len() ==> !(#[trigger] steps_among(parts)[i]).contains(c)
                && is_step(steps_among(parts)[i]),
    decreases parts.len(),
{
    reveal(Seq::filter);
    if parts.len() > 0 {
        let shorter = steps_among(parts.drop_last());
        lemma_steps_without(parts.drop_last(), c);
        assert forall|i: int| 0 <= i < steps_among(parts).len() implies !(#[trigger] steps_among(
            parts,
        )[i]).contains(c) && is_step(steps_among(parts)[i]) by {
            if i < shorter.len() {
                assert(steps_among(parts)[i] == shorter[i]);
            } else {
                assert(steps_among(parts)[i] == parts[parts.len() - 1]);
            }
        }
    }
}

/// The parts of a text without `c` are without `c`.
proof fn lemma_split_without(s: Seq<char>, separator: char, c: char)
    requires
        !s.contains(c),
    ensures
        forall|i: int|
            0 <= i < text::split(s, separator).len() ==> !(#[trigger] text::split(
                s,
                separator,
            )[i]).contains(c),
    decreases s.len(),
{
    let k = text::find(s, separator, 0);
    let all = text::split(s, separator);
    text::lemma_find(s, separator, 0);
    if k < s.len() {
        let first = s.take(k);
        let rest = s.skip(k + 1);
        assert forall|i: int| 0 <= i < rest.len() implies rest[i] != c by {
            assert(s.contains(s[i + k + 1]));
        }
        assert forall|i: int| 0 <= i < first.len() implies first[i] != c by {
            assert(s.contains(s[i]));
        }
        lemma_split_without(rest, separator, c);
        assert forall|i: int| 0 <= i < all.len() implies !(#[trigger] all[i]).contains(c) by {
            if i > 0 {
                assert(all[i] == text::split(rest, separator)[i - 1]);
            }
        }
    }
}

/// Cutting a path with one more step at its slashes gives one more step.
proof fn lemma_split_push(path: Seq<char>, part: Seq<char>)
    requires
        !part.contains('/'),
    ensures
        text::split(path + seq!['/'] + part, '/') == text::split(path, '/').push(part),
    decreases path.len(),
{
    let whole = path + seq!['/'] + part;
    let k = text::find(path, '/', 0);
    text::lemma_find(path, '/', 0);
    if k < path.len() {
        assert forall|i: int| 0 <= i < k implies whole[i] != '/' by {
            assert(whole[i] == path[i]);
        }
        assert(whole[k] == path[k]);
        text::lemma_find_unique(whole, '/', 0, k);
        let rest = path.skip(k + 1);
        assert(whole.take(k) =~= path.take(k));
        assert(whole.skip(k + 1) =~= rest + seq!['/'] + part);
        lemma_split_push(rest, part);
        assert(seq![path.take(k)] + text::split(rest, '/').push(part) =~= (seq![path.take(k)]
            + text::split(rest, '/')).push(part));
    } else {
        assert forall|i: int| 0 <= i < path.len() implies whole[i] != '/' by {
            assert(whole[i] == path[i]);
        }
        text::lemma_find_unique(whole, '/', 0, path.len() as int);
        assert(whole.take(path.len() as int) =~= path);
        assert(whole.skip(path.len() as int + 1) =~= part);
        lemma_split_one(part);
        assert(seq![path] + seq![part] =~= seq![path].push(part));
    }
}

/// A step is cut into itself.
proof fn lemma_split_one(part: Seq<char>)
    requires
        !part.contains('/'),
    ensures
        text::split(part, '/') == seq![part],
{
    assert forall|i: int| 0 <= i < part.len() implies part[i] != '/' by {
        assert(part.contains(part[i]));
    }
    text::lemma_find_unique(part, '/', 0, part.len() as int);
}

/// The path with the given steps starts at a drive where one of them does. Where none
/// does, cutting it at its slashes gives back the steps.
proof fn lemma_joined(parts: Seq<Seq<char>>, style: PathStyle)
    requires
        forall|i: int|
            0 <= i < parts.len() ==> (#[trigger] parts[i]).len() > 0 && !parts[i].contains('/'),
    ensures
        parts.len() > 0 ==> style.joined(parts).len() > 0,
        style.starts_at_drive(style.joined(parts)) <==> exists|i: int|
            0 <= i < parts.len() && style.starts_at_drive(#[trigger] parts[i]),
        parts.len() > 0 && !style.starts_at_drive(style.joined(parts)) ==> text::split(
            style.joined(parts),
            '/',
        ) == parts,
    decreases parts.len(),
{
    if parts.len() > 0 {
        let before = parts.drop_last();
        let last = parts.last();
        let path = style.joined(before);
        let whole = style.joined(parts);
        assert forall|i: int| 0 <= i < before.len() implies (#[trigger] before[i]).len() > 0
            && !before[i].contains('/') by {
            assert(before[i] == parts[i]);
        }
        lemma_joined(before, style);
        if style.starts_at_drive(last) {
            assert(style.starts_at_drive(parts[parts.len() - 1]));
        } else if before.len() == 0 {
            lemma_split_one(last);
            assert(seq![last] =~= parts);
        } else {
            assert(path.len() > 0);
            if path.len() >= 2 {
                assert(whole[0] == path[0] && whole[1] == path[1]);
            } else {
                assert(whole[1] == '/');
            }
            if style.starts_at_drive(path) {
                let i = choose|i: int|
                    0 <= i < before.len() && style.starts_at_drive(#[trigger] before[i]);
                assert(style.starts_at_drive(parts[i]));
            } else {
                assert forall|i: int| 0 <= i < parts.len() implies !style.starts_at_drive(
                    #[trigger] parts[i],
                ) by {
                    if i < before.len() {
                        assert(parts[i] == before[i]);
                    }
                }
                lemma_split_push(path, last);
                assert(before.push(last) =~= parts);
            }
        }
    }
}

/// A path that a request asks for stays below the served directory, but for one that
/// starts at a drive: each of its parts between slashes is a name, neither empty nor one or
/// two dots. So it does not start with a slash, and no part of it leads upwards. On Windows
/// no part of it holds a backslash or starts at a drive.
pub proof fn law_clean_path_stays_inside(target: Seq<char>, style: PathStyle)
    ensures
        clean_path(target, style) matches Some(path) ==> path.len() == 0 || style.starts_at_drive(
            path,
        ) || (forall|i: int|
            #![trigger text::split(path, '/')[i]]
            0 <= i < text::split(path, '/').len() ==> {
                let part = text::split(path, '/')[i];
                &&& is_step(part)
                &&& part != ".."@
                &&& !style.starts_at_drive(part)
                &&& style == PathStyle::Windows ==> !part.contains('\\')
            }),
{
    if let Some(path) = clean_path(target, style) {
        let trimmed = text::trim_start_slash(percent_decoded(text::before(target, '?'))->0);
        let slashed = style.slashed(trimmed);
        let parts = steps(slashed);
        text::lemma_split(slashed, '/');
        lemma_steps_without(text::split(slashed, '/'), '/');
        if style == PathStyle::Windows {
            assert forall|i: int| 0 <= i < slashed.len() implies slashed[i] != '\\' by {}
            lemma_split_without(slashed, '/', '\\');
            lemma_steps_without(text::split(slashed, '/'), '\\');
        }
        lemma_joined(parts, style);
        if parts.len() > 0 && !style.starts_at_drive(path) {
            assert forall|i: int|
                #![trigger text::split(path, '/')[i]]
                0 <= i < text::split(path, '/').len() implies {
                let part = text::split(path, '/')[i];
                &&& is_step(part)
                &&& part != ".."@
                &&& !style.starts_at_drive(part)
                &&& style == PathStyle::Windows ==> !part.contains('\\')
            } by {
                assert(text::split(path, '/')[i] == parts[i]);
                assert(parts.contains(parts[i]));
            }
        }
    }
}

/// A path that a request asks for starts at a drive where one of its steps does, and only
/// there; so none does on Unix.
pub proof fn law_drives_come_from_steps(target: Seq<char>, style: PathStyle)
    ensures
        clean_path(target, style) matches Some(path) ==> {
            let parts = steps(
                style.slashed(
                    text::trim_start_slash(percent_decoded(text::before(target, '?'))->0),
                ),
            );
            style.starts_at_drive(path) <==> exists|i: int|
                0 <= i < parts.len() && style.starts_at_drive(#[trigger] parts[i])
        },
{
    if let Some(path) = clean_path(target, style) {
        let slashed = style.slashed(
            text::trim_start_slash(percent_decoded(text::before(target, '?'))->0),
        );
        text::lemma_split(slashed, '/');
        lemma_steps_without(text::split(slashed, '/'), '/');
        lemma_joined(steps(slashed), style);
    }
}

/// What a request asks for without backslashes and drives is the same on Unix and on
/// Windows.
pub proof fn law_plain_paths_are_alike(target: Seq<char>)
    requires
        percent_decoded(text::before(target, '?')) matches Some(path) ==> {
            &&& !text::trim_start_slash(path).contains('\\')
            &&& !names_drive(text::trim_start_slash(path))
            &&& forall|i: int|
                0 <= i < steps(text::trim_start_slash(path)).len() ==> !names_drive(
                    #[trigger] steps(text::trim_start_slash(path))[i],
                )
        },
    ensures
        clean_path(target, PathStyle::Windows) == clean_path(target, PathStyle::Unix),
{
    if let Some(decoded) = percent_decoded(text::before(target, '?')) {
        let path = text::trim_start_slash(decoded);
        assert forall|i: int| 0 <= i < path.len() implies path[i] != '\\' by {
            assert(path.contains(path[i]));
        }
        assert(PathStyle::Windows.slashed(path) =~= path);
        text::lemma_split(path, '/');
        lemma_steps_without(text::split(path, '/'), '/');
        lemma_joined_alike(steps(path));
    }
}

/// Steps without a drive are joined alike on Unix and on Windows.
proof fn lemma_joined_alike(parts: Seq<Seq<char>>)
    requires
        forall|i: int|
            0 <= i < parts.len() ==> (#[trigger] parts[i]).len() > 0 && !parts[i].contains('/')
                && !names_drive(parts[i]),
    ensures
        PathStyle::Windows.joined(parts) == PathStyle::Unix.joined(parts),
    decreases parts.len(),
{
    if parts.len() > 0 {
        let before = parts.drop_last();
        assert forall|i: int| 0 <= i < before.len() implies (#[trigger] before[i]).len() > 0
            && !before[i].contains('/') && !names_drive(before[i]) by {
            assert(before[i] == parts[i]);
        }
        lemma_joined_alike(before);
        lemma_joined(before, PathStyle::Windows);
    }
}

/// How a byte is written in a path.
#[derive(Clone, Copy, Debug, PartialEq, Eq, Structural)]
pub enum Written {
    /// As it is.
    Plain,
    /// As a percent sign and two hexadecimal digits, with small letters.
    Lower,
    /// As a percent sign and two hexadecimal digits, with capital letters.
    Upper,
}

/// The hexadecimal digit for `n`.
pub open spec fn digit(n: u8, upper: bool) -> u8 {
    if n < 10 {
        (48 + n) as u8
    } else if upper {
        (65 + n - 10) as u8
    } else {
        (97 + n - 10) as u8
    }
}

/// What stands for the byte `b`.
pub open spec fn spelled(b: u8, form: Written) -> Seq<u8> {
    if form == Written::Plain {
        seq![b]
    } else {
        let upper = form == Written::Upper;
        seq![37u8, digit(b / 16, upper), digit(b % 16, upper)]
    }
}

/// What stands for the bytes `b`, each written in its form.
pub open spec fn escaped(b: Seq<u8>, forms: Seq<Written>) -> Seq<u8>
    decreases b.len(),
{
    if b.len() == 0 {
        Seq::empty()
    } else {
        spelled(b[0], forms[0]) + escaped(b.skip(1), forms.skip(1))
    }
}

/// Bytes with escapes read back where each percent sign is escaped.
proof fn lemma_escaped(b: Seq<u8>, forms: Seq<Written>)
    requires
        forms.len() == b.len(),
        forall|i: int| 0 <= i < b.len() && #[trigger] b[i] == 37 ==> forms[i] != Written::Plain,
    ensures
        unescaped(escaped(b, forms)) == Some(b),
        (forall|i: int|
            0 <= i < b.len() && #[trigger] b[i] >= 128 ==> forms[i] != Written::Plain) ==> (forall|
            i: int,
        |
            0 <= i < escaped(b, forms).len() ==> #[trigger] escaped(b, forms)[i] < 128),
    decreases b.len(),
{
    let all = escaped(b, forms);
    if b.len() == 0 {
        assert(b =~= Seq::empty());
    } else {
        let first = spelled(b[0], forms[0]);
        let later = b.skip(1);
        let rest = escaped(later, forms.skip(1));
        assert forall|i: int| 0 <= i < later.len() && #[trigger] later[i] == 37 implies forms.skip(
            1,
        )[i] != Written::Plain by {
            assert(later[i] == b[i + 1]);
        }
        lemma_escaped(later, forms.skip(1));
        assert(all.skip(first.len() as int) =~= rest);
        assert(all[0] == first[0]);
        assert(seq![b[0]] + later =~= b);
        if first.len() == 3 {
            assert(all[1] == first[1] && all[2] == first[2]);
            assert(hex(all[1]) == Some((b[0] / 16) as u8));
            assert(hex(all[2]) == Some((b[0] % 16) as u8));
            assert((b[0] / 16) * 16 + b[0] % 16 == b[0]);
        }
        if forall|i: int| 0 <= i < b.len() && #[trigger] b[i] >= 128 ==> forms[i]
            != Written::Plain {
            assert forall|i: int| 0 <= i < later.len() && #[trigger] later[i]
                >= 128 implies forms.skip(1)[i] != Written::Plain by {
                assert(later[i] == b[i + 1]);
            }
            assert forall|i: int| 0 <= i < all.len() implies #[trigger] all[i] < 128 by {
                if i < first.len() {
                    assert(all[i] == first[i]);
                } else {
                    assert(all[i] == rest[i - first.len()]);
                }
            }
        }
    }
}

/// A text reads back where any of its bytes are escaped, as long as each percent sign is:
/// each text `written` whose bytes are those of `s`, so escaped, stands for `s`.
pub proof fn law_escaped_text_reads_back(s: Seq<char>, forms: Seq<Written>, written: Seq<char>)
    requires
        forms.len() == encode_utf8(s).len(),
        forall|i: int|
            0 <= i < forms.len() && #[trigger] encode_utf8(s)[i] == 37 ==> forms[i]
                != Written::Plain,
        encode_utf8(written) == escaped(encode_utf8(s), forms),
    ensures
        percent_decoded(written) == Some(s),
{
    lemma_escaped(encode_utf8(s), forms);
    encode_utf8_valid_utf8(s);
    encode_utf8_decode_utf8(s);
}

/// The text of ASCII bytes.
pub open spec fn ascii(b: Seq<u8>) -> Seq<char> {
    b.map_values(|x: u8| x as char)
}

proof fn lemma_ascii(b: Seq<u8>)
    requires
        forall|i: int| 0 <= i < b.len() ==> #[trigger] b[i] < 128,
    ensures
        encode_utf8(ascii(b)) == b,
    decreases b.len(),
{
    if b.len() > 0 {
        let later = b.skip(1);
        assert forall|i: int| 0 <= i < later.len() implies #[trigger] later[i] < 128 by {
            assert(later[i] == b[i + 1]);
        }
        lemma_ascii(later);
        bytes::lemma_encode_one(ascii(b)[0]);
        assert(ascii(b).drop_first() =~= ascii(later));
        assert(encode_utf8(ascii(b)) =~= seq![b[0]] + encode_utf8(ascii(later)));
        assert(seq![b[0]] + later =~= b);
    } else {
        assert(encode_utf8(ascii(b)) =~= b);
    }
}

/// Any text can be written in ASCII: it reads back where any of its bytes are escaped, as
/// long as each percent sign and each byte that is not ASCII is.
pub proof fn law_text_in_ascii_reads_back(s: Seq<char>, forms: Seq<Written>)
    requires
        forms.len() == encode_utf8(s).len(),
        forall|i: int|
            0 <= i < forms.len() && (#[trigger] encode_utf8(s)[i] == 37 || encode_utf8(s)[i]
                >= 128) ==> forms[i] != Written::Plain,
    ensures
        percent_decoded(ascii(escaped(encode_utf8(s), forms))) == Some(s),
{
    let b = encode_utf8(s);
    lemma_escaped(b, forms);
    lemma_ascii(escaped(b, forms));
    law_escaped_text_reads_back(s, forms, ascii(escaped(b, forms)));
}

/// A text without a percent sign stands for itself.
pub proof fn law_plain_text_stands_for_itself(s: Seq<char>)
    requires
        !s.contains('%'),
    ensures
        percent_decoded(s) == Some(s),
{
    bytes::lemma_encode_ascii(s, '%');
    lemma_unescaped_plain(encode_utf8(s));
    encode_utf8_valid_utf8(s);
    encode_utf8_decode_utf8(s);
}

proof fn lemma_unescaped_plain(b: Seq<u8>)
    requires
        !b.contains(37u8),
    ensures
        unescaped(b) == Some(b),
    decreases b.len(),
{
    if b.len() > 0 {
        assert(b.contains(b[0]));
        assert forall|i: int| 0 <= i < b.skip(1).len() implies b.skip(1)[i] != 37u8 by {
            assert(b.contains(b[i + 1]));
        }
        lemma_unescaped_plain(b.skip(1));
        assert(seq![b[0]] + b.skip(1) == b);
    } else {
        assert(b == Seq::<u8>::empty());
    }
}

/// Writes the path `s` with slashes alone between its steps.
fn slash(s: &[char], style: PathStyle) -> (r: Vec<char>)
    ensures
        r@ == style.slashed(s@),
{
    let mut out: Vec<char> = Vec::new();
    let mut i: usize = 0;
    while i < s.len()
        invariant
            i <= s.len(),
            out@ == style.slashed(s@).take(i as int),
            style.slashed(s@).len() == s@.len(),
        decreases s.len() - i,
    {
        let c = if s[i] == '\\' && style == PathStyle::Windows {
            '/'
        } else {
            s[i]
        };
        out.push(c);
        i = i + 1;
        assert(out@ =~= style.slashed(s@).take(i as int));
    }
    assert(style.slashed(s@).take(i as int) =~= style.slashed(s@));
    out
}

/// Says whether the path `s` starts at a drive.
fn at_drive(s: &[char], style: PathStyle) -> (r: bool)
    ensures
        r == style.starts_at_drive(s@),
{
    if style == PathStyle::Unix || s.len() < 2 {
        return false;
    }
    let letter = ('a' <= s[0] && s[0] <= 'z') || ('A' <= s[0] && s[0] <= 'Z');
    letter && s[1] == ':'
}

/// Adds the step `part` to `path`.
pub fn push_step(path: &mut String, part: &str, style: PathStyle)
    ensures
        final(path)@ == style.pushed(old(path)@, part@),
{
    let before = text::chars_of(path.as_str());
    let chars = text::chars_of(part);
    if before.len() == 0 || at_drive(chars.as_slice(), style) {
        *path = part.to_owned();
    } else {
        if before.len() != 2 || !at_drive(before.as_slice(), style) {
            path.push('/');
        }
        path.append(part);
    }
}

/// The path `path` without the drive that it starts at.
pub fn without_drive(path: &str, style: PathStyle) -> (r: String)
    ensures
        r@ == style.below_drive(path@),
{
    let chars = text::chars_of(path);
    if at_drive(chars.as_slice(), style) {
        text::string_of(text::skip(chars.as_slice(), 2))
    } else {
        path.to_owned()
    }
}

/// The path below the served directory that `target` asks for, if it may ask for one.
pub fn clean_request_path(target: &str, style: PathStyle) -> (r: Option<String>)
    ensures
        r is Some <==> clean_path(target@, style) is Some,
        r matches Some(path) ==> clean_path(target@, style) == Some(path@),
{
    let chars = text::chars_of(target);
    let path_part = text::string_of(text::head_before(chars.as_slice(), '?'));
    let decoded = match percent_decode(path_part.as_str()) {
        Some(decoded) => decoded,
        None => {
            return None;
        },
    };
    let decoded_chars = text::chars_of(decoded.as_str());
    let trimmed = text::without_start_slash(decoded_chars.as_slice());
    if style == PathStyle::Windows && trimmed.len() > 0 && trimmed[0] == '\\' {
        return None;
    }
    if at_drive(trimmed, style) {
        return None;
    }
    let slashed = slash(trimmed, style);
    let parts = cut_steps(slashed.as_slice());
    let ghost all = text::texts(parts@);
    proof {
        text::lemma_split(slashed@, '/');
        lemma_steps_without(text::split(slashed@, '/'), '/');
    }
    let mut path = String::new();
    // Whether `path` is a drive and nothing else.
    let mut bare = false;
    let mut i: usize = 0;
    while i < parts.len()
        invariant
            i <= parts.len(),
            all == text::texts(parts@),
            clean_path(target@, style) == (if all.contains(".."@) {
                None
            } else {
                Some(style.joined(all))
            }),
            path@ == style.joined(all.take(i as int)),
            path@.len() == 0 <==> i == 0,
            bare == (style.starts_at_drive(path@) && path@.len() == 2),
            forall|j: int| 0 <= j < i ==> #[trigger] all[j] != ".."@,
            forall|j: int| 0 <= j < all.len() ==> is_step(#[trigger] all[j]),
        decreases parts.len() - i,
    {
        assert(all[i as int] == parts@[i as int]@);
        if text::spells(parts[i], "..") {
            assert(all.contains(".."@));
            return None;
        }
        let ghost before = path@;
        assert(all.take(i + 1).drop_last() == all.take(i as int));
        assert(is_step(all[i as int]));
        if at_drive(parts[i], style) {
            path = text::string_of(parts[i]);
            bare = parts[i].len() == 2;
        } else {
            if i > 0 && !bare {
                path.push('/');
            }
            path.append(text::string_of(parts[i]).as_str());
            bare = false;
        }
        assert(path@ =~= style.pushed(before, all[i as int]));
        i = i + 1;
    }
    assert(all.take(i as int) == all);
    Some(path)
}

/// Says whether the absolute path `path` names `root` or something below it, where neither
/// holds links or steps that lead upwards.
pub fn is_below(root: &[u8], path: &[u8], separator: u8) -> (r: bool)
    ensures
        r == below(root@, path@, separator),
{
    let n = root.len();
    if path.len() < n {
        return false;
    }
    let mut i: usize = 0;
    while i < n
        invariant
            i <= n,
            n == root.len(),
            n <= path.len(),
            forall|j: int| 0 <= j < i ==> root@[j] == path@[j],
        decreases n - i,
    {
        if root[i] != path[i] {
            assert(root@[i as int] != path@[i as int]);
            assert(root@.push(separator)[i as int] == root@[i as int]);
            return false;
        }
        i = i + 1;
    }
    assert(root@.is_prefix_of(path@));
    if path.len() == n {
        assert(path@ =~= root@);
        return true;
    }
    if path[n] == separator {
        assert(root@.push(separator).is_prefix_of(path@));
        return true;
    }
    assert(root@.push(separator)[n as int] == separator);
    n > 0 && root[n - 1] == separator
}

fn last_at(s: &[char], c: char) -> (r: Option<usize>)
    ensures
        match r {
            Some(i) => rfind(s@, c) == i && i < s@.len(),
            None => rfind(s@, c) == -1,
        },
{
    let mut n: usize = s.len();
    assert(s@.take(n as int) == s@);
    while n > 0
        invariant
            n <= s.len(),
            rfind(s@, c) == rfind(s@.take(n as int), c),
        decreases n,
    {
        assert(s@.take(n as int).drop_last() == s@.take(n - 1));
        if s[n - 1] == c {
            return Some(n - 1);
        }
        n = n - 1;
    }
    None
}

/// The type of the content of the file at `path`, by its extension.
pub fn content_type(path: &str) -> (r: &'static str)
    ensures
        r@ == content_type_of(extension(path@)),
{
    let chars = text::chars_of(path);
    let none = text::take(chars.as_slice(), 0);
    assert(none@ == Seq::<char>::empty());
    let parts = cut_steps(chars.as_slice());
    let ghost all = text::texts(parts@);
    if parts.len() == 0 {
        return type_for(none);
    }
    let name = parts[parts.len() - 1];
    assert(all.last() == name@);
    if text::spells(name, "..") {
        return type_for(none);
    }
    match last_at(name, '.') {
        Some(dot) if dot > 0 => {
            assert(dot < name.len());
            type_for(text::skip(name, dot + 1))
        },
        _ => type_for(none),
    }
}

fn type_for(ext: &[char]) -> (r: &'static str)
    ensures
        r@ == content_type_of(ext@),
{
    if text::spells(ext, "html") || text::spells(ext, "htm") {
        "text/html; charset=utf-8"
    } else if text::spells(ext, "css") {
        "text/css; charset=utf-8"
    } else if text::spells(ext, "js") || text::spells(ext, "mjs") {
        "text/javascript; charset=utf-8"
    } else if text::spells(ext, "json") || text::spells(ext, "map") {
        "application/json; charset=utf-8"
    } else if text::spells(ext, "svg") {
        "image/svg+xml"
    } else if text::spells(ext, "png") {
        "image/png"
    } else if text::spells(ext, "jpg") || text::spells(ext, "jpeg") {
        "image/jpeg"
    } else if text::spells(ext, "gif") {
        "image/gif"
    } else if text::spells(ext, "webp") {
        "image/webp"
    } else if text::spells(ext, "ico") {
        "image/x-icon"
    } else if text::spells(ext, "wasm") {
        "application/wasm"
    } else if text::spells(ext, "txt") {
        "text/plain; charset=utf-8"
    } else if text::spells(ext, "pdf") {
        "application/pdf"
    } else if text::spells(ext, "woff") {
        "font/woff"
    } else if text::spells(ext, "woff2") {
        "font/woff2"
    } else if text::spells(ext, "ttf") {
        "font/ttf"
    } else if text::spells(ext, "otf") {
        "font/otf"
    } else if text::spells(ext, "mp4") {
        "video/mp4"
    } else if text::spells(ext, "webm") {
        "video/webm"
    } else if text::spells(ext, "mp3") {
        "audio/mpeg"
    } else if text::spells(ext, "wav") {
        "audio/wav"
    } else {
        "application/octet-stream"
    }
}

} // verus!
