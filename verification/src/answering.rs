//! What a client is answered: the bytes of every response, which file answers which request,
//! and under what type.
use crate::bytes;
use crate::forwarding;
use crate::number;
use crate::path;
use crate::path::PathStyle;
use crate::plain;
use crate::request::RequestView;
use crate::response;
use crate::response::{ResponseBody, ResponseView};
use crate::runtime::RuntimeConfig;
use crate::server;
use crate::static_files;
use crate::static_files::{Answer, Files, Found};
use crate::text;
use vstd::prelude::*;
use vstd::utf8::*;

verus! {

/// The head of a response, as it is written.
pub open spec fn head(
    status: nat,
    reason: Seq<char>,
    content_type: Seq<char>,
    length: nat,
    keep_alive: bool,
    runtime: RuntimeConfig,
) -> Seq<u8> {
    encode_utf8(
        "HTTP/1.1 "@ + number::decimal(status) + seq![' '] + reason
            + "\r\nServer: pear\r\nContent-Type: "@ + content_type + "\r\nContent-Length: "@
            + number::decimal(length) + "\r\nCache-Control: no-cache\r\n"@ + forwarding::told(
            runtime,
            keep_alive,
        ) + seq!['\r', '\n'],
    )
}

/// A response that says no more than its reason, and why.
pub open spec fn short(
    status: nat,
    reason: Seq<char>,
    why: Seq<char>,
    keep_alive: bool,
    runtime: RuntimeConfig,
) -> Seq<u8> {
    head(status, reason, "text/plain"@, encode_utf8(why).len(), keep_alive, runtime) + encode_utf8(
        why,
    )
}

/// A response is its status, what it is and how long, what the client is told of its
/// connection, an empty line, and the body.
pub proof fn law_response_bytes(
    status: u16,
    reason: Seq<char>,
    content_type: Seq<char>,
    body: Seq<u8>,
    why: Seq<char>,
    keep_alive: bool,
    runtime: RuntimeConfig,
)
    ensures
        response::response_bytes(status, reason, content_type, body, keep_alive, runtime) == head(
            status as nat,
            reason,
            content_type,
            body.len(),
            keep_alive,
            runtime,
        ) + body,
        response::plain_bytes(status, reason, why, keep_alive, runtime) == short(
            status as nat,
            reason,
            why,
            keep_alive,
            runtime,
        ),
        forall|length: nat|
            encode_utf8(
                #[trigger] response::head_text(
                    status,
                    reason,
                    content_type,
                    length,
                    keep_alive,
                    runtime,
                ),
            ) == head(status as nat, reason, content_type, length, keep_alive, runtime),
{
    forwarding::lemma_told(runtime, keep_alive);
    reveal_strlit(" ");
    reveal_strlit("\r\n");
    assert(" "@ =~= seq![' ']);
    assert("\r\n"@ =~= seq!['\r', '\n']);
}

/// The answers that say no more than why: they end the connection where the request could
/// not be read or not be passed on, and tell the client so.
pub proof fn law_short_answers(runtime: RuntimeConfig)
    ensures
        server::not_implemented(runtime) == (ResponseView {
            head: short(
                501,
                "Not Implemented"@,
                "Chunked transfer encoding is not supported"@,
                false,
                runtime,
            ),
            body: ResponseBody::Empty,
            close: true,
        }),
        server::no_gateway(runtime) == (ResponseView {
            head: short(502, "Bad Gateway"@, "Bad Gateway"@, false, runtime),
            body: ResponseBody::Empty,
            close: true,
        }),
        response::busy_text()
            == "HTTP/1.1 503 Service Unavailable\r\nServer: pear\r\nContent-Length: 0\r\nConnection: close\r\n\r\n"@,
{
    let none = Seq::<u8>::empty();
    law_response_bytes(
        501,
        "Not Implemented"@,
        ""@,
        none,
        "Chunked transfer encoding is not supported"@,
        false,
        runtime,
    );
    law_response_bytes(502, "Bad Gateway"@, ""@, none, "Bad Gateway"@, false, runtime);
}

/// The content types, by extension.
pub proof fn law_content_types(ext: Seq<char>)
    ensures
        path::content_type_of("html"@) == "text/html; charset=utf-8"@,
        path::content_type_of("htm"@) == "text/html; charset=utf-8"@,
        path::content_type_of("css"@) == "text/css; charset=utf-8"@,
        path::content_type_of("js"@) == "text/javascript; charset=utf-8"@,
        path::content_type_of("mjs"@) == "text/javascript; charset=utf-8"@,
        path::content_type_of("json"@) == "application/json; charset=utf-8"@,
        path::content_type_of("map"@) == "application/json; charset=utf-8"@,
        path::content_type_of("svg"@) == "image/svg+xml"@,
        path::content_type_of("png"@) == "image/png"@,
        path::content_type_of("jpg"@) == "image/jpeg"@,
        path::content_type_of("jpeg"@) == "image/jpeg"@,
        path::content_type_of("gif"@) == "image/gif"@,
        path::content_type_of("webp"@) == "image/webp"@,
        path::content_type_of("ico"@) == "image/x-icon"@,
        path::content_type_of("wasm"@) == "application/wasm"@,
        path::content_type_of("txt"@) == "text/plain; charset=utf-8"@,
        path::content_type_of("pdf"@) == "application/pdf"@,
        path::content_type_of("woff"@) == "font/woff"@,
        path::content_type_of("woff2"@) == "font/woff2"@,
        path::content_type_of("ttf"@) == "font/ttf"@,
        path::content_type_of("otf"@) == "font/otf"@,
        path::content_type_of("mp4"@) == "video/mp4"@,
        path::content_type_of("webm"@) == "video/webm"@,
        path::content_type_of("mp3"@) == "audio/mpeg"@,
        path::content_type_of("wav"@) == "audio/wav"@,
        ext != "html"@
            && ext != "htm"@
            && ext != "css"@
            && ext != "js"@
            && ext != "mjs"@
            && ext != "json"@
            && ext != "map"@
            && ext != "svg"@
            && ext != "png"@
            && ext != "jpg"@
            && ext != "jpeg"@
            && ext != "gif"@
            && ext != "webp"@
            && ext != "ico"@
            && ext != "wasm"@
            && ext != "txt"@
            && ext != "pdf"@
            && ext != "woff"@
            && ext != "woff2"@
            && ext != "ttf"@
            && ext != "otf"@
            && ext != "mp4"@
            && ext != "webm"@
            && ext != "mp3"@
            && ext != "wav"@
            ==> path::content_type_of(ext) == "application/octet-stream"@,
{
    reveal_strlit("html");
    reveal_strlit("htm");
    reveal_strlit("css");
    reveal_strlit("js");
    reveal_strlit("mjs");
    reveal_strlit("json");
    reveal_strlit("map");
    reveal_strlit("svg");
    reveal_strlit("png");
    reveal_strlit("jpg");
    reveal_strlit("jpeg");
    reveal_strlit("gif");
    reveal_strlit("webp");
    reveal_strlit("ico");
    reveal_strlit("wasm");
    reveal_strlit("txt");
    reveal_strlit("pdf");
    reveal_strlit("woff");
    reveal_strlit("woff2");
    reveal_strlit("ttf");
    reveal_strlit("otf");
    reveal_strlit("mp4");
    reveal_strlit("webm");
    reveal_strlit("mp3");
    reveal_strlit("wav");
    assert("html"@.len() == 4);
    assert("htm"@.len() == 3);
    assert("css"@.len() == 3);
    assert("js"@.len() == 2);
    assert("mjs"@.len() == 3);
    assert("json"@.len() == 4);
    assert("map"@.len() == 3);
    assert("svg"@.len() == 3);
    assert("png"@.len() == 3);
    assert("jpg"@.len() == 3);
    assert("jpeg"@.len() == 4);
    assert("gif"@.len() == 3);
    assert("webp"@.len() == 4);
    assert("ico"@.len() == 3);
    assert("wasm"@.len() == 4);
    assert("txt"@.len() == 3);
    assert("pdf"@.len() == 3);
    assert("woff"@.len() == 4);
    assert("woff2"@.len() == 5);
    assert("ttf"@.len() == 3);
    assert("otf"@.len() == 3);
    assert("mp4"@.len() == 3);
    assert("webm"@.len() == 4);
    assert("mp3"@.len() == 3);
    assert("wav"@.len() == 3);
    assert("html"@[0] == 'h' && "html"@[1] == 't' && "html"@[2] == 'm' && "html"@[3] == 'l');
    assert("htm"@[0] == 'h' && "htm"@[1] == 't' && "htm"@[2] == 'm');
    assert("css"@[0] == 'c' && "css"@[1] == 's' && "css"@[2] == 's');
    assert("js"@[0] == 'j' && "js"@[1] == 's');
    assert("mjs"@[0] == 'm' && "mjs"@[1] == 'j' && "mjs"@[2] == 's');
    assert("json"@[0] == 'j' && "json"@[1] == 's' && "json"@[2] == 'o' && "json"@[3] == 'n');
    assert("map"@[0] == 'm' && "map"@[1] == 'a' && "map"@[2] == 'p');
    assert("svg"@[0] == 's' && "svg"@[1] == 'v' && "svg"@[2] == 'g');
    assert("png"@[0] == 'p' && "png"@[1] == 'n' && "png"@[2] == 'g');
    assert("jpg"@[0] == 'j' && "jpg"@[1] == 'p' && "jpg"@[2] == 'g');
    assert("jpeg"@[0] == 'j' && "jpeg"@[1] == 'p' && "jpeg"@[2] == 'e' && "jpeg"@[3] == 'g');
    assert("gif"@[0] == 'g' && "gif"@[1] == 'i' && "gif"@[2] == 'f');
    assert("webp"@[0] == 'w' && "webp"@[1] == 'e' && "webp"@[2] == 'b' && "webp"@[3] == 'p');
    assert("ico"@[0] == 'i' && "ico"@[1] == 'c' && "ico"@[2] == 'o');
    assert("wasm"@[0] == 'w' && "wasm"@[1] == 'a' && "wasm"@[2] == 's' && "wasm"@[3] == 'm');
    assert("txt"@[0] == 't' && "txt"@[1] == 'x' && "txt"@[2] == 't');
    assert("pdf"@[0] == 'p' && "pdf"@[1] == 'd' && "pdf"@[2] == 'f');
    assert("woff"@[0] == 'w' && "woff"@[1] == 'o' && "woff"@[2] == 'f' && "woff"@[3] == 'f');
    assert("woff2"@[0] == 'w' && "woff2"@[1] == 'o' && "woff2"@[2] == 'f' && "woff2"@[3] == 'f' && "woff2"@[4] == '2');
    assert("ttf"@[0] == 't' && "ttf"@[1] == 't' && "ttf"@[2] == 'f');
    assert("otf"@[0] == 'o' && "otf"@[1] == 't' && "otf"@[2] == 'f');
    assert("mp4"@[0] == 'm' && "mp4"@[1] == 'p' && "mp4"@[2] == '4');
    assert("webm"@[0] == 'w' && "webm"@[1] == 'e' && "webm"@[2] == 'b' && "webm"@[3] == 'm');
    assert("mp3"@[0] == 'm' && "mp3"@[1] == 'p' && "mp3"@[2] == '3');
    assert("wav"@[0] == 'w' && "wav"@[1] == 'a' && "wav"@[2] == 'v');
}

/// The extension of a file is what follows the last dot of its name, unless that dot comes
/// first: then, and without a dot, it has none.
pub proof fn law_extension(dir: Seq<char>, stem: Seq<char>, ext: Seq<char>)
    requires
        dir.len() > 0 ==> dir[dir.len() - 1] == '/',
        !stem.contains('/') && !ext.contains('/'),
        !ext.contains('.'),
    ensures
        stem.len() > 0 ==> path::extension(dir + stem + seq!['.'] + ext) == ext,
        ext.len() > 0 ==> path::extension(dir + seq!['.'] + ext) == Seq::<char>::empty(),
        ext.len() > 0 ==> path::extension(dir + ext) == Seq::<char>::empty(),
{
    reveal_strlit(".");
    reveal_strlit("..");
    let dotted = stem + seq!['.'] + ext;
    assert(dir + stem + seq!['.'] + ext =~= dir + dotted);
    assert forall|i: int| 0 <= i < dotted.len() implies dotted[i] != '/' by {
        if i < stem.len() {
            assert(stem.contains(stem[i]));
        } else if i > stem.len() {
            assert(ext.contains(ext[i - stem.len() - 1]));
        }
    }
    assert forall|i: int| 0 <= i < ext.len() implies ext[i] != '.' && ext[i] != '/' by {
        assert(ext.contains(ext[i]));
    }
    let hidden = seq!['.'] + ext;
    assert(dir + seq!['.'] + ext =~= dir + hidden);
    assert forall|i: int| 0 <= i < hidden.len() implies hidden[i] != '/' by {
        if i > 0 {
            assert(hidden[i] == ext[i - 1]);
        }
    }
    if stem.len() > 0 {
        lemma_last_dot(stem, ext);
        assert(dotted.skip(stem.len() as int + 1) =~= ext);
        if dotted == ".."@ {
            assert(ext.len() == 0);
            assert(ext =~= Seq::empty());
        }
        assert(dotted != "."@) by {
            if dotted == "."@ {
                assert(dotted.len() == 1);
            }
        }
        lemma_last_step(dir, dotted);
    }
    if ext.len() > 0 {
        let none = Seq::<char>::empty();
        assert(hidden =~= none + seq!['.'] + ext);
        lemma_last_dot(none, ext);
        assert(hidden != "."@ && hidden != ".."@) by {
            assert(hidden.len() > 1);
            if hidden == ".."@ {
                assert(hidden[1] == '.');
                assert(hidden[1] == ext[0]);
            }
        }
        lemma_last_step(dir, hidden);
        lemma_no_dot(ext);
        assert(ext != "."@ && ext != ".."@) by {
            assert(ext[0] != '.');
        }
        lemma_last_step(dir, ext);
    }
}

proof fn lemma_last_dot(stem: Seq<char>, ext: Seq<char>)
    requires
        !ext.contains('.'),
    ensures
        path::rfind(stem + seq!['.'] + ext, '.') == stem.len(),
    decreases ext.len(),
{
    let s = stem + seq!['.'] + ext;
    if ext.len() > 0 {
        assert(s.last() == ext.last());
        assert(ext.contains(ext[ext.len() - 1]));
        assert(s.drop_last() =~= stem + seq!['.'] + ext.drop_last());
        assert forall|i: int| 0 <= i < ext.drop_last().len() implies ext.drop_last()[i] != '.' by {
            assert(ext.contains(ext[i]));
        }
        lemma_last_dot(stem, ext.drop_last());
    } else {
        assert(s.last() == '.');
    }
}

proof fn lemma_no_dot(s: Seq<char>)
    requires
        !s.contains('.'),
    ensures
        path::rfind(s, '.') == -1,
    decreases s.len(),
{
    if s.len() > 0 {
        assert(s.contains(s[s.len() - 1]));
        assert forall|i: int| 0 <= i < s.drop_last().len() implies s.drop_last()[i] != '.' by {
            assert(s.contains(s[i]));
        }
        lemma_no_dot(s.drop_last());
    }
}

/// The last step of a path is its name.
proof fn lemma_last_step(dir: Seq<char>, name: Seq<char>)
    requires
        dir.len() > 0 ==> dir[dir.len() - 1] == '/',
        !name.contains('/'),
        path::is_step(name),
    ensures
        path::steps(dir + name).len() > 0,
        path::steps(dir + name).last() == name,
    decreases dir.len(),
{
    let s = dir + name;
    let parts = text::split(s, '/');
    lemma_last_part(dir, name);
    reveal(Seq::filter);
    assert(parts.last() == name);
}

proof fn lemma_last_part(dir: Seq<char>, name: Seq<char>)
    requires
        dir.len() > 0 ==> dir[dir.len() - 1] == '/',
        !name.contains('/'),
    ensures
        text::split(dir + name, '/').len() > 0,
        text::split(dir + name, '/').last() == name,
    decreases dir.len(),
{
    let s = dir + name;
    if dir.len() == 0 {
        assert(s =~= name);
        plain::law_cut_at_each(name, '/', name);
    } else {
        assert(dir.contains(dir[dir.len() - 1]));
        plain::lemma_first(dir, '/');
        let k = text::find(dir, '/', 0);
        let a = dir.take(k);
        let b = dir.skip(k + 1);
        assert(s =~= a + seq!['/'] + (b + name));
        if b.len() > 0 {
            assert(b[b.len() - 1] == dir[dir.len() - 1]);
        }
        plain::law_cut_at_each(a, '/', b + name);
        lemma_last_part(b, name);
    }
}

/// Steps with slashes between them.
pub open spec fn slashed(parts: Seq<Seq<char>>) -> Seq<char>
    decreases parts.len(),
{
    if parts.len() == 0 {
        Seq::empty()
    } else if parts.len() == 1 {
        parts[0]
    } else {
        parts[0] + seq!['/'] + slashed(parts.skip(1))
    }
}

/// Those of the parts of a path that name something: all but the empty ones and single dots.
pub open spec fn names(parts: Seq<Seq<char>>) -> Seq<Seq<char>> {
    parts.filter(|p: Seq<char>| p.len() > 0 && p != seq!['.'])
}

proof fn lemma_names(parts: Seq<Seq<char>>)
    ensures
        path::steps_among(parts) == names(parts),
        names(parts).contains(".."@) <==> parts.contains(".."@),
        forall|i: int|
            0 <= i < names(parts).len() ==> (#[trigger] names(parts)[i]).len() > 0
                && parts.contains(names(parts)[i]),
    decreases parts.len(),
{
    reveal(Seq::filter);
    reveal_strlit(".");
    reveal_strlit("..");
    assert("."@ =~= seq!['.']);
    let up = ".."@;
    assert(up.len() == 2);
    if parts.len() > 0 {
        let less = parts.drop_last();
        let last = parts[parts.len() - 1];
        lemma_names(less);
        let all = names(parts);
        let few = names(less);
        assert(parts.contains(last));
        assert forall|i: int| 0 <= i < all.len() implies (#[trigger] all[i]).len() > 0
            && parts.contains(all[i]) by {
            if i < few.len() {
                assert(all[i] == few[i]);
                let k = less.index_of(few[i]);
                assert(parts[k] == few[i]);
            }
        }
        if parts.contains(up) {
            let k = parts.index_of(up);
            if k < less.len() {
                assert(less[k] == up);
                assert(less.contains(up));
                let j = few.index_of(up);
                assert(all[j] == up);
            } else {
                assert(up != seq!['.']);
                assert(all[all.len() - 1] == up);
            }
        }
        if all.contains(up) {
            let k = all.index_of(up);
            assert(parts.contains(all[k]));
        }
    }
}

proof fn lemma_split_slashed(parts: Seq<Seq<char>>)
    requires
        parts.len() > 0,
        forall|i: int| 0 <= i < parts.len() ==> !(#[trigger] parts[i]).contains('/'),
    ensures
        text::split(slashed(parts), '/') == parts,
    decreases parts.len(),
{
    let none = Seq::<char>::empty();
    if parts.len() == 1 {
        plain::law_cut_at_each(parts[0], '/', none);
        assert(seq![parts[0]] =~= parts);
    } else {
        let rest = parts.skip(1);
        assert forall|i: int| 0 <= i < rest.len() implies !(#[trigger] rest[i]).contains('/') by {
            assert(rest[i] == parts[i + 1]);
        }
        lemma_split_slashed(rest);
        plain::law_cut_at_each(parts[0], '/', slashed(rest));
        assert(seq![parts[0]] + rest =~= parts);
    }
}

proof fn lemma_slashed_push(parts: Seq<Seq<char>>, last: Seq<char>)
    requires
        parts.len() > 0,
    ensures
        slashed(parts.push(last)) == slashed(parts) + seq!['/'] + last,
    decreases parts.len(),
{
    let all = parts.push(last);
    assert(all.skip(1) =~= parts.skip(1).push(last));
    if parts.len() == 1 {
        assert(all.skip(1) =~= seq![last]);
        assert(slashed(all.skip(1)) == last);
    } else {
        lemma_slashed_push(parts.skip(1), last);
        assert(slashed(all) =~= slashed(parts) + seq!['/'] + last);
    }
}

proof fn lemma_joined(parts: Seq<Seq<char>>)
    requires
        forall|i: int| 0 <= i < parts.len() ==> (#[trigger] parts[i]).len() > 0,
    ensures
        PathStyle::Unix.joined(parts) == slashed(parts),
        parts.len() > 0 ==> slashed(parts).len() > 0,
    decreases parts.len(),
{
    if parts.len() > 0 {
        let less = parts.drop_last();
        let last = parts[parts.len() - 1];
        assert forall|i: int| 0 <= i < less.len() implies (#[trigger] less[i]).len() > 0 by {
            assert(less[i] == parts[i]);
        }
        lemma_joined(less);
        assert(last.len() > 0);
        if less.len() > 0 {
            lemma_slashed_push(less, last);
            assert(less.push(last) =~= parts);
        } else {
            assert(parts =~= seq![last]);
        }
    }
}

/// Slashes at the start of a path add no step.
proof fn lemma_steps_after_slashes(s: Seq<char>)
    ensures
        path::steps(text::trim_start_slash(s)) == path::steps(s),
    decreases s.len(),
{
    if s.len() > 0 && s[0] == '/' {
        let rest = s.skip(1);
        let none = Seq::<char>::empty();
        assert(s =~= none + seq!['/'] + rest);
        plain::law_cut_at_each(none, '/', rest);
        lemma_steps_after_slashes(rest);
        lemma_filter_front(none, text::split(rest, '/'));
    }
}

proof fn lemma_filter_front(first: Seq<char>, rest: Seq<Seq<char>>)
    requires
        !path::is_step(first),
    ensures
        path::steps_among(seq![first] + rest) == path::steps_among(rest),
    decreases rest.len(),
{
    reveal(Seq::filter);
    let all = seq![first] + rest;
    if rest.len() == 0 {
        assert(all.drop_last() =~= rest);
        assert(all[all.len() - 1] == first);
    } else {
        assert(all.drop_last() =~= seq![first] + rest.drop_last());
        assert(all[all.len() - 1] == rest[rest.len() - 1]);
        lemma_filter_front(first, rest.drop_last());
    }
}

/// The path that a target asks for, whatever its steps: a slash and parts with slashes
/// between them ask for those parts that name something, with one slash between them; where
/// a part is two dots, for nothing. A query makes no difference.
pub proof fn law_path_that_is_asked_for(parts: Seq<Seq<char>>, query: Seq<char>)
    requires
        parts.len() > 0,
        forall|i: int|
            0 <= i < parts.len() ==> !(#[trigger] parts[i]).contains('/') && !parts[i].contains('%')
                && !parts[i].contains('?'),
    ensures
        ({
            let target = seq!['/'] + slashed(parts);
            let asked = if parts.contains(".."@) {
                None
            } else {
                Some(slashed(names(parts)))
            };
            &&& path::clean_path(target, PathStyle::Unix) == asked
            &&& path::clean_path(target + seq!['?'] + query, PathStyle::Unix) == asked
        }),
{
    let inner = slashed(parts);
    let target = seq!['/'] + inner;
    lemma_holds_none(parts, '%');
    lemma_holds_none(parts, '?');
    assert forall|i: int| 0 <= i < target.len() implies target[i] != '%' && target[i] != '?' by {
        if i > 0 {
            assert(target[i] == inner[i - 1]);
            assert(inner.contains(inner[i - 1]));
        }
    }
    plain::law_cut_in_two(target, '?', query);
    path::law_plain_text_stands_for_itself(target);
    assert(target.skip(1) =~= inner);
    assert(text::trim_start_slash(target) == text::trim_start_slash(inner));
    lemma_steps_after_slashes(inner);
    lemma_split_slashed(parts);
    lemma_names(parts);
    lemma_joined(names(parts));
    assert(path::steps(inner) == names(parts));
}

proof fn lemma_holds_none(parts: Seq<Seq<char>>, c: char)
    requires
        c != '/',
        forall|i: int| 0 <= i < parts.len() ==> !(#[trigger] parts[i]).contains(c),
    ensures
        !slashed(parts).contains(c),
    decreases parts.len(),
{
    let s = slashed(parts);
    if parts.len() == 1 {
        assert(s == parts[0]);
    } else if parts.len() > 1 {
        let rest = parts.skip(1);
        assert forall|i: int| 0 <= i < rest.len() implies !(#[trigger] rest[i]).contains(c) by {
            assert(rest[i] == parts[i + 1]);
        }
        lemma_holds_none(rest, c);
        assert forall|i: int| 0 <= i < s.len() implies s[i] != c by {
            if i < parts[0].len() {
                assert(parts[0].contains(parts[0][i]));
            } else if i > parts[0].len() {
                assert(slashed(rest).contains(slashed(rest)[i - parts[0].len() - 1]));
            }
        }
    }
}

/// A target asks for what it asks for with its escapes undone, and for nothing where an
/// escape is broken.
pub proof fn law_escapes_in_targets(target: Seq<char>, meant: Seq<char>, style: PathStyle)
    requires
        !target.contains('?'),
        !meant.contains('%') && !meant.contains('?'),
    ensures
        path::percent_decoded(target) == Some(meant) ==> path::clean_path(target, style)
            == path::clean_path(meant, style),
        path::percent_decoded(target) is None ==> path::clean_path(target, style) is None,
{
    plain::law_cut_in_two(target, '?', target);
    plain::law_cut_in_two(meant, '?', meant);
    path::law_plain_text_stands_for_itself(meant);
}

/// Whether `c` is a hexadecimal digit.
pub open spec fn is_hex(c: char) -> bool {
    let n = c as int;
    48 <= n <= 57 || 65 <= n <= 70 || 97 <= n <= 102
}

/// An escape is broken where two hexadecimal digits do not follow its percent sign.
pub proof fn law_broken_escapes(before: Seq<char>, after: Seq<char>)
    requires
        !before.contains('%'),
        after.len() < 2 || !is_hex(after[0]) || !is_hex(after[1]),
    ensures
        path::percent_decoded(before + seq!['%'] + after) is None,
{
    let b = encode_utf8(before);
    let a = encode_utf8(after);
    bytes::lemma_encode_concat(before, seq!['%'] + after);
    bytes::lemma_encode_concat(seq!['%'], after);
    assert(before + seq!['%'] + after =~= before + (seq!['%'] + after));
    bytes::lemma_encode_one('%');
    assert(seq!['%'].drop_first() =~= Seq::empty());
    reveal_with_fuel(encode_utf8, 2);
    assert(encode_utf8(seq!['%']) =~= seq![37u8]);
    bytes::lemma_encode_ascii(before, '%');
    lemma_first_bytes(after);
    lemma_unescaped_after(b, seq![37u8] + a);
    let rest = seq![37u8] + a;
    if rest.len() >= 3 {
        assert(rest[1] == a[0] && rest[2] == a[1]);
    }
    assert(path::unescaped(rest) is None);
}

/// The first two bytes of a text are hexadecimal digits only where its first two characters
/// are.
proof fn lemma_first_bytes(s: Seq<char>)
    ensures
        s.len() < 2 || !is_hex(s[0]) || !is_hex(s[1]) ==> encode_utf8(s).len() < 2 || path::hex(
            encode_utf8(s)[0],
        ) is None || path::hex(encode_utf8(s)[1]) is None,
{
    let b = encode_utf8(s);
    if s.len() > 0 {
        let rest = s.drop_first();
        bytes::lemma_encode_one(s[0]);
        let first = encode_scalar(s[0] as u32);
        assert(b == first + encode_utf8(rest));
        if s[0] as int > 127 {
            if first.len() > 0 {
                assert(b[0] == first[0]);
                assert(first[0] >= 128);
            } else {
                char_is_scalar(s[0]);
            }
        } else {
            assert(b[0] == s[0] as u8);
            if rest.len() > 0 {
                bytes::lemma_encode_one(rest[0]);
                let second = encode_scalar(rest[0] as u32);
                assert(encode_utf8(rest) == second + encode_utf8(rest.drop_first()));
                assert(rest[0] == s[1]);
                if rest[0] as int > 127 {
                    if second.len() > 0 {
                        assert(b[1] == second[0]);
                        assert(second[0] >= 128);
                    } else {
                        char_is_scalar(rest[0]);
                    }
                } else {
                    assert(b[1] == rest[0] as u8);
                }
            } else {
                assert(encode_utf8(rest).len() == 0);
            }
        }
    }
}

/// Plain bytes before others do not change whether escapes are broken.
proof fn lemma_unescaped_after(b: Seq<u8>, rest: Seq<u8>)
    requires
        !b.contains(37u8),
    ensures
        path::unescaped(b + rest) is Some <==> path::unescaped(rest) is Some,
    decreases b.len(),
{
    let all = b + rest;
    if b.len() > 0 {
        assert(b.contains(b[0]));
        assert(all[0] == b[0]);
        assert(all.skip(1) =~= b.skip(1) + rest);
        assert forall|i: int| 0 <= i < b.skip(1).len() implies b.skip(1)[i] != 37u8 by {
            assert(b.contains(b[i + 1]));
        }
        lemma_unescaped_after(b.skip(1), rest);
    } else {
        assert(all =~= rest);
    }
}

/// The answer with a file of `len` bytes: all of a small file together with the head, and a
/// large one after it.
pub open spec fn with_file(
    path: Seq<char>,
    len: u64,
    keep_alive: bool,
    runtime: RuntimeConfig,
    files: Files,
) -> Answer {
    let kind = path::content_type_of(path::extension(path));
    let contents = (files.contents)(path);
    if len <= 16384 {
        Answer {
            response: ResponseView {
                head: head(
                    200,
                    "OK"@,
                    kind,
                    (contents.len() as usize) as nat,
                    keep_alive,
                    runtime,
                ) + contents,
                body: ResponseBody::Empty,
                close: false,
            },
            file: None,
        }
    } else {
        Answer {
            response: ResponseView {
                head: head(200, "OK"@, kind, (len as usize) as nat, keep_alive, runtime),
                body: ResponseBody::File,
                close: false,
            },
            file: Some(path),
        }
    }
}

/// The answer that nothing was found.
pub open spec fn without_file(keep_alive: bool, runtime: RuntimeConfig) -> Answer {
    Answer {
        response: ResponseView {
            head: short(404, "Not Found"@, "Not Found"@, keep_alive, runtime),
            body: ResponseBody::Empty,
            close: false,
        },
        file: None,
    }
}

/// The answer with a file, if it lies inside the served directory.
pub open spec fn with_file_inside(
    path: Seq<char>,
    len: u64,
    keep_alive: bool,
    runtime: RuntimeConfig,
    files: Files,
) -> Answer {
    if (files.inside)(path) {
        with_file(path, len, keep_alive, runtime, files)
    } else {
        without_file(keep_alive, runtime)
    }
}

/// `index.html` in a directory: behind a slash, or by itself in the served directory.
pub open spec fn index_of(path: Seq<char>) -> Seq<char> {
    if path.len() == 0 {
        "index.html"@
    } else {
        path + "/index.html"@
    }
}

/// Which file answers a `GET`: the one that stands at the path; for a directory, the
/// `index.html` in that very directory; otherwise the `index.html` of the served directory,
/// where the fallback is on; and no file where that is not there either.
pub proof fn law_file_that_answers(
    request: RequestView,
    path: Seq<char>,
    spa_fallback: bool,
    runtime: RuntimeConfig,
    keep_alive: bool,
    style: PathStyle,
    files: Files,
)
    requires
        request.method == "GET"@,
        path::clean_path(request.target, style) == Some(path),
        style == PathStyle::Unix || !path::names_drive(path),
    ensures
        ({
            let given = static_files::answer(
                request,
                spa_fallback,
                runtime,
                keep_alive,
                style,
                files,
            );
            let index = index_of(path);
            let root = "index.html"@;
            match ((files.look)(path), (files.look)(index), (files.look)(root)) {
                (Found::File(len), _, _) => given == with_file_inside(
                    path,
                    len,
                    keep_alive,
                    runtime,
                    files,
                ),
                (Found::Directory, Found::File(len), _) => given == with_file_inside(
                    index,
                    len,
                    keep_alive,
                    runtime,
                    files,
                ),
                (_, _, Found::File(len)) => given == if spa_fallback {
                    with_file_inside(root, len, keep_alive, runtime, files)
                } else {
                    without_file(keep_alive, runtime)
                },
                _ => given == without_file(keep_alive, runtime),
            }
        }),
{
    reveal_strlit("GET");
    reveal_strlit("HEAD");
    assert(request.method.len() == 3);
    assert("HEAD"@.len() == 4);
    lemma_index(path, style);
    let none = Seq::<u8>::empty();
    law_response_bytes(404, "Not Found"@, ""@, none, "Not Found"@, keep_alive, runtime);
    lemma_served(path, keep_alive, spa_fallback, runtime, style, files);
    lemma_served(index_of(path), keep_alive, spa_fallback, runtime, style, files);
    lemma_served("index.html"@, keep_alive, spa_fallback, runtime, style, files);
}

/// The file that a `GET` is answered with.
proof fn lemma_served(
    path: Seq<char>,
    keep_alive: bool,
    spa_fallback: bool,
    runtime: RuntimeConfig,
    style: PathStyle,
    files: Files,
)
    requires
        style == PathStyle::Unix || !path::names_drive(path),
    ensures
        forall|len: u64|
            #![trigger with_file_inside(path, len, keep_alive, runtime, files)]
            static_files::answer_with(
                Some((path, len)),
                static_files::Wish {
                    head_only: false,
                    keep_alive,
                    spa_fallback,
                    runtime,
                    style,
                },
                files,
            ) == with_file_inside(path, len, keep_alive, runtime, files),
{
    let none = Seq::<u8>::empty();
    let kind = path::content_type_of(path::extension(path));
    law_response_bytes(200, "OK"@, kind, none, ""@, keep_alive, runtime);
    law_response_bytes(404, "Not Found"@, ""@, none, "Not Found"@, keep_alive, runtime);
}

/// The index of a directory stands behind a slash.
proof fn lemma_index(path: Seq<char>, style: PathStyle)
    requires
        style == PathStyle::Unix || !path::names_drive(path),
    ensures
        static_files::index_below(path, style) == index_of(path),
        !path::names_drive(index_of(path)) || style == PathStyle::Unix,
        !path::names_drive("index.html"@),
{
    reveal_strlit("index.html");
    reveal_strlit("/index.html");
    assert("index.html"@[1] == 'n');
    assert("/index.html"@ =~= seq!['/'] + "index.html"@);
    assert(path + seq!['/'] + "index.html"@ =~= path + "/index.html"@);
    let index = index_of(path);
    if path.len() == 1 {
        assert(index[1] == '/');
    } else if path.len() > 1 {
        assert(index[0] == path[0] && index[1] == path[1]);
    }
}

/// What is refused, and how: every method but `GET` and `HEAD`, and a target that asks for
/// no path inside the served directory.
pub proof fn law_refused_requests(
    request: RequestView,
    spa_fallback: bool,
    runtime: RuntimeConfig,
    keep_alive: bool,
    style: PathStyle,
    files: Files,
)
    ensures
        ({
            let given = static_files::answer(
                request,
                spa_fallback,
                runtime,
                keep_alive,
                style,
                files,
            );
            let known = request.method == "GET"@ || request.method == "HEAD"@;
            &&& !known ==> given == (Answer {
                response: ResponseView {
                    head: short(
                        405,
                        "Method Not Allowed"@,
                        "Method Not Allowed"@,
                        keep_alive,
                        runtime,
                    ),
                    body: ResponseBody::Empty,
                    close: false,
                },
                file: None,
            })
            &&& known && path::clean_path(request.target, style) is None ==> given == (Answer {
                response: ResponseView {
                    head: short(400, "Bad Request"@, "Bad Request"@, false, runtime),
                    body: ResponseBody::Empty,
                    close: false,
                },
                file: None,
            })
        }),
{
    let none = Seq::<u8>::empty();
    law_response_bytes(
        405,
        "Method Not Allowed"@,
        ""@,
        none,
        "Method Not Allowed"@,
        keep_alive,
        runtime,
    );
    law_response_bytes(400, "Bad Request"@, ""@, none, "Bad Request"@, false, runtime);
}

} // verus!
