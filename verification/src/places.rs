//! Where files stand: how paths are put together on each kind of file system, and which of
//! them lie inside the served directory.
use crate::path;
use crate::path::PathStyle;
use crate::response::{ResponseBody, ResponseView};
use crate::rule::{UpstreamScheme, UpstreamView};
use crate::static_files;
use crate::text;
use crate::tls;
use crate::tls::TlsError;
use rustls::ClientConnection;
use vstd::prelude::*;

verus! {

/// Whether `p` starts at a drive: with a letter, large or small, and a colon.
pub open spec fn at_drive(p: Seq<char>) -> bool {
    p.len() >= 2 && (65 <= p[0] as int <= 90 || 97 <= p[0] as int <= 122) && p[1] as int == 58
}

/// A step is put behind a path with one slash between them. On Windows, a drive takes the
/// place of all that stands before it, and a bare drive is followed by no slash. On Unix there
/// are no drives.
pub proof fn law_steps_are_put_together(before: Seq<char>, part: Seq<char>, parts: Seq<Seq<char>>)
    ensures
        PathStyle::Unix.pushed(before, part) == if before.len() == 0 {
            part
        } else {
            before + seq!['/'] + part
        },
        PathStyle::Windows.pushed(before, part) == if before.len() == 0 || at_drive(part) {
            part
        } else if at_drive(before) && before.len() == 2 {
            before + part
        } else {
            before + seq!['/'] + part
        },
        forall|style: PathStyle| #[trigger]
            style.joined(parts.push(part)) == style.pushed(style.joined(parts), part),
        forall|style: PathStyle| #[trigger]
            style.joined(Seq::empty()) == Seq::<char>::empty(),
{
    assert(parts.push(part).drop_last() =~= parts);
    assert(parts.push(part).last() == part);
}

/// What stands behind a drive is a path; without a drive the path is all of it.
pub proof fn law_behind_a_drive(p: Seq<char>)
    ensures
        PathStyle::Unix.below_drive(p) == p,
        at_drive(p) ==> p == p.take(2) + PathStyle::Windows.below_drive(p),
        !at_drive(p) ==> PathStyle::Windows.below_drive(p) == p,
        forall|style: PathStyle| #[trigger]
            static_files::content_type(p, style) == path::content_type_of(
                path::extension(style.below_drive(p)),
            ),
{
    if at_drive(p) {
        assert(p.take(2) + p.skip(2) =~= p);
    }
}

/// On Windows a backslash separates steps as a slash does: a target asks for what it asks
/// for with slashes in place of its backslashes.
pub proof fn law_backslashes_separate(
    target: Seq<char>,
    other: Seq<char>,
    meant: Seq<char>,
    slashed: Seq<char>,
)
    requires
        path::percent_decoded(text::before(target, '?')) == Some(meant),
        path::percent_decoded(text::before(other, '?')) == Some(slashed),
        meant.len() > 0 && meant[0] != '/' && meant[0] != '\\',
        slashed.len() == meant.len(),
        forall|i: int|
            0 <= i < meant.len() ==> #[trigger] slashed[i] == if meant[i] == '\\' {
                '/'
            } else {
                meant[i]
            },
    ensures
        path::clean_path(target, PathStyle::Windows) == path::clean_path(
            other,
            PathStyle::Windows,
        ),
{
    assert(slashed[0] == meant[0]);
    assert(slashed[1] == slashed[1]);
    assert(text::trim_start_slash(meant) == meant);
    assert(text::trim_start_slash(slashed) == slashed);
    let style = PathStyle::Windows;
    assert(style.slashed(meant) =~= slashed);
    assert(style.slashed(slashed) =~= slashed);
    assert(path::names_drive(meant) == path::names_drive(slashed)) by {
        if meant.len() >= 2 {
            assert(slashed[1] == if meant[1] == '\\' {
                '/'
            } else {
                meant[1]
            });
        }
    }
}

/// On Windows no request asks for a path that starts at a root or a drive of its own.
pub proof fn law_no_other_roots(target: Seq<char>, meant: Seq<char>)
    requires
        path::percent_decoded(text::before(target, '?')) == Some(meant),
        meant.len() > 0 && meant[0] != '/',
        meant[0] == '\\' || at_drive(meant),
    ensures
        path::clean_path(target, PathStyle::Windows) is None,
{
    assert(text::trim_start_slash(meant) == meant);
}

/// A path lies inside a directory where it is the directory, or goes on behind it with a
/// separator; where the directory itself ends in one, with anything. So another directory
/// whose name only starts alike does not lie inside.
pub proof fn law_inside_a_directory(root: Seq<u8>, p: Seq<u8>, rest: Seq<u8>, separator: u8)
    ensures
        path::below(root, root, separator),
        path::below(root, root + seq![separator] + rest, separator),
        root.len() > 0 && root[root.len() - 1] == separator ==> path::below(
            root,
            root + rest,
            separator,
        ),
        path::below(root, p, separator) ==> p.len() >= root.len() && p.take(root.len() as int)
            == root,
        path::below(root, p, separator) && p.len() > root.len() ==> p[root.len() as int]
            == separator || (root.len() > 0 && root[root.len() - 1] == separator),
{
    let inner = root + seq![separator] + rest;
    assert(root.push(separator).is_prefix_of(inner)) by {
        assert(inner.subrange(0, root.len() as int + 1) =~= root.push(separator));
    }
    assert(root.is_prefix_of(root + rest)) by {
        assert((root + rest).subrange(0, root.len() as int) =~= root);
    }
    if path::below(root, p, separator) {
        if root.push(separator).is_prefix_of(p) {
            let start = root.push(separator);
            assert(p.subrange(0, start.len() as int)[root.len() as int] == separator);
            assert(p.take(root.len() as int) =~= root) by {
                assert forall|i: int| 0 <= i < root.len() implies p[i] == root[i] by {
                    assert(p.subrange(0, start.len() as int)[i] == start[i]);
                }
            }
        } else if p != root {
            assert(p.take(root.len() as int) =~= root);
        } else {
            assert(p.take(root.len() as int) =~= root);
        }
    }
}

/// The kinds of responses: those that are complete keep the connection open or end it, and
/// the others have a body that is read from a file or from a temporary file.
pub proof fn law_kinds_of_responses(bytes: Seq<u8>)
    ensures
        ResponseView::whole(bytes).head == bytes,
        ResponseView::last(bytes).head == bytes,
        ResponseView::with_file(bytes).head == bytes,
        ResponseView::with_temp_file(bytes).head == bytes,
        ResponseView::whole(bytes).body == ResponseBody::Empty,
        ResponseView::last(bytes).body == ResponseBody::Empty,
        ResponseView::with_file(bytes).body == ResponseBody::File,
        ResponseView::with_temp_file(bytes).body == ResponseBody::TempFile,
        !ResponseView::whole(bytes).close,
        ResponseView::last(bytes).close,
        !ResponseView::with_file(bytes).close,
        !ResponseView::with_temp_file(bytes).close,
{
}

/// Where an upstream server is asked for over TLS, it is never asked without; a session is
/// with the server that the rule names; and a host that is no name of a server is refused,
/// and no other is refused for that.
pub proof fn law_sessions(
    host: Seq<char>,
    upstream: UpstreamView,
    started: Result<Option<ClientConnection>, TlsError>,
)
    requires
        upstream.host == host,
        tls::fits(upstream, started),
    ensures
        upstream.scheme == UpstreamScheme::Http <==> started matches Ok(None),
        started matches Ok(Some(session)) ==> tls::server_name_in(host) == Some(
            tls::session_server(session),
        ),
        upstream.scheme == UpstreamScheme::Https && tls::server_name_in(host) is None
            <==> started == Err::<Option<ClientConnection>, TlsError>(TlsError::InvalidHost),
{
}

} // verus!
