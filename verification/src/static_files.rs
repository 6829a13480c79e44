//! Static files: which file answers a request, and how.
//!
//! The file system is looked at from outside: each step says what to find out next,
//! and takes what was found.
use crate::bytes;
use crate::message;
use crate::path;
use crate::path::PathStyle;
use crate::request::{Request, RequestView};
use crate::response;
use crate::response::{Response, ResponseBody, ResponseView};
use crate::runtime::RuntimeConfig;
use crate::text;
use vstd::prelude::*;
use vstd::utf8::*;

verus! {

/// The size up to which a file is sent together with the head of its response.
pub const INLINE_FILE_THRESHOLD: u64 = 16384;

/// What stands at a path.
#[derive(Clone, Copy, Debug, PartialEq, Eq, Structural)]
pub enum Found {
    Directory,
    /// A file of this size.
    File(u64),
    /// Nothing, or something that is neither, or something that cannot be looked at.
    Other,
}

/// What a request for a file asks for, besides the file.
#[derive(Clone, Copy, Debug, PartialEq, Eq, Structural)]
pub struct Wish {
    /// Only the head of the response is wanted.
    pub head_only: bool,
    /// The connection is to stay open.
    pub keep_alive: bool,
    /// `index.html` answers for what is not there.
    pub spa_fallback: bool,
    pub runtime: RuntimeConfig,
    /// How the file system reads paths.
    pub style: PathStyle,
}

/// Which of the paths that may answer a request is looked at.
#[derive(Clone, Copy, Debug, PartialEq, Eq, Structural)]
pub enum Stage {
    /// The path of the request.
    Target,
    /// `index.html` in the directory that stands there.
    Index,
    /// `index.html` in the root.
    Fallback,
}

/// A search for the file that answers a request: `path` is to be looked at, below the
/// root.
#[derive(Debug)]
pub struct Lookup {
    pub path: String,
    pub stage: Stage,
    pub wish: Wish,
}

/// What a `Lookup` holds.
#[verifier::ext_equal]
pub struct LookupView {
    pub path: Seq<char>,
    pub stage: Stage,
    pub wish: Wish,
}

impl View for Lookup {
    type V = LookupView;

    open spec fn view(&self) -> LookupView {
        LookupView { path: self.path@, stage: self.stage, wish: self.wish }
    }
}

/// A file that answers a request if it lies inside the root.
#[derive(Debug)]
pub struct Candidate {
    pub path: String,
    pub len: u64,
    pub wish: Wish,
}

/// What a `Candidate` holds.
#[verifier::ext_equal]
pub struct CandidateView {
    pub path: Seq<char>,
    pub len: u64,
    pub wish: Wish,
}

impl View for Candidate {
    type V = CandidateView;

    open spec fn view(&self) -> CandidateView {
        CandidateView { path: self.path@, len: self.len, wish: self.wish }
    }
}

/// What to do in a search.
#[derive(Debug)]
pub enum LookStep {
    /// Look at a path.
    Look(Lookup),
    /// Find out whether a file, links resolved, lies inside the root.
    Check(Candidate),
    Respond(Response),
}

/// What a `LookStep` says.
#[verifier::ext_equal]
pub enum LookStepView {
    Look(LookupView),
    Check(CandidateView),
    Respond(ResponseView),
}

impl View for LookStep {
    type V = LookStepView;

    open spec fn view(&self) -> LookStepView {
        match *self {
            LookStep::Look(lookup) => LookStepView::Look(lookup@),
            LookStep::Check(candidate) => LookStepView::Check(candidate@),
            LookStep::Respond(response) => LookStepView::Respond(response@),
        }
    }
}

/// What to do with a file.
#[derive(Debug)]
pub enum FileStep {
    Respond(Response),
    /// Read all of the file.
    Read(Candidate),
    /// Send this response and then the file as it is read.
    Stream { path: String, response: Response },
}

/// What a `FileStep` says.
#[verifier::ext_equal]
pub enum FileStepView {
    Respond(ResponseView),
    Read(CandidateView),
    Stream { path: Seq<char>, response: ResponseView },
}

impl View for FileStep {
    type V = FileStepView;

    open spec fn view(&self) -> FileStepView {
        match *self {
            FileStep::Respond(response) => FileStepView::Respond(response@),
            FileStep::Read(candidate) => FileStepView::Read(candidate@),
            FileStep::Stream { path, response } => FileStepView::Stream {
                path: path@,
                response: response@,
            },
        }
    }
}

/// A response that says no more than its reason.
pub open spec fn refusal(
    status: u16,
    reason: Seq<char>,
    keep_alive: bool,
    runtime: RuntimeConfig,
) -> ResponseView {
    ResponseView {
        head: response::plain_bytes(status, reason, reason, keep_alive, runtime),
        body: ResponseBody::Empty,
        close: false,
    }
}

/// The response where no file answers.
pub open spec fn not_found(wish: Wish) -> ResponseView {
    refusal(404, "Not Found"@, wish.keep_alive, wish.runtime)
}

/// The head of a response with a file of `len` bytes.
pub open spec fn file_head(path: Seq<char>, len: usize, wish: Wish) -> Seq<u8> {
    encode_utf8(
        response::head_text(
            200,
            "OK"@,
            content_type(path, wish.style),
            len as nat,
            wish.keep_alive,
            wish.runtime,
        ),
    )
}

/// The type of the content of the file at `path`.
pub open spec fn content_type(path: Seq<char>, style: PathStyle) -> Seq<char> {
    path::content_type_of(path::extension(style.below_drive(path)))
}

/// `index.html` in the directory at `path`.
pub open spec fn index_below(path: Seq<char>, style: PathStyle) -> Seq<char> {
    style.pushed(path, "index.html"@)
}

/// How a request for a file starts.
pub open spec fn first_step(
    request: RequestView,
    spa_fallback: bool,
    runtime: RuntimeConfig,
    keep_alive: bool,
    style: PathStyle,
) -> LookStepView {
    if request.method != "GET"@ && request.method != "HEAD"@ {
        LookStepView::Respond(refusal(405, "Method Not Allowed"@, keep_alive, runtime))
    } else {
        match path::clean_path(request.target, style) {
            None => LookStepView::Respond(refusal(400, "Bad Request"@, false, runtime)),
            Some(path) => LookStepView::Look(
                LookupView {
                    path,
                    stage: Stage::Target,
                    wish: Wish {
                        head_only: request.method == "HEAD"@,
                        keep_alive,
                        spa_fallback,
                        runtime,
                        style,
                    },
                },
            ),
        }
    }
}

impl LookupView {
    /// What to do once `found` was found at the path.
    pub open spec fn next(self, found: Found) -> LookStepView {
        match (self.stage, found) {
            (_, Found::File(len)) => LookStepView::Check(
                CandidateView { path: self.path, len, wish: self.wish },
            ),
            (Stage::Target, Found::Directory) => LookStepView::Look(
                LookupView { path: index_below(self.path, self.wish.style), stage: Stage::Index, ..self },
            ),
            (Stage::Fallback, _) => LookStepView::Respond(not_found(self.wish)),
            _ => if self.wish.spa_fallback {
                LookStepView::Look(
                    LookupView { path: "index.html"@, stage: Stage::Fallback, ..self },
                )
            } else {
                LookStepView::Respond(not_found(self.wish))
            },
        }
    }
}

impl CandidateView {
    /// What to do once it is known whether the file lies inside the root.
    pub open spec fn next(self, inside: bool) -> FileStepView {
        if !inside {
            FileStepView::Respond(not_found(self.wish))
        } else if self.wish.head_only {
            FileStepView::Respond(
                ResponseView {
                    head: file_head(self.path, self.len as usize, self.wish),
                    body: ResponseBody::Empty,
                    close: false,
                },
            )
        } else if self.len <= INLINE_FILE_THRESHOLD {
            FileStepView::Read(self)
        } else {
            FileStepView::Stream {
                path: self.path,
                response: ResponseView {
                    head: file_head(self.path, self.len as usize, self.wish),
                    body: ResponseBody::File,
                    close: false,
                },
            }
        }
    }

    /// The response with all of the file.
    pub open spec fn with_contents(self, contents: Seq<u8>) -> ResponseView {
        ResponseView {
            head: file_head(self.path, contents.len() as usize, self.wish) + contents,
            body: ResponseBody::Empty,
            close: false,
        }
    }
}

fn refuse(status: u16, reason: &str, keep_alive: bool, runtime: &RuntimeConfig) -> (r: Response)
    ensures
        r@ == refusal(status, reason@, keep_alive, *runtime),
{
    Response::new(response::plain_response(status, reason, reason, keep_alive, runtime))
}

/// Starts the search for the file that answers a request.
pub fn serve_static(
    request: &Request,
    spa_fallback: bool,
    runtime: &RuntimeConfig,
    keep_alive: bool,
    style: PathStyle,
) -> (r: LookStep)
    ensures
        r@ == first_step(request@, spa_fallback, *runtime, keep_alive, style),
{
    let head_only = text::same(request.method.as_str(), "HEAD");
    if !text::same(request.method.as_str(), "GET") && !head_only {
        return LookStep::Respond(refuse(405, "Method Not Allowed", keep_alive, runtime));
    }
    match path::clean_request_path(request.target.as_str(), style) {
        None => LookStep::Respond(refuse(400, "Bad Request", false, runtime)),
        Some(path) => LookStep::Look(
            Lookup {
                path,
                stage: Stage::Target,
                wish: Wish { head_only, keep_alive, spa_fallback, runtime: *runtime, style },
            },
        ),
    }
}

impl Lookup {
    /// Takes what was found at the path.
    pub fn looked(self, found: Found) -> (r: LookStep)
        ensures
            r@ == self@.next(found),
    {
        match found {
            Found::File(len) => LookStep::Check(
                Candidate { path: self.path, len, wish: self.wish },
            ),
            Found::Directory if self.stage == Stage::Target => {
                let mut index = self.path;
                path::push_step(&mut index, "index.html", self.wish.style);
                LookStep::Look(Lookup { path: index, stage: Stage::Index, wish: self.wish })
            },
            _ => {
                if self.stage != Stage::Fallback && self.wish.spa_fallback {
                    LookStep::Look(
                        Lookup {
                            path: "index.html".to_owned(),
                            stage: Stage::Fallback,
                            wish: self.wish,
                        },
                    )
                } else {
                    LookStep::Respond(
                        refuse(404, "Not Found", self.wish.keep_alive, &self.wish.runtime),
                    )
                }
            },
        }
    }
}

impl Candidate {
    fn head(&self, len: usize) -> (r: Vec<u8>)
        ensures
            r@ == file_head(self.path@, len, self.wish),
    {
        response::build_head_response(
            200,
            "OK",
            path::content_type(path::without_drive(self.path.as_str(), self.wish.style).as_str()),
            len,
            self.wish.keep_alive,
            &self.wish.runtime,
        )
    }

    /// Takes whether the file lies inside the root.
    pub fn checked(self, inside: bool) -> (r: FileStep)
        ensures
            r@ == self@.next(inside),
    {
        if !inside {
            return FileStep::Respond(
                refuse(404, "Not Found", self.wish.keep_alive, &self.wish.runtime),
            );
        }
        if self.wish.head_only {
            return FileStep::Respond(Response::new(self.head(self.len as usize)));
        }
        if self.len <= INLINE_FILE_THRESHOLD {
            return FileStep::Read(self);
        }
        let response = Response::streamed(self.head(self.len as usize));
        FileStep::Stream { path: self.path, response }
    }

    /// Takes all that the file holds.
    pub fn read(self, contents: &[u8]) -> (r: Response)
        ensures
            r@ == self@.with_contents(contents@),
    {
        let mut head = self.head(contents.len());
        crate::bytes::append(&mut head, contents);
        Response::new(head)
    }
}

/// The file that answers for `path`, and its size, where `look` says what stands at
/// each path.
pub open spec fn resolved(
    path: Seq<char>,
    spa_fallback: bool,
    style: PathStyle,
    look: spec_fn(Seq<char>) -> Found,
) -> Option<(Seq<char>, u64)> {
    let fallback = match look("index.html"@) {
        Found::File(len) if spa_fallback => Some(("index.html"@, len)),
        _ => None,
    };
    match look(path) {
        Found::File(len) => Some((path, len)),
        Found::Directory => match look(index_below(path, style)) {
            Found::File(len) => Some((index_below(path, style), len)),
            _ => fallback,
        },
        Found::Other => fallback,
    }
}

/// A file system: what stands at each path, which paths lie inside the root with links
/// resolved, and what each file holds.
pub struct Files {
    pub look: spec_fn(Seq<char>) -> Found,
    pub inside: spec_fn(Seq<char>) -> bool,
    pub contents: spec_fn(Seq<char>) -> Seq<u8>,
}

/// What a client gets: a response, and the file that follows it.
#[verifier::ext_equal]
pub struct Answer {
    pub response: ResponseView,
    pub file: Option<Seq<char>>,
}

/// An answer without a file behind it.
pub open spec fn just(response: ResponseView) -> Answer {
    Answer { response, file: None }
}

/// The answer where `found` is the file that answers, and its size, if there is one.
pub open spec fn answer_with(found: Option<(Seq<char>, u64)>, wish: Wish, files: Files) -> Answer {
    match found {
        None => just(not_found(wish)),
        Some((path, len)) => if !(files.inside)(path) {
            just(not_found(wish))
        } else if wish.head_only {
            just(
                ResponseView {
                    head: file_head(path, len as usize, wish),
                    body: ResponseBody::Empty,
                    close: false,
                },
            )
        } else if len <= INLINE_FILE_THRESHOLD {
            let contents = (files.contents)(path);
            just(
                ResponseView {
                    head: file_head(path, contents.len() as usize, wish) + contents,
                    body: ResponseBody::Empty,
                    close: false,
                },
            )
        } else {
            Answer {
                response: ResponseView {
                    head: file_head(path, len as usize, wish),
                    body: ResponseBody::File,
                    close: false,
                },
                file: Some(path),
            }
        },
    }
}

/// The answer to a request for a file.
pub open spec fn answer(
    request: RequestView,
    spa_fallback: bool,
    runtime: RuntimeConfig,
    keep_alive: bool,
    style: PathStyle,
    files: Files,
) -> Answer {
    let wish = Wish { head_only: request.method == "HEAD"@, keep_alive, spa_fallback, runtime, style };
    if request.method != "GET"@ && request.method != "HEAD"@ {
        just(refusal(405, "Method Not Allowed"@, keep_alive, runtime))
    } else if path::clean_path(request.target, style) is None {
        just(refusal(400, "Bad Request"@, false, runtime))
    } else {
        answer_with(
            resolved(path::clean_path(request.target, style)->0, spa_fallback, style, files.look),
            wish,
            files,
        )
    }
}

/// How many more paths a search may look at.
pub open spec fn looks_left(step: LookStepView) -> nat {
    match step {
        LookStepView::Look(lookup) => match lookup.stage {
            Stage::Target => 3,
            Stage::Index => 2,
            Stage::Fallback => 1,
        },
        _ => 0,
    }
}

/// What comes of a step where the file system is `files`.
pub open spec fn outcome(step: LookStepView, files: Files) -> Answer
    decreases looks_left(step),
{
    match step {
        LookStepView::Look(lookup) => outcome(lookup.next((files.look)(lookup.path)), files),
        LookStepView::Respond(response) => just(response),
        LookStepView::Check(candidate) => match candidate.next((files.inside)(candidate.path)) {
            FileStepView::Respond(response) => just(response),
            FileStepView::Read(candidate) => just(
                candidate.with_contents((files.contents)(candidate.path)),
            ),
            FileStepView::Stream { path, response } => Answer { response, file: Some(path) },
        },
    }
}

/// The last look of a search.
proof fn lemma_fallback_outcome(wish: Wish, files: Files)
    ensures
        outcome(
            LookStepView::Look(
                LookupView { path: "index.html"@, stage: Stage::Fallback, wish },
            ),
            files,
        ) == answer_with(
            match (files.look)("index.html"@) {
                Found::File(len) => Some(("index.html"@, len)),
                _ => None,
            },
            wish,
            files,
        ),
{
    reveal_with_fuel(outcome, 2);
}

/// The look at the index of a directory, and what follows.
proof fn lemma_index_outcome(path: Seq<char>, wish: Wish, files: Files)
    requires
        (files.look)(path) == Found::Directory,
    ensures
        outcome(
            LookStepView::Look(
                LookupView { path: index_below(path, wish.style), stage: Stage::Index, wish },
            ),
            files,
        ) == answer_with(resolved(path, wish.spa_fallback, wish.style, files.look), wish, files),
{
    reveal_with_fuel(outcome, 2);
    lemma_fallback_outcome(wish, files);
}

/// Step by step, a request for a file gets the answer that the file system has for it,
/// after at most three looks.
pub proof fn law_steps_reach_the_answer(
    request: RequestView,
    spa_fallback: bool,
    runtime: RuntimeConfig,
    keep_alive: bool,
    style: PathStyle,
    files: Files,
)
    ensures
        outcome(first_step(request, spa_fallback, runtime, keep_alive, style), files) == answer(
            request,
            spa_fallback,
            runtime,
            keep_alive,
            style,
            files,
        ),
        looks_left(first_step(request, spa_fallback, runtime, keep_alive, style)) <= 3,
        forall|lookup: LookupView, found: Found|
            looks_left(#[trigger] lookup.next(found)) < looks_left(LookStepView::Look(lookup)),
{
    let first = first_step(request, spa_fallback, runtime, keep_alive, style);
    if let LookStepView::Look(lookup) = first {
        lemma_fallback_outcome(lookup.wish, files);
        if (files.look)(lookup.path) == Found::Directory {
            lemma_index_outcome(lookup.path, lookup.wish, files);
        }
        reveal_with_fuel(outcome, 2);
    }
}

/// A route that is not there gets what `index.html` of the root gets, where the
/// fallback is on.
pub proof fn law_unknown_route_gets_index(
    request: RequestView,
    index_request: RequestView,
    runtime: RuntimeConfig,
    keep_alive: bool,
    style: PathStyle,
    files: Files,
)
    requires
        path::clean_path(request.target, style) is Some,
        (files.look)(path::clean_path(request.target, style)->0) == Found::Other,
        path::clean_path(index_request.target, style) == Some("index.html"@),
        request.method == index_request.method,
        (files.look)("index.html"@) is File,
    ensures
        answer(request, true, runtime, keep_alive, style, files) == answer(
            index_request,
            true,
            runtime,
            keep_alive,
            style,
            files,
        ),
{
}

/// Without the fallback a route that is not there is not found.
pub proof fn law_no_fallback(
    request: RequestView,
    runtime: RuntimeConfig,
    keep_alive: bool,
    style: PathStyle,
    files: Files,
)
    requires
        request.method == "GET"@ || request.method == "HEAD"@,
        path::clean_path(request.target, style) is Some,
        (files.look)(path::clean_path(request.target, style)->0) == Found::Other,
    ensures
        answer(request, false, runtime, keep_alive, style, files) == just(
            refusal(404, "Not Found"@, keep_alive, runtime),
        ),
{
}

/// Nothing of a file outside the root reaches a client: what such files hold makes no
/// difference to any answer, and none of them is sent.
pub proof fn law_only_files_inside(
    request: RequestView,
    spa_fallback: bool,
    runtime: RuntimeConfig,
    keep_alive: bool,
    style: PathStyle,
    files: Files,
    others: Files,
)
    requires
        files.look == others.look,
        files.inside == others.inside,
        forall|path: Seq<char>| #[trigger]
            (files.inside)(path) ==> (files.contents)(path) == (others.contents)(path),
    ensures
        answer(request, spa_fallback, runtime, keep_alive, style, files) == answer(
            request,
            spa_fallback,
            runtime,
            keep_alive,
            style,
            others,
        ),
        answer(request, spa_fallback, runtime, keep_alive, style, files).file matches Some(path)
            ==> (files.inside)(path),
{
}

/// Whether a file answers `request`.
pub open spec fn is_served(
    request: RequestView,
    spa_fallback: bool,
    style: PathStyle,
    files: Files,
) -> bool {
    &&& request.method == "GET"@ || request.method == "HEAD"@
    &&& path::clean_path(request.target, style) matches Some(clean)
    &&& resolved(clean, spa_fallback, style, files.look) matches Some((path, _))
    &&& (files.inside)(path)
}

/// A `HEAD` request gets what a `GET` request gets, as long as the files that are sent
/// together with their heads are as large as they are said to be: where a file answers, its
/// head up to and with the empty line, and none of the file; elsewhere, the same answer.
pub proof fn law_head_like_get(
    get: RequestView,
    head: RequestView,
    spa_fallback: bool,
    runtime: RuntimeConfig,
    keep_alive: bool,
    style: PathStyle,
    files: Files,
)
    requires
        get.method == "GET"@,
        head.method == "HEAD"@,
        get.target == head.target,
        forall|path: Seq<char>|
            (#[trigger] (files.look)(path) matches Found::File(len) ==> len
                <= INLINE_FILE_THRESHOLD ==> (files.contents)(path).len() == len),
    ensures
        ({
            let whole = answer(get, spa_fallback, runtime, keep_alive, style, files);
            let only = answer(head, spa_fallback, runtime, keep_alive, style, files);
            if is_served(get, spa_fallback, style, files) {
                &&& bytes::head_end(whole.response.head) matches Some(end)
                &&& only.response.head == whole.response.head.take(end as int + 4)
                &&& only.response.body == ResponseBody::Empty
                &&& only.file is None
            } else {
                only == whole
            }
        }),
{
    reveal_strlit("GET");
    reveal_strlit("HEAD");
    let whole = answer(get, spa_fallback, runtime, keep_alive, style, files);
    let only = answer(head, spa_fallback, runtime, keep_alive, style, files);
    if is_served(get, spa_fallback, style, files) {
        let clean = path::clean_path(get.target, style)->0;
        let (path, len) = resolved(clean, spa_fallback, style, files.look)->0;
        assert((files.look)(path) == Found::File(len));
        let wish = Wish { head_only: false, keep_alive, spa_fallback, runtime, style };
        let head_wish = Wish { head_only: true, ..wish };
        assert(file_head(path, len as usize, wish) == file_head(path, len as usize, head_wish));
        let body = if len <= INLINE_FILE_THRESHOLD {
            (files.contents)(path)
        } else {
            Seq::empty()
        };
        assert(get.method.len() == 3 && head.method.len() == 4);
        assert(whole == answer_with(Some((path, len)), wish, files));
        if len <= INLINE_FILE_THRESHOLD {
            assert(body.len() == len);
            assert(file_head(path, body.len() as usize, wish) == file_head(
                path,
                len as usize,
                wish,
            ));
        } else {
            assert(file_head(path, len as usize, wish) + body =~= file_head(
                path,
                len as usize,
                wish,
            ));
        }
        assert(whole.response.head == file_head(path, len as usize, wish) + body);
        lemma_file_head_ends(path, len as usize, wish, body);
    } else if let Some(clean) = path::clean_path(get.target, style) {
        assert(resolved(clean, spa_fallback, style, files.look) matches Some((path, _))
            ==> !(files.inside)(path));
    }
}

/// The head of a response with a file ends in its only empty line.
proof fn lemma_file_head_ends(path: Seq<char>, len: usize, wish: Wish, body: Seq<u8>)
    ensures
        ({
            let whole = file_head(path, len, wish) + body;
            &&& bytes::head_end(whole) matches Some(end)
            &&& whole.take(end as int + 4) == file_head(path, len, wish)
        }),
{
    let head = file_head(path, len, wish);
    let kind = content_type(path, wish.style);
    let some = Seq::new(len as nat, |i: int| 0u8);
    let message = head + some;
    lemma_content_type(path::extension(wish.style.below_drive(path)));
    assert(message::one_line("OK"@)) by {
        reveal_strlit("OK");
    }
    message::law_response_reads_back(200, "OK"@, kind, some, wish.keep_alive, wish.runtime);
    let end = bytes::head_end(message)->0 as int;
    bytes::lemma_head_end(message, 0);
    assert(message.skip(end + 4).len() == message.len() - end - 4);
    assert(head.len() == end + 4);
    let whole = head + body;
    assert(bytes::blank_line_at(whole, end)) by {
        assert(bytes::blank_line_at(message, end));
    }
    assert forall|i: int| 0 <= i < end implies !bytes::blank_line_at(whole, i) by {
        assert(!bytes::blank_line_at(message, i));
    }
    bytes::lemma_head_end(whole, 0);
    assert(bytes::head_end(whole) == Some(end as nat));
    assert(whole.take(end + 4) =~= head);
}

/// Whether `s` is not empty, starts and ends with no blank and holds no carriage return.
spec fn is_plain_type(s: Seq<char>) -> bool {
    &&& s.len() > 0
    &&& !text::is_space(s[0])
    &&& !text::is_space(s.last())
    &&& forall|i: int| 0 <= i < s.len() ==> s[i] != '\r'
}

/// Content types can stand in a header.
proof fn lemma_content_type(ext: Seq<char>)
    ensures
        message::one_line(path::content_type_of(ext)),
        text::trim(path::content_type_of(ext)) == path::content_type_of(ext),
{
    assert(is_plain_type("text/html; charset=utf-8"@)) by {
        reveal_strlit("text/html; charset=utf-8");
    }
    assert(is_plain_type("text/css; charset=utf-8"@)) by {
        reveal_strlit("text/css; charset=utf-8");
    }
    assert(is_plain_type("text/javascript; charset=utf-8"@)) by {
        reveal_strlit("text/javascript; charset=utf-8");
    }
    assert(is_plain_type("application/json; charset=utf-8"@)) by {
        reveal_strlit("application/json; charset=utf-8");
    }
    assert(is_plain_type("image/svg+xml"@)) by {
        reveal_strlit("image/svg+xml");
    }
    assert(is_plain_type("image/png"@)) by {
        reveal_strlit("image/png");
    }
    assert(is_plain_type("image/jpeg"@)) by {
        reveal_strlit("image/jpeg");
    }
    assert(is_plain_type("image/gif"@)) by {
        reveal_strlit("image/gif");
    }
    assert(is_plain_type("image/webp"@)) by {
        reveal_strlit("image/webp");
    }
    assert(is_plain_type("image/x-icon"@)) by {
        reveal_strlit("image/x-icon");
    }
    assert(is_plain_type("application/wasm"@)) by {
        reveal_strlit("application/wasm");
    }
    assert(is_plain_type("text/plain; charset=utf-8"@)) by {
        reveal_strlit("text/plain; charset=utf-8");
    }
    assert(is_plain_type("application/pdf"@)) by {
        reveal_strlit("application/pdf");
    }
    assert(is_plain_type("font/woff"@)) by {
        reveal_strlit("font/woff");
    }
    assert(is_plain_type("font/woff2"@)) by {
        reveal_strlit("font/woff2");
    }
    assert(is_plain_type("font/ttf"@)) by {
        reveal_strlit("font/ttf");
    }
    assert(is_plain_type("font/otf"@)) by {
        reveal_strlit("font/otf");
    }
    assert(is_plain_type("video/mp4"@)) by {
        reveal_strlit("video/mp4");
    }
    assert(is_plain_type("video/webm"@)) by {
        reveal_strlit("video/webm");
    }
    assert(is_plain_type("audio/mpeg"@)) by {
        reveal_strlit("audio/mpeg");
    }
    assert(is_plain_type("audio/wav"@)) by {
        reveal_strlit("audio/wav");
    }
    assert(is_plain_type("application/octet-stream"@)) by {
        reveal_strlit("application/octet-stream");
    }
    let kind = path::content_type_of(ext);
    assert(is_plain_type(kind));
}

/// No answer is empty.
pub proof fn law_answers_are_not_empty(
    request: RequestView,
    spa_fallback: bool,
    runtime: RuntimeConfig,
    keep_alive: bool,
    style: PathStyle,
    files: Files,
)
    ensures
        answer(request, spa_fallback, runtime, keep_alive, style, files).response.head.len() > 0,
{
    lemma_refusal_not_empty(405, "Method Not Allowed"@, keep_alive, runtime);
    lemma_refusal_not_empty(400, "Bad Request"@, false, runtime);
    lemma_refusal_not_empty(404, "Not Found"@, keep_alive, runtime);
    let wish = Wish { head_only: request.method == "HEAD"@, keep_alive, spa_fallback, runtime, style };
    if let Some(clean) = path::clean_path(request.target, style) {
        if let Some((path, len)) = resolved(clean, spa_fallback, style, files.look) {
            lemma_file_head_not_empty(path, len as usize, wish);
            lemma_file_head_not_empty(path, (files.contents)(path).len() as usize, wish);
        }
    }
}

proof fn lemma_refusal_not_empty(
    status: u16,
    reason: Seq<char>,
    keep_alive: bool,
    runtime: RuntimeConfig,
)
    ensures
        refusal(status, reason, keep_alive, runtime).head.len() > 0,
{
    response::lemma_head_not_empty(
        status,
        reason,
        "text/plain"@,
        encode_utf8(reason).len(),
        keep_alive,
        runtime,
    );
}

proof fn lemma_file_head_not_empty(path: Seq<char>, len: usize, wish: Wish)
    ensures
        file_head(path, len, wish).len() > 0,
{
    response::lemma_head_not_empty(
        200,
        "OK"@,
        content_type(path, wish.style),
        len as nat,
        wish.keep_alive,
        wish.runtime,
    );
}

} // verus!
