//! The static file handler: from a request path to a file below the root, and
//! from what was found there to a response.
//!
//! The handler touches no file. It names the file that a request asks for, the
//! caller looks for it, and the handler turns what the caller found into the
//! response.

use crate::req::Request;
use crate::resp::{consistent, file_response, fixed_content, Response, ResponseView, Status};
use crate::text::{
    chars_of, dot, dot_dot, find_char, lemma_span_bounds, lemma_span_is, other_than, span, spells,
    string_of,
};
use vstd::prelude::*;
use vstd::string::StringExecFns;
use vstd::utf8::encode_utf8;

verus! {

/// The page that is served where no file is.
pub const NOT_FOUND_PAGE: &'static str =
    "<!DOCTYPE html>\n<html>\n<head><title>404 Not Found</title></head>\n<body>\n<h1>404 Not Found</h1>\n<p>The requested resource was not found on this server.</p>\n</body>\n</html>\n";

/// The pieces of `path` between its slashes.
pub open spec fn segments(path: Seq<char>) -> Seq<Seq<char>>
    decreases path.len(),
{
    let n: nat = span(path, other_than('/'));
    if n < path.len() {
        seq![path.take(n as int)] + segments(path.skip(n as int + 1))
    } else {
        seq![path]
    }
}

/// Follows `segs` from the directory that `stack` leads to, below the root.
/// Empty segments and `.` stay; `..` goes up one directory, and fails at the
/// root; every other segment goes down.
pub open spec fn walk(segs: Seq<Seq<char>>, stack: Seq<Seq<char>>) -> Option<Seq<Seq<char>>>
    decreases segs.len(),
{
    if segs.len() == 0 {
        Some(stack)
    } else {
        let s: Seq<char> = segs[0];
        let rest: Seq<Seq<char>> = segs.drop_first();
        if s.len() == 0 || s == dot() {
            walk(rest, stack)
        } else if s == dot_dot() {
            if stack.len() == 0 {
                None
            } else {
                walk(rest, stack.drop_last())
            }
        } else {
            walk(rest, stack.push(s))
        }
    }
}

/// `base`, and behind it each of `segs` with a slash before it.
pub open spec fn join(base: Seq<char>, segs: Seq<Seq<char>>) -> Seq<char>
    decreases segs.len(),
{
    if segs.len() == 0 {
        base
    } else {
        join(base, segs.drop_last()) + seq!['/'] + segs.last()
    }
}

/// The directory that `root` names: the working directory where it is empty.
pub open spec fn base(root: Seq<char>) -> Seq<char> {
    if root.len() == 0 {
        dot()
    } else {
        root
    }
}

/// Whether `path` ends in an entry name: its last segment is neither empty,
/// nor `.`, nor `..`. A path that ends otherwise, in a slash or in a step,
/// names a directory if it names anything, and so no file.
pub open spec fn ends_in_name(path: Seq<char>) -> bool {
    let last: Seq<char> = segments(path).last();
    last.len() > 0 && last != dot() && last != dot_dot()
}

/// The file below `root` that the request path `path` asks for. There is none
/// where the path does not end in an entry name, and none where it steps
/// above the root.
pub open spec fn resolve(root: Seq<char>, path: Seq<char>) -> Option<Seq<char>> {
    if !ends_in_name(path) {
        None
    } else {
        match walk(segments(path), Seq::empty()) {
            None => None,
            Some(stack) => if stack.len() == 0 {
                None
            } else {
                Some(join(base(root), stack))
            },
        }
    }
}

/// A segment that names an entry of a directory.
pub open spec fn plain(seg: Seq<char>) -> bool {
    &&& seg.len() > 0
    &&& seg != dot()
    &&& seg != dot_dot()
    &&& !seg.contains('/')
}

/// `target` is `root` followed downwards: one or more entry names behind it,
/// and no step up.
pub open spec fn below(root: Seq<char>, target: Seq<char>) -> bool {
    exists|segs: Seq<Seq<char>>|
        {
            &&& segs.len() > 0
            &&& forall|i: int| 0 <= i < segs.len() ==> plain(#[trigger] segs[i])
            &&& target == join(base(root), segs)
        }
}

/// Whether following `segs` from `depth` directories below the root steps
/// above the root at some point.
pub open spec fn climbs_out(segs: Seq<Seq<char>>, depth: nat) -> bool
    decreases segs.len(),
{
    if segs.len() == 0 {
        false
    } else {
        let s: Seq<char> = segs[0];
        let rest: Seq<Seq<char>> = segs.drop_first();
        if s.len() == 0 || s == dot() {
            climbs_out(rest, depth)
        } else if s == dot_dot() {
            depth == 0 || climbs_out(rest, (depth - 1) as nat)
        } else {
            climbs_out(rest, depth + 1)
        }
    }
}

/// Every path has a segment, if only an empty one.
pub proof fn lemma_segments_are_some(path: Seq<char>)
    ensures
        segments(path).len() > 0,
{
}

/// No segment of a path holds a slash.
pub proof fn lemma_segments_hold_no_slash(path: Seq<char>)
    ensures
        forall|i: int|
            0 <= i < segments(path).len() ==> !(#[trigger] segments(path)[i]).contains('/'),
    decreases path.len(),
{
    let n: nat = span(path, other_than('/'));
    lemma_span_bounds(path, other_than('/'));
    if n < path.len() {
        let head: Seq<char> = path.take(n as int);
        let tail: Seq<Seq<char>> = segments(path.skip(n as int + 1));
        lemma_segments_hold_no_slash(path.skip(n as int + 1));
        assert forall|i: int| 0 <= i < segments(path).len() implies !(#[trigger] segments(
            path,
        )[i]).contains('/') by {
            if i == 0 {
                assert(segments(path)[0] == head);
                assert forall|k: int| 0 <= k < head.len() implies head[k] != '/' by {
                    assert(head[k] == path[k]);
                }
            } else {
                assert(segments(path)[i] == tail[i - 1]);
            }
        }
    } else {
        assert(segments(path)[0] == path);
    }
}

/// A walk fails exactly where the path steps above the root, and what it
/// arrives at is made of entry names.
pub proof fn lemma_walk(segs: Seq<Seq<char>>, stack: Seq<Seq<char>>)
    requires
        forall|i: int| 0 <= i < segs.len() ==> !(#[trigger] segs[i]).contains('/'),
        forall|i: int| 0 <= i < stack.len() ==> plain(#[trigger] stack[i]),
    ensures
        walk(segs, stack) is None <==> climbs_out(segs, stack.len()),
        walk(segs, stack) matches Some(to) ==> forall|i: int|
            0 <= i < to.len() ==> plain(#[trigger] to[i]),
    decreases segs.len(),
{
    if segs.len() > 0 {
        let s: Seq<char> = segs[0];
        let rest: Seq<Seq<char>> = segs.drop_first();
        assert forall|i: int| 0 <= i < rest.len() implies !(#[trigger] rest[i]).contains('/') by {
            assert(rest[i] == segs[i + 1]);
        }
        if s.len() == 0 || s == dot() {
            lemma_walk(rest, stack);
        } else if s == dot_dot() {
            if stack.len() > 0 {
                let up: Seq<Seq<char>> = stack.drop_last();
                assert forall|i: int| 0 <= i < up.len() implies plain(#[trigger] up[i]) by {
                    assert(up[i] == stack[i]);
                }
                lemma_walk(rest, up);
            }
        } else {
            let down: Seq<Seq<char>> = stack.push(s);
            assert forall|i: int| 0 <= i < down.len() implies plain(#[trigger] down[i]) by {
                if i < stack.len() {
                    assert(down[i] == stack[i]);
                } else {
                    assert(down[i] == s);
                }
            }
            lemma_walk(rest, down);
        }
    }
}

/// A request path never leads out of the root: a path that steps above the
/// root resolves to no file, and every file that a path resolves to lies below
/// the root.
pub proof fn lemma_resolve_stays_below(root: Seq<char>, path: Seq<char>)
    ensures
        climbs_out(segments(path), 0) ==> resolve(root, path) is None,
        resolve(root, path) matches Some(target) ==> below(root, target),
{
    lemma_segments_hold_no_slash(path);
    lemma_walk(segments(path), Seq::empty());
    if let Some(target) = resolve(root, path) {
        let stack: Seq<Seq<char>> = walk(segments(path), Seq::empty())->0;
        assert(stack.len() > 0);
        assert(target == join(base(root), stack));
    }
}

/// A path with one more segment behind a slash has that segment as its
/// last.
pub proof fn lemma_segments_push(path: Seq<char>, seg: Seq<char>)
    requires
        !seg.contains('/'),
    ensures
        segments(path + seq!['/'] + seg) == segments(path).push(seg),
    decreases path.len(),
{
    let whole: Seq<char> = path + seq!['/'] + seg;
    let n: nat = span(path, other_than('/'));
    lemma_span_bounds(path, other_than('/'));
    assert forall|i: int| 0 <= i < n implies other_than('/')(#[trigger] whole[i]) by {
        assert(whole[i] == path[i]);
    }
    assert(whole[n as int] == '/') by {
        if n < path.len() {
            assert(whole[n as int] == path[n as int]);
        }
    }
    lemma_span_is(whole, other_than('/'), n as int);
    assert(whole.take(n as int) == path.take(n as int));
    if n < path.len() {
        let tail: Seq<char> = path.skip(n as int + 1);
        assert(whole.skip(n as int + 1) == tail + seq!['/'] + seg);
        lemma_segments_push(tail, seg);
        assert(segments(whole) == seq![path.take(n as int)] + segments(tail).push(seg));
        assert(segments(whole) == segments(path).push(seg));
    } else {
        assert(path.take(n as int) == path);
        assert(whole.skip(n as int + 1) == seg);
        assert forall|i: int| 0 <= i < seg.len() implies other_than('/')(#[trigger] seg[i]) by {
            if seg[i] == '/' {
                assert(seg.contains('/'));
            }
        }
        lemma_span_is(seg, other_than('/'), seg.len() as int);
        assert(segments(seg) == seq![seg]);
        assert(segments(whole) == seq![path] + seq![seg]);
        assert(segments(whole) == segments(path).push(seg));
    }
}

/// Entry names, each behind a slash, are the segments of the path they make,
/// behind the empty segment before the first slash.
pub proof fn lemma_segments_of_join(segs: Seq<Seq<char>>)
    requires
        forall|i: int| 0 <= i < segs.len() ==> plain(#[trigger] segs[i]),
    ensures
        segments(join(Seq::empty(), segs)) == seq![Seq::<char>::empty()] + segs,
    decreases segs.len(),
{
    if segs.len() == 0 {
        lemma_span_is(Seq::<char>::empty(), other_than('/'), 0);
        assert(seq![Seq::<char>::empty()] + segs == seq![Seq::<char>::empty()]);
    } else {
        let front: Seq<Seq<char>> = segs.drop_last();
        assert forall|i: int| 0 <= i < front.len() implies plain(#[trigger] front[i]) by {
            assert(front[i] == segs[i]);
        }
        lemma_segments_of_join(front);
        assert(plain(segs.last()));
        lemma_segments_push(join(Seq::empty(), front), segs.last());
        assert((seq![Seq::<char>::empty()] + front).push(segs.last()) == seq![
            Seq::<char>::empty(),
        ] + segs);
    }
}

/// Following entry names goes down by each of them.
pub proof fn lemma_walk_down(segs: Seq<Seq<char>>, stack: Seq<Seq<char>>)
    requires
        forall|i: int| 0 <= i < segs.len() ==> plain(#[trigger] segs[i]),
    ensures
        walk(segs, stack) == Some(stack + segs),
    decreases segs.len(),
{
    if segs.len() == 0 {
        assert(stack + segs == stack);
    } else {
        let rest: Seq<Seq<char>> = segs.drop_first();
        assert(plain(segs[0]));
        assert forall|i: int| 0 <= i < rest.len() implies plain(#[trigger] rest[i]) by {
            assert(rest[i] == segs[i + 1]);
        }
        lemma_walk_down(rest, stack.push(segs[0]));
        assert(stack.push(segs[0]) + rest == stack + segs);
    }
}

/// A file below the root is served at the path that leads to it from the
/// root: the request path made of its entry names, a slash before each,
/// resolves to the root followed by those names.
pub proof fn lemma_resolve_finds_files_below(root: Seq<char>, segs: Seq<Seq<char>>)
    requires
        segs.len() > 0,
        forall|i: int| 0 <= i < segs.len() ==> plain(#[trigger] segs[i]),
    ensures
        resolve(root, join(Seq::empty(), segs)) == Some(join(base(root), segs)),
{
    let all: Seq<Seq<char>> = seq![Seq::<char>::empty()] + segs;
    lemma_segments_of_join(segs);
    assert(all.last() == segs.last());
    assert(plain(segs.last()));
    assert(all[0] == Seq::<char>::empty());
    assert(all.drop_first() == segs);
    lemma_walk_down(segs, Seq::empty());
    assert(Seq::<Seq<char>>::empty() + segs == segs);
}

/// What the caller found at the file that a request asks for.
#[derive(Debug, Copy, Clone, PartialEq, Eq, Hash, Structural)]
pub enum FileLookup {
    /// Nothing there, or no regular file.
    NotFile,
    /// A regular file that could not be opened.
    OpenFailed,
    /// A regular file, opened, `len` bytes long.
    Opened { len: u64 },
}

/// Why a request got no response.
#[derive(Debug, Copy, Clone, PartialEq, Eq, Hash, Structural)]
pub enum HandleError {
    /// The file is there and could not be opened.
    FileOpen,
}

/// The response where no file is: the page `NOT_FOUND_PAGE`, as `text/html`.
pub open spec fn not_found() -> ResponseView {
    fixed_content(Status::NotFound, encode_utf8(NOT_FOUND_PAGE@), "text/html"@)
}

/// The response to a request for `path`, given what was found at the file it
/// asks for. A path that resolves to no file is answered as not found,
/// whatever was found.
pub open spec fn respond(root: Seq<char>, path: Seq<char>, found: FileLookup) -> Result<
    ResponseView,
    HandleError,
> {
    match resolve(root, path) {
        None => Ok(not_found()),
        Some(target) => match found {
            FileLookup::NotFile => Ok(not_found()),
            FileLookup::OpenFailed => Err(HandleError::FileOpen),
            FileLookup::Opened { len } => Ok(file_response(target, len)),
        },
    }
}

/// The model of what `resolve` returns.
pub open spec fn target_view(r: Option<String>) -> Option<Seq<char>> {
    match r {
        Some(t) => Some(t@),
        None => None,
    }
}

/// The model of what `handle` returns.
pub open spec fn response_view(r: Result<Response, HandleError>) -> Result<
    ResponseView,
    HandleError,
> {
    match r {
        Ok(resp) => Ok(resp@),
        Err(e) => Err(e),
    }
}

/// Serves the files below a root directory.
#[derive(Debug, Clone)]
pub struct StaticFileHandler {
    root: String,
}

impl View for StaticFileHandler {
    type V = Seq<char>;

    closed spec fn view(&self) -> Seq<char> {
        self.root@
    }
}

spec fn stack_view(stack: Seq<String>) -> Seq<Seq<char>> {
    Seq::new(stack.len(), |i: int| stack[i]@)
}

impl StaticFileHandler {
    /// The handler that serves the files below `root`.
    pub fn with_root(root: String) -> (h: StaticFileHandler)
        ensures
            h@ == root@,
    {
        StaticFileHandler { root }
    }

    /// The root directory.
    pub fn root(&self) -> (r: &String)
        ensures
            r@ == self@,
    {
        &self.root
    }

    /// The file that the request path `path` asks for, if it asks for one
    /// below the root.
    pub fn resolve(&self, path: &str) -> (r: Option<String>)
        ensures
            target_view(r) == resolve(self@, path@),
    {
        let chars = chars_of(path);
        let s: &[char] = chars.as_slice();
        let mut stack: Vec<String> = Vec::new();
        let mut pos: usize = 0;
        let mut named: bool = false;
        proof {
            assert(s@.skip(0) == s@);
            assert(stack_view(stack@) == Seq::<Seq<char>>::empty());
            reveal_strlit(".");
            reveal_strlit("..");
            assert("."@ =~= dot());
            assert(".."@ =~= dot_dot());
        }
        loop
            invariant_except_break
                pos <= s.len(),
                walk(segments(path@), Seq::empty()) == walk(
                    segments(s@.skip(pos as int)),
                    stack_view(stack@),
                ),
                segments(path@).last() == segments(s@.skip(pos as int)).last(),
            invariant
                s@ == path@,
                "."@ == dot(),
                ".."@ == dot_dot(),
            ensures
                walk(segments(path@), Seq::empty()) == Some(stack_view(stack@)),
                named == ends_in_name(path@),
            decreases s.len() - pos,
        {
            let end: usize = find_char(s, pos, '/');
            let seg: &[char] = &s[pos..end];
            let ghost rest: Seq<char> = s@.skip(pos as int);
            let ghost before: Seq<Seq<char>> = stack_view(stack@);
            let ghost tail: Seq<Seq<char>> = if end < s.len() {
                segments(s@.skip(end as int + 1))
            } else {
                Seq::empty()
            };
            proof {
                assert(seg@ == rest.take(end - pos));
                if end < s.len() {
                    assert(rest.skip(end - pos + 1) == s@.skip(end as int + 1));
                    assert(segments(rest) == seq![seg@] + tail);
                } else {
                    assert(seg@ == rest);
                    assert(segments(rest) == seq![seg@] + tail);
                }
                assert(segments(rest)[0] == seg@);
                assert(segments(rest).drop_first() == tail);
                if end < s.len() {
                    lemma_segments_are_some(s@.skip(end as int + 1));
                    assert(segments(rest).last() == tail.last());
                } else {
                    assert(segments(rest).last() == seg@);
                }
            }
            named = false;
            if seg.len() == 0 || spells(seg, ".") {
            } else if spells(seg, "..") {
                if stack.len() == 0 {
                    return None;
                }
                stack.pop();
                assert(stack_view(stack@) == before.drop_last());
            } else {
                stack.push(string_of(seg));
                named = true;
                assert(stack_view(stack@) == before.push(seg@));
            }
            assert(walk(segments(rest), before) == walk(tail, stack_view(stack@)));
            if end >= s.len() {
                break;
            }
            pos = end + 1;
        }
        if !named || stack.len() == 0 {
            return None;
        }
        let mut out: String = if self.root.as_str().is_empty() {
            ".".to_owned()
        } else {
            self.root.clone()
        };
        let mut i: usize = 0;
        while i < stack.len()
            invariant
                i <= stack.len(),
                out@ == join(base(self@), stack_view(stack@).take(i as int)),
            decreases stack.len() - i,
        {
            let ghost prefix: Seq<Seq<char>> = stack_view(stack@).take(i as int);
            out.push('/');
            out.append(stack[i].as_str());
            proof {
                let next: Seq<Seq<char>> = stack_view(stack@).take(i + 1);
                assert(next.drop_last() == prefix);
                assert(next.last() == stack@[i as int]@);
            }
            i += 1;
        }
        assert(stack_view(stack@).take(i as int) == stack_view(stack@));
        Some(out)
    }

    /// The response to `request`, given what the caller found at the file
    /// that `resolve` names for its path.
    pub fn handle(&self, request: Request, found: FileLookup) -> (r: Result<Response, HandleError>)
        ensures
            response_view(r) == respond(self@, request@.path, found),
            r matches Ok(response) ==> consistent(response@),
    {
        match self.resolve(request.path.as_str()) {
            None => Ok(not_found_response()),
            Some(target) => match found {
                FileLookup::NotFile => Ok(not_found_response()),
                FileLookup::OpenFailed => Err(HandleError::FileOpen),
                FileLookup::Opened { len } => Ok(Response::from_file(target.as_str(), len)),
            },
        }
    }
}

/// The response where no file is.
pub fn not_found_response() -> (r: Response)
    ensures
        r@ == not_found(),
        consistent(r@),
{
    Response::from_html(Status::NotFound, NOT_FOUND_PAGE)
}

} // verus!
