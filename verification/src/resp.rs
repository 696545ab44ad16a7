//! Responses and their serialisation.
//!
//! A response goes out as a status line, one line per header field, a blank
//! line, and the body bytes as they are. A body is held in memory, or it is a
//! file that the caller streams behind the head.

use crate::headers::{
    field_line, field_lines, lemma_field_lines_push, lemma_two_fields, lookup, Headers, Pairs,
};
use crate::text::{
    after_last, chars_of, decimal, dot, dot_dot, other_than, push_decimal, span_back, spells,
    to_decimal,
};
use vstd::prelude::*;
use vstd::string::StrSliceExecFns;
use vstd::string::StringExecFns;
use vstd::utf8::encode_utf8;

verus! {

/// The status of a response.
#[derive(Debug, Copy, Clone, PartialEq, Eq, Hash, Structural)]
pub enum Status {
    NotFound,
    OK,
}

impl Status {
    /// The status code.
    pub open spec fn spec_code(&self) -> u16 {
        match self {
            Status::NotFound => 404,
            Status::OK => 200,
        }
    }

    /// The reason phrase.
    pub open spec fn phrase(self) -> Seq<char> {
        match self {
            Status::NotFound => "Not Found"@,
            Status::OK => "OK"@,
        }
    }

    /// The status as it stands in the status line: the code in decimal, a
    /// space, the reason phrase.
    pub open spec fn text(self) -> Seq<char> {
        decimal(self.spec_code() as nat) + " "@ + self.phrase()
    }

    /// The status code.
    #[verifier::when_used_as_spec(spec_code)]
    pub fn code(&self) -> (c: u16)
        ensures
            c == self.spec_code(),
    {
        match self {
            Status::NotFound => 404,
            Status::OK => 200,
        }
    }

    /// The reason phrase.
    pub fn reason(&self) -> (r: &'static str)
        ensures
            r@ == self.phrase(),
    {
        match self {
            Status::NotFound => "Not Found",
            Status::OK => "OK",
        }
    }

    /// The status code and the reason phrase, as they stand in the status
    /// line.
    pub fn to_string(&self) -> (r: String)
        ensures
            r@ == self.text(),
    {
        let mut r = String::new();
        push_decimal(&mut r, self.code() as u64);
        r.append(" ");
        r.append(self.reason());
        r
    }
}

/// The body of a response.
#[derive(Debug, Clone, PartialEq, Eq)]
pub enum Body {
    /// Bytes held in memory.
    InMemory(Vec<u8>),
    /// The contents of the file at `path`, `len` bytes long, to be read as
    /// they are sent.
    File { path: String, len: u64 },
}

/// The model of a body.
pub enum BodyView {
    InMemory(Seq<u8>),
    File { path: Seq<char>, len: u64 },
}

impl View for Body {
    type V = BodyView;

    open spec fn view(&self) -> BodyView {
        match *self {
            Body::InMemory(bytes) => BodyView::InMemory(bytes@),
            Body::File { path, len } => BodyView::File { path: path@, len },
        }
    }
}

impl BodyView {
    /// The number of bytes of the body.
    pub open spec fn len(self) -> nat {
        match self {
            BodyView::InMemory(bytes) => bytes.len(),
            BodyView::File { path, len } => len as nat,
        }
    }
}

/// A response: status, header fields, body.
#[derive(Debug, Clone, PartialEq, Eq)]
pub struct Response {
    pub status: Status,
    pub headers: Headers,
    pub data: Body,
}

/// The model of a response.
pub struct ResponseView {
    pub status: Status,
    pub headers: Pairs,
    pub data: BodyView,
}

impl View for Response {
    type V = ResponseView;

    open spec fn view(&self) -> ResponseView {
        ResponseView { status: self.status, headers: self.headers@, data: self.data@ }
    }
}

/// The head of a response: status line, header lines, blank line.
pub open spec fn head_text(status: Status, headers: Pairs) -> Seq<char> {
    "HTTP/1.1 "@ + status.text() + "\r\n"@ + field_lines(headers) + "\r\n"@
}

/// The file name of `path`: its last segment that is neither empty nor `.`,
/// so that separators and `.` at the end of a path do not count. There is
/// none where the path has no such segment, and none where that segment is
/// `..`.
pub open spec fn file_name(path: Seq<char>) -> Option<Seq<char>>
    decreases path.len(),
{
    let n: nat = span_back(path, other_than('/'));
    let last: Seq<char> = if n >= path.len() {
        path
    } else {
        path.skip(path.len() - n)
    };
    if last.len() > 0 && last != dot() {
        if last == dot_dot() {
            None
        } else {
            Some(last)
        }
    } else if n >= path.len() {
        None
    } else {
        file_name(path.take(path.len() - n - 1))
    }
}

/// The part of the file name `name` behind its last dot. A name without a
/// dot has none, nor has a name whose only dot is its first character.
pub open spec fn name_extension(name: Seq<char>) -> Option<Seq<char>> {
    let e: nat = span_back(name, other_than('.'));
    if e == name.len() || e + 1 == name.len() {
        None
    } else {
        Some(name.skip(name.len() - e))
    }
}

/// The extension of `path`: that of its file name.
pub open spec fn extension(path: Seq<char>) -> Option<Seq<char>> {
    match file_name(path) {
        None => None,
        Some(name) => name_extension(name),
    }
}

/// The content type served for `path`, by its extension. Extensions are
/// matched as they are written, in lower case.
pub open spec fn mime_of(path: Seq<char>) -> Seq<char> {
    match extension(path) {
        None => "application/octet-stream"@,
        Some(e) => if e == "html"@ {
            "text/html"@
        } else if e == "css"@ {
            "text/css"@
        } else if e == "js"@ {
            "text/javascript"@
        } else if e == "png"@ {
            "image/png"@
        } else if e == "jpg"@ {
            "image/jpeg"@
        } else if e == "gif"@ {
            "image/gif"@
        } else {
            "application/octet-stream"@
        },
    }
}

/// The response that carries `content` as `content_type`.
pub open spec fn fixed_content(
    status: Status,
    content: Seq<u8>,
    content_type: Seq<char>,
) -> ResponseView {
    ResponseView {
        status,
        headers: seq![
            ("Content-Type"@, content_type),
            ("Content-Length"@, decimal(content.len())),
        ],
        data: BodyView::InMemory(content),
    }
}

/// The response that serves the file at `path`, `len` bytes long.
pub open spec fn file_response(path: Seq<char>, len: u64) -> ResponseView {
    ResponseView {
        status: Status::OK,
        headers: seq![("Content-Length"@, decimal(len as nat)), ("Content-Type"@, mime_of(path))],
        data: BodyView::File { path, len },
    }
}

/// The header fields say what the body is: `Content-Length` is its length in
/// decimal, and `Content-Type` is there.
pub open spec fn consistent(r: ResponseView) -> bool {
    &&& lookup(r.headers, "Content-Length"@) == Some(decimal(r.data.len()))
    &&& lookup(r.headers, "Content-Type"@) is Some
}

/// What `write` puts out: the head in UTF-8, then the body where it is held
/// in memory.
pub open spec fn written(r: ResponseView) -> Seq<u8> {
    encode_utf8(head_text(r.status, r.headers)) + match r.data {
        BodyView::InMemory(bytes) => bytes,
        BodyView::File { path, len } => Seq::empty(),
    }
}

/// The file that is still to be sent behind what `write` put out.
pub open spec fn owed(r: ResponseView) -> Option<(Seq<char>, u64)> {
    match r.data {
        BodyView::InMemory(bytes) => None,
        BodyView::File { path, len } => Some((path, len)),
    }
}

/// The model of what `write` returns.
pub open spec fn owed_view(rest: Option<(String, u64)>) -> Option<(Seq<char>, u64)> {
    match rest {
        None => None,
        Some((path, len)) => Some((path@, len)),
    }
}

/// The two field names that every response carries are two names.
pub proof fn lemma_field_names_differ()
    ensures
        "Content-Type"@ != "Content-Length"@,
{
    reveal_strlit("Content-Type");
    reveal_strlit("Content-Length");
    assert("Content-Type"@.len() != "Content-Length"@.len());
}

impl Response {
    /// The head of the response: status line, header lines, blank line.
    pub fn status_and_headers(&self) -> (s: String)
        ensures
            s@ == head_text(self.status, self.headers@),
    {
        let mut s = String::new();
        s.append("HTTP/1.1 ");
        push_decimal(&mut s, self.status.code() as u64);
        s.append(" ");
        s.append(self.status.reason());
        s.append("\r\n");
        let ghost start: Seq<char> = s@;
        let n: usize = self.headers.len();
        let mut i: usize = 0;
        while i < n
            invariant
                i <= n,
                n == self.headers@.len(),
                s@ == start + field_lines(self.headers@.take(i as int)),
            decreases n - i,
        {
            let e = self.headers.entry(i).unwrap();
            let ghost before: Seq<char> = s@;
            s.append(e.name.as_str());
            s.append(": ");
            s.append(e.value.as_str());
            s.append("\r\n");
            proof {
                let h: Pairs = self.headers@;
                assert(h.take(i + 1) == h.take(i as int).push((e.name@, e.value@)));
                lemma_field_lines_push(h.take(i as int), e.name@, e.value@);
                assert(s@ == before + field_line(e.name@, e.value@));
            }
            i += 1;
        }
        assert(self.headers@.take(i as int) == self.headers@);
        s.append("\r\n");
        assert(s@ == head_text(self.status, self.headers@));
        s
    }

    /// Puts the response out: the head and, where the body is held in memory,
    /// the body. Of a file body nothing is put out: the file and its length
    /// are handed back, for the caller to send behind the head.
    pub fn write(self, out: &mut Vec<u8>) -> (rest: Option<(String, u64)>)
        ensures
            final(out)@ == old(out)@ + written(self@),
            owed_view(rest) == owed(self@),
    {
        let head = self.status_and_headers();
        out.extend_from_slice(head.as_str().as_bytes());
        match self.data {
            Body::InMemory(bytes) => {
                out.extend_from_slice(bytes.as_slice());
                assert(final(out)@ == old(out)@ + written(self@));
                None
            },
            Body::File { path, len } => {
                assert(final(out)@ == old(out)@ + written(self@));
                Some((path, len))
            },
        }
    }

    /// A response whose body is `content`, held in memory, with the header
    /// fields `Content-Type` and `Content-Length`.
    pub fn from_fixed_content(status: Status, content: Vec<u8>, content_type: &str) -> (r: Response)
        ensures
            r@ == fixed_content(status, content@, content_type@),
            consistent(r@),
    {
        proof {
            lemma_field_names_differ();
            lemma_two_fields(
                "Content-Type"@,
                content_type@,
                "Content-Length"@,
                decimal(content@.len()),
            );
        }
        let mut headers = Headers::new();
        headers.insert("Content-Type".to_owned(), content_type.to_owned());
        headers.insert("Content-Length".to_owned(), to_decimal(content.len() as u64));
        Response { status, headers, data: Body::InMemory(content) }
    }

    /// A response whose body is the text `data`, served as `text/html`.
    pub fn from_html(status: Status, data: &str) -> (r: Response)
        ensures
            r@ == fixed_content(status, encode_utf8(data@), "text/html"@),
            consistent(r@),
    {
        Response::from_fixed_content(status, data.as_bytes_vec(), "text/html")
    }

    /// The response that serves the file at `path`, which is `len` bytes
    /// long: `Content-Length` is `len`, `Content-Type` goes by the extension
    /// of `path`, and the body is the file, not read here.
    pub fn from_file(path: &str, len: u64) -> (r: Response)
        ensures
            r@ == file_response(path@, len),
            consistent(r@),
    {
        proof {
            lemma_field_names_differ();
            lemma_two_fields(
                "Content-Length"@,
                decimal(len as nat),
                "Content-Type"@,
                mime_of(path@),
            );
        }
        let mut headers = Headers::new();
        headers.insert("Content-Length".to_owned(), to_decimal(len));
        headers.insert("Content-Type".to_owned(), mime_type(path).to_owned());
        Response { status: Status::OK, headers, data: Body::File { path: path.to_owned(), len } }
    }
}

/// The content type served for `path`, by its extension.
pub fn mime_type(path: &str) -> (r: &'static str)
    ensures
        r@ == mime_of(path@),
{
    let chars = chars_of(path);
    let s: &[char] = chars.as_slice();
    proof {
        reveal_strlit(".");
        reveal_strlit("..");
        assert("."@ =~= dot());
        assert(".."@ =~= dot_dot());
        assert(s@.take(s.len() as int) == s@);
    }
    let mut end: usize = s.len();
    let mut start: usize = 0;
    loop
        invariant_except_break
            end <= s.len(),
            file_name(path@) == file_name(s@.take(end as int)),
        invariant
            s@ == path@,
            "."@ == dot(),
            ".."@ == dot_dot(),
        ensures
            start <= end <= s.len(),
            file_name(path@) == Some(s@.subrange(start as int, end as int)),
        decreases end,
    {
        let front: &[char] = &s[0..end];
        let at: usize = after_last(front, 0, '/');
        let seg: &[char] = &s[at..end];
        proof {
            assert(front@ == s@.take(end as int));
            assert(front@.skip(0) == front@);
            assert(seg@ == front@.skip(at as int));
            if at > 0 {
                assert(front@.take(at - 1) == s@.take(at - 1));
            }
        }
        if seg.len() > 0 && !spells(seg, ".") {
            if spells(seg, "..") {
                return "application/octet-stream";
            }
            start = at;
            break;
        } else if at == 0 {
            return "application/octet-stream";
        } else {
            end = at - 1;
        }
    }
    let name: &[char] = &s[start..end];
    let ext: usize = after_last(name, 0, '.');
    proof {
        assert(name@.skip(0) == name@);
    }
    if ext == 0 || ext == 1 {
        return "application/octet-stream";
    }
    let e: &[char] = &name[ext..name.len()];
    assert(e@ == name@.skip(ext as int));
    if spells(e, "html") {
        "text/html"
    } else if spells(e, "css") {
        "text/css"
    } else if spells(e, "js") {
        "text/javascript"
    } else if spells(e, "png") {
        "image/png"
    } else if spells(e, "jpg") {
        "image/jpeg"
    } else if spells(e, "gif") {
        "image/gif"
    } else {
        "application/octet-stream"
    }
}

} // verus!
