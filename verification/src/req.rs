//! Requests and their parser.
//!
//! A request is a request line, header lines, and a blank line. The grammar is
//! stated over text (`request_line`, `header_line`, `parse`); the executable
//! parsers return what those functions say, for one line, for a whole buffer,
//! or line by line as the input arrives.

use crate::headers::{field_line, field_lines, lemma_put_is_insert, put, to_map, Headers, Pairs};
use crate::text::{
    chars_of, find_char, first_line, free_of, is_blank, is_whitespace, lemma_first_line,
    lemma_span_is, lemma_trim_padded, line_end, no_space, non_space, other_than, skip_spaces,
    skip_word, space, span, spells, string_of, trim, trim_bounds,
};
use vstd::prelude::*;

verus! {

/// The request methods that are served.
#[derive(Debug, Copy, Clone, PartialEq, Eq, Hash, Structural)]
pub enum Method {
    Get,
}

/// Why a request could not be parsed.
#[derive(Debug, Copy, Clone, PartialEq, Eq, Hash, Structural)]
pub enum ParseError {
    /// The request line lacks its method or its path.
    MalformedRequestLine,
    /// The method is not one that is served.
    UnsupportedMethod,
    /// A header line holds no colon.
    MalformedHeaderLine,
    /// The input ended before the blank line that ends the headers.
    UnexpectedEof,
}

/// A parsed request.
#[derive(Debug, Clone, PartialEq, Eq)]
pub struct Request {
    pub method: Method,
    pub path: String,
    pub headers: Headers,
}

/// The model of a request.
pub struct RequestView {
    pub method: Method,
    pub path: Seq<char>,
    pub headers: Pairs,
}

impl View for Request {
    type V = RequestView;

    open spec fn view(&self) -> RequestView {
        RequestView { method: self.method, path: self.path@, headers: self.headers@ }
    }
}

/// The first whitespace-separated word of `s`; empty where `s` holds none.
pub open spec fn next_word(s: Seq<char>) -> Seq<char> {
    let t: Seq<char> = s.skip(span(s, space()) as int);
    t.take(span(t, non_space()) as int)
}

/// What follows the first word of `s`.
pub open spec fn after_word(s: Seq<char>) -> Seq<char> {
    let t: Seq<char> = s.skip(span(s, space()) as int);
    t.skip(span(t, non_space()) as int)
}

/// The method that `token` names.
pub open spec fn method_of(token: Seq<char>) -> Result<Method, ParseError> {
    if token == "GET"@ {
        Ok(Method::Get)
    } else {
        Err(ParseError::UnsupportedMethod)
    }
}

/// What a request line says: its first word is the method, its second the
/// path, and whatever follows is ignored. The method is judged before the path
/// is looked for.
pub open spec fn request_line(line: Seq<char>) -> Result<(Method, Seq<char>), ParseError> {
    let method: Seq<char> = next_word(line);
    let path: Seq<char> = next_word(after_word(line));
    if method.len() == 0 {
        Err(ParseError::MalformedRequestLine)
    } else {
        match method_of(method) {
            Err(e) => Err(e),
            Ok(m) => if path.len() == 0 {
                Err(ParseError::MalformedRequestLine)
            } else {
                Ok((m, path))
            },
        }
    }
}

/// What a header line says: the name is what stands before the first colon, as
/// received; the value is what stands behind it, without the whitespace at its
/// ends.
pub open spec fn header_line(line: Seq<char>) -> Result<(Seq<char>, Seq<char>), ParseError> {
    let c: nat = span(line, other_than(':'));
    if c < line.len() {
        Ok((line.take(c as int), trim(line.skip(c as int + 1))))
    } else {
        Err(ParseError::MalformedHeaderLine)
    }
}

/// The header block at the start of `rest`, added to `acc` line by line up to
/// the blank line. Input that ends before the blank line is an error.
pub open spec fn headers_from(rest: Seq<char>, acc: Pairs) -> Result<Pairs, ParseError>
    decreases rest.len(),
{
    if rest.len() == 0 {
        Err(ParseError::UnexpectedEof)
    } else {
        let line: Seq<char> = first_line(rest);
        if is_blank(line) {
            Ok(acc)
        } else {
            match header_line(line) {
                Err(e) => Err(e),
                Ok((name, value)) => headers_from(
                    rest.skip(line.len() as int),
                    put(acc, name, value),
                ),
            }
        }
    }
}

/// The request at the start of `input`.
pub open spec fn parse(input: Seq<char>) -> Result<RequestView, ParseError> {
    let line: Seq<char> = first_line(input);
    match request_line(line) {
        Err(e) => Err(e),
        Ok((method, path)) => match headers_from(input.skip(line.len() as int), Seq::empty()) {
            Err(e) => Err(e),
            Ok(headers) => Ok(RequestView { method, path, headers }),
        },
    }
}

/// How many characters of `rest` its header block takes up: through the
/// blank line, or through the line that is in error, or all of `rest` where
/// it ends before either.
pub open spec fn headers_taken(rest: Seq<char>) -> nat
    decreases rest.len(),
{
    if rest.len() == 0 {
        0
    } else {
        let line: Seq<char> = first_line(rest);
        if is_blank(line) || header_line(line) is Err {
            line.len()
        } else {
            line.len() + headers_taken(rest.skip(line.len() as int))
        }
    }
}

/// How many characters of `input` the request at its start takes up: through
/// the blank line, or through the line that is in error, or all of `input`
/// where it ends before either.
pub open spec fn taken(input: Seq<char>) -> nat {
    let line: Seq<char> = first_line(input);
    if request_line(line) is Err {
        line.len()
    } else {
        line.len() + headers_taken(input.skip(line.len() as int))
    }
}

/// The model of what `parse_request_line` returns.
pub open spec fn line_view(r: Result<(Method, String), ParseError>) -> Result<
    (Method, Seq<char>),
    ParseError,
> {
    match r {
        Ok((m, p)) => Ok((m, p@)),
        Err(e) => Err(e),
    }
}

/// The model of what `parse_header_line` returns.
pub open spec fn field_view(r: Result<(String, String), ParseError>) -> Result<
    (Seq<char>, Seq<char>),
    ParseError,
> {
    match r {
        Ok((k, v)) => Ok((k@, v@)),
        Err(e) => Err(e),
    }
}

/// The model of what `parse_request` returns.
pub open spec fn request_view(r: Result<Request, ParseError>) -> Result<RequestView, ParseError> {
    match r {
        Ok(q) => Ok(q@),
        Err(e) => Err(e),
    }
}

impl Method {
    /// The method named by `token`: `GET`, and nothing else.
    pub fn try_from(token: &str) -> (r: Result<Method, ParseError>)
        ensures
            r == method_of(token@),
    {
        let chars = chars_of(token);
        if spells(chars.as_slice(), "GET") {
            Ok(Method::Get)
        } else {
            Err(ParseError::UnsupportedMethod)
        }
    }
}

pub(crate) fn request_line_of(line: &[char]) -> (r: Result<(Method, String), ParseError>)
    ensures
        line_view(r) == request_line(line@),
{
    let a: usize = skip_spaces(line, 0);
    let b: usize = skip_word(line, a);
    let c: usize = skip_spaces(line, b);
    let d: usize = skip_word(line, c);
    proof {
        assert(line@.skip(0) == line@);
        let t: Seq<char> = line@.skip(a as int);
        assert(next_word(line@) == line@.subrange(a as int, b as int)) by {
            assert(t.take(b - a) == line@.subrange(a as int, b as int));
        }
        assert(after_word(line@) == line@.skip(b as int)) by {
            assert(t.skip(b - a) == line@.skip(b as int));
        }
        let u: Seq<char> = line@.skip(b as int);
        assert(u.skip(c - b) == line@.skip(c as int));
        assert(next_word(u) == line@.subrange(c as int, d as int)) by {
            assert(line@.skip(c as int).take(d - c) == line@.subrange(c as int, d as int));
        }
    }
    if a == b {
        return Err(ParseError::MalformedRequestLine);
    }
    if !spells(&line[a..b], "GET") {
        return Err(ParseError::UnsupportedMethod);
    }
    if c == d {
        return Err(ParseError::MalformedRequestLine);
    }
    Ok((Method::Get, string_of(&line[c..d])))
}

pub(crate) fn header_line_of(line: &[char]) -> (r: Result<(String, String), ParseError>)
    ensures
        field_view(r) == header_line(line@),
{
    let c: usize = find_char(line, 0, ':');
    proof {
        assert(line@.skip(0) == line@);
    }
    if c >= line.len() {
        return Err(ParseError::MalformedHeaderLine);
    }
    let (from, to) = trim_bounds(line, c + 1);
    proof {
        assert(line@.subrange(0, c as int) == line@.take(c as int));
    }
    Ok((string_of(&line[0..c]), string_of(&line[from..to])))
}

pub(crate) fn blank_of(line: &[char]) -> (r: bool)
    ensures
        r == is_blank(line@),
{
    let n: usize = line.len();
    if n == 0 {
        true
    } else if n == 1 {
        let r: bool = line[0] == '\n';
        assert(r ==> line@ =~= seq!['\n']);
        r
    } else if n == 2 {
        let r: bool = line[0] == '\r' && line[1] == '\n';
        assert(r ==> line@ =~= seq!['\r', '\n']);
        r
    } else {
        false
    }
}

/// Parses a request line.
pub fn parse_request_line(line: &str) -> (r: Result<(Method, String), ParseError>)
    ensures
        line_view(r) == request_line(line@),
{
    let chars = chars_of(line);
    request_line_of(chars.as_slice())
}

/// Parses a header line into its name and its value.
pub fn parse_header_line(line: &str) -> (r: Result<(String, String), ParseError>)
    ensures
        field_view(r) == header_line(line@),
{
    let chars = chars_of(line);
    header_line_of(chars.as_slice())
}

/// Parses the request at the start of `input`: a request line, header lines,
/// and the blank line that ends them. What follows the blank line is not
/// looked at.
pub fn parse_request(input: &str) -> (r: Result<Request, ParseError>)
    ensures
        request_view(r) == parse(input@),
{
    parse_next(input).0
}

/// Parses the request at the start of `input`, and says how many characters
/// of `input` it took: the next request, if any, starts behind them.
pub fn parse_next(input: &str) -> (r: (Result<Request, ParseError>, usize))
    ensures
        request_view(r.0) == parse(input@),
        r.1 == taken(input@),
{
    let chars = chars_of(input);
    let s: &[char] = chars.as_slice();
    let first: usize = line_end(s, 0);
    proof {
        assert(s@.skip(0) == s@);
    }
    let (method, path) = match request_line_of(&s[0..first]) {
        Err(e) => {
            return (Err(e), first);
        },
        Ok(found) => found,
    };
    let mut headers = Headers::new();
    let mut pos: usize = first;
    loop
        invariant
            pos <= s.len(),
            s@ == input@,
            parse(input@) == match headers_from(s@.skip(pos as int), headers@) {
                Err(e) => Err(e),
                Ok(h) => Ok(RequestView { method, path: path@, headers: h }),
            },
            taken(input@) == pos + headers_taken(s@.skip(pos as int)),
        decreases s.len() - pos,
    {
        if pos >= s.len() {
            return (Err(ParseError::UnexpectedEof), pos);
        }
        let end: usize = line_end(s, pos);
        let line: &[char] = &s[pos..end];
        if blank_of(line) {
            return (Ok(Request { method, path, headers }), end);
        }
        match header_line_of(line) {
            Err(e) => {
                return (Err(e), end);
            },
            Ok((name, value)) => {
                proof {
                    assert(s@.skip(pos as int).skip(end - pos) == s@.skip(end as int));
                }
                headers.insert(name, value);
            },
        }
        pos = end;
    }
}

/// Where a line-by-line parser stands.
pub enum ParserState {
    /// Before a request line.
    Start,
    /// Behind the request line, before the blank line.
    Headers { method: Method, path: Seq<char>, headers: Pairs },
    /// Behind an error: no further input is taken.
    Failed(ParseError),
}

/// What one line of input led to.
#[derive(Debug, Clone, PartialEq, Eq)]
pub enum Progress {
    /// The request is not complete: another line is wanted.
    NeedLine,
    /// The blank line came: the request is complete.
    Complete(Request),
    /// The request cannot be parsed.
    Failed(ParseError),
}

/// The model of a `Progress`.
pub enum ProgressView {
    NeedLine,
    Complete(RequestView),
    Failed(ParseError),
}

impl View for Progress {
    type V = ProgressView;

    open spec fn view(&self) -> ProgressView {
        match *self {
            Progress::NeedLine => ProgressView::NeedLine,
            Progress::Complete(r) => ProgressView::Complete(r@),
            Progress::Failed(e) => ProgressView::Failed(e),
        }
    }
}

/// The model of a line of input as `feed` takes it.
pub open spec fn line_text(line: Option<&str>) -> Option<Seq<char>> {
    match line {
        Some(l) => Some(l@),
        None => None,
    }
}

/// One step of the line-by-line parser: the state behind `line`, and what the
/// line led to. `None` is the end of the input.
///
/// The request line is judged as soon as it is there, so that a request that
/// cannot be served is refused before any of its headers is read. After an
/// error every step repeats the error and takes nothing in.
pub open spec fn step(state: ParserState, line: Option<Seq<char>>) -> (ParserState, ProgressView) {
    match state {
        ParserState::Failed(e) => (state, ProgressView::Failed(e)),
        ParserState::Start => {
            let text: Seq<char> = match line {
                Some(l) => l,
                None => Seq::empty(),
            };
            match request_line(text) {
                Err(e) => (ParserState::Failed(e), ProgressView::Failed(e)),
                Ok((method, path)) => (
                    ParserState::Headers { method, path, headers: Seq::empty() },
                    ProgressView::NeedLine,
                ),
            }
        },
        ParserState::Headers { method, path, headers } => match line {
            None => (
                ParserState::Failed(ParseError::UnexpectedEof),
                ProgressView::Failed(ParseError::UnexpectedEof),
            ),
            Some(l) => if is_blank(l) {
                (ParserState::Start, ProgressView::Complete(RequestView { method, path, headers }))
            } else {
                match header_line(l) {
                    Err(e) => (ParserState::Failed(e), ProgressView::Failed(e)),
                    Ok((name, value)) => (
                        ParserState::Headers { method, path, headers: put(headers, name, value) },
                        ProgressView::NeedLine,
                    ),
                }
            },
        },
    }
}

#[derive(Debug, Copy, Clone, PartialEq, Eq, Structural)]
enum Phase {
    Start,
    Headers,
    Failed,
}

/// A parser that takes a request in line by line, as the lines arrive.
#[derive(Debug)]
pub struct RequestParser {
    phase: Phase,
    method: Method,
    path: String,
    headers: Headers,
    error: ParseError,
}

impl View for RequestParser {
    type V = ParserState;

    closed spec fn view(&self) -> ParserState {
        match self.phase {
            Phase::Start => ParserState::Start,
            Phase::Headers => ParserState::Headers {
                method: self.method,
                path: self.path@,
                headers: self.headers@,
            },
            Phase::Failed => ParserState::Failed(self.error),
        }
    }
}

impl RequestParser {
    /// A parser before its first request line.
    pub fn new() -> (p: RequestParser)
        ensures
            p@ == ParserState::Start,
    {
        RequestParser {
            phase: Phase::Start,
            method: Method::Get,
            path: String::new(),
            headers: Headers::new(),
            error: ParseError::UnexpectedEof,
        }
    }

    fn fail(&mut self, e: ParseError) -> (p: Progress)
        ensures
            final(self)@ == ParserState::Failed(e),
            p == Progress::Failed(e),
    {
        self.phase = Phase::Failed;
        self.error = e;
        Progress::Failed(e)
    }

    /// Takes in one line of input, its terminator included; `None` where the
    /// input has ended.
    pub fn feed(&mut self, line: Option<&str>) -> (p: Progress)
        ensures
            (final(self)@, p@) == step(old(self)@, line_text(line)),
    {
        match self.phase {
            Phase::Failed => Progress::Failed(self.error),
            Phase::Start => {
                let chars: Vec<char> = match line {
                    Some(l) => chars_of(l),
                    None => Vec::new(),
                };
                match request_line_of(chars.as_slice()) {
                    Err(e) => self.fail(e),
                    Ok((method, path)) => {
                        self.method = method;
                        self.path = path;
                        self.headers = Headers::new();
                        self.phase = Phase::Headers;
                        Progress::NeedLine
                    },
                }
            },
            Phase::Headers => match line {
                None => self.fail(ParseError::UnexpectedEof),
                Some(l) => {
                    let chars = chars_of(l);
                    if blank_of(chars.as_slice()) {
                        let mut path = String::new();
                        let mut headers = Headers::new();
                        core::mem::swap(&mut path, &mut self.path);
                        core::mem::swap(&mut headers, &mut self.headers);
                        self.phase = Phase::Start;
                        Progress::Complete(Request { method: self.method, path, headers })
                    } else {
                        match header_line_of(chars.as_slice()) {
                            Err(e) => self.fail(e),
                            Ok((name, value)) => {
                                self.headers.insert(name, value);
                                Progress::NeedLine
                            },
                        }
                    }
                },
            },
        }
    }
}

/// The parser after `lines`, taken in their order.
pub open spec fn after_lines(state: ParserState, lines: Seq<Option<Seq<char>>>) -> ParserState
    decreases lines.len(),
{
    if lines.len() == 0 {
        state
    } else {
        step(after_lines(state, lines.drop_last()), lines.last()).0
    }
}

/// A request with a method that is not served is refused at its request
/// line, whatever follows the line, and nothing further is taken: of a
/// buffer only the request line, and by the line-by-line parser no later
/// line, each of which leaves it where the refusal left it.
pub proof fn lemma_unsupported_method_is_refused(
    input: Seq<char>,
    lines: Seq<Option<Seq<char>>>,
)
    requires
        next_word(first_line(input)).len() > 0,
        next_word(first_line(input)) != "GET"@,
    ensures
        parse(input) == Err::<RequestView, ParseError>(ParseError::UnsupportedMethod),
        taken(input) == first_line(input).len(),
        step(ParserState::Start, Some(first_line(input))) == (
            ParserState::Failed(ParseError::UnsupportedMethod),
            ProgressView::Failed(ParseError::UnsupportedMethod),
        ),
        after_lines(ParserState::Failed(ParseError::UnsupportedMethod), lines)
            == ParserState::Failed(ParseError::UnsupportedMethod),
    decreases lines.len(),
{
    if lines.len() > 0 {
        lemma_unsupported_method_is_refused(input, lines.drop_last());
    }
}

/// What the line-by-line parser comes to from `state` when it is given
/// `input` one line at a time, and behind the last line the end of the
/// input, up to the line that completes or refuses a request.
pub open spec fn line_by_line(state: ParserState, input: Seq<char>) -> Result<
    RequestView,
    ParseError,
>
    decreases input.len(),
{
    if input.len() == 0 {
        match step(state, None).1 {
            ProgressView::Complete(request) => Ok(request),
            ProgressView::Failed(e) => Err(e),
            ProgressView::NeedLine => Err(ParseError::UnexpectedEof),
        }
    } else {
        let line: Seq<char> = first_line(input);
        let (next, progress) = step(state, Some(line));
        match progress {
            ProgressView::Complete(request) => Ok(request),
            ProgressView::Failed(e) => Err(e),
            ProgressView::NeedLine => line_by_line(next, input.skip(line.len() as int)),
        }
    }
}

/// Behind the request line, the line-by-line parser reads the header block
/// as `headers_from` does.
pub proof fn lemma_headers_line_by_line(
    method: Method,
    path: Seq<char>,
    headers: Pairs,
    rest: Seq<char>,
)
    ensures
        line_by_line(ParserState::Headers { method, path, headers }, rest) == match headers_from(
            rest,
            headers,
        ) {
            Err(e) => Err::<RequestView, ParseError>(e),
            Ok(all) => Ok(RequestView { method, path, headers: all }),
        },
    decreases rest.len(),
{
    if rest.len() > 0 {
        let line: Seq<char> = first_line(rest);
        if !is_blank(line) {
            if let Ok((name, value)) = header_line(line) {
                lemma_headers_line_by_line(
                    method,
                    path,
                    put(headers, name, value),
                    rest.skip(line.len() as int),
                );
            }
        }
    }
}

/// The two parsers agree: a buffer parses to what the line-by-line parser
/// comes to when it is given the lines of the buffer.
pub proof fn lemma_parse_is_line_by_line(input: Seq<char>)
    ensures
        parse(input) == line_by_line(ParserState::Start, input),
{
    let line: Seq<char> = first_line(input);
    if input.len() == 0 {
        assert(line == Seq::<char>::empty());
    } else if let Ok((method, path)) = request_line(line) {
        lemma_headers_line_by_line(method, path, Seq::empty(), input.skip(line.len() as int));
    }
}

/// Every name is free of colons and line feeds, and every value of line
/// feeds: the fields can be written one to a line.
pub open spec fn writable(fields: Pairs) -> bool {
    forall|i: int|
        0 <= i < fields.len() ==> {
            &&& free_of((#[trigger] fields[i]).0, ':')
            &&& free_of(fields[i].0, '\n')
            &&& free_of(fields[i].1, '\n')
        }
}

/// The text of a request for `path`: the request line, with `tail` between
/// the path and the end of the line, one line for each of `fields`, and the
/// blank line.
pub open spec fn request_text(path: Seq<char>, tail: Seq<char>, fields: Pairs) -> Seq<char> {
    "GET "@ + path + tail + "\r\n"@ + field_lines(fields) + "\r\n"@
}

/// `acc` with each of `fields` put into it in turn, the values trimmed.
pub open spec fn collected(acc: Pairs, fields: Pairs) -> Pairs
    decreases fields.len(),
{
    if fields.len() == 0 {
        acc
    } else {
        collected(put(acc, fields[0].0, trim(fields[0].1)), fields.drop_first())
    }
}

/// `m` with each of `fields` inserted in turn, the values trimmed: a later
/// value for a name replaces the earlier one.
pub open spec fn inserted(m: Map<Seq<char>, Seq<char>>, fields: Pairs) -> Map<
    Seq<char>,
    Seq<char>,
>
    decreases fields.len(),
{
    if fields.len() == 0 {
        m
    } else {
        inserted(m.insert(fields[0].0, trim(fields[0].1)), fields.drop_first())
    }
}

/// Read as a mapping, what was collected is what was inserted.
pub proof fn lemma_collected_is_inserted(acc: Pairs, fields: Pairs)
    ensures
        to_map(collected(acc, fields)) == inserted(to_map(acc), fields),
    decreases fields.len(),
{
    if fields.len() > 0 {
        lemma_put_is_insert(acc, fields[0].0, trim(fields[0].1));
        lemma_collected_is_inserted(put(acc, fields[0].0, trim(fields[0].1)), fields.drop_first());
    }
}

/// A written field reads back: its line is a line of its own, no blank one,
/// and says the name and the trimmed value.
pub proof fn lemma_field_line_reads(name: Seq<char>, value: Seq<char>, rest: Seq<char>)
    requires
        free_of(name, ':'),
        free_of(name, '\n'),
        free_of(value, '\n'),
    ensures
        first_line(field_line(name, value) + rest) == field_line(name, value),
        (field_line(name, value) + rest).skip(field_line(name, value).len() as int) == rest,
        !is_blank(field_line(name, value)),
        header_line(field_line(name, value)) == Ok::<(Seq<char>, Seq<char>), ParseError>(
            (name, trim(value)),
        ),
{
    reveal_strlit(": ");
    reveal_strlit("\r\n");
    let line: Seq<char> = field_line(name, value);
    let body: Seq<char> = name + seq![':', ' '] + value + seq!['\r'];
    assert(": "@ == seq![':', ' ']);
    assert("\r\n"@ == seq!['\r', '\n']);
    assert(line == body.push('\n'));
    assert forall|i: int| 0 <= i < body.len() implies #[trigger] body[i] != '\n' by {
        if i < name.len() {
            assert(body[i] == name[i]);
        } else if i < name.len() + 2 {
        } else if i < name.len() + 2 + value.len() {
            assert(body[i] == value[i - name.len() - 2]);
        } else {
        }
    }
    lemma_first_line(body, rest);
    assert(line.len() >= 4);
    assert forall|i: int| 0 <= i < name.len() implies other_than(':')(#[trigger] line[i]) by {
        assert(line[i] == name[i]);
    }
    assert(line[name.len() as int] == ':');
    lemma_span_is(line, other_than(':'), name.len() as int);
    assert(line.take(name.len() as int) == name);
    assert(line.skip(name.len() as int + 1) == seq![' '] + value + seq!['\r', '\n']);
    lemma_trim_padded(seq![' '], value, seq!['\r', '\n']);
}

/// A written header block reads back as the fields that were written, the
/// values trimmed.
pub proof fn lemma_fields_read(fields: Pairs, acc: Pairs)
    requires
        writable(fields),
    ensures
        headers_from(field_lines(fields) + "\r\n"@, acc) == Ok::<Pairs, ParseError>(
            collected(acc, fields),
        ),
    decreases fields.len(),
{
    reveal_strlit("\r\n");
    assert("\r\n"@ == seq!['\r', '\n']);
    let text: Seq<char> = field_lines(fields) + "\r\n"@;
    if fields.len() == 0 {
        assert(text == seq!['\r'].push('\n') + Seq::<char>::empty());
        lemma_first_line(seq!['\r'], Seq::empty());
    } else {
        let name: Seq<char> = fields[0].0;
        let value: Seq<char> = fields[0].1;
        let later: Pairs = fields.drop_first();
        let rest: Seq<char> = field_lines(later) + "\r\n"@;
        assert(text == field_line(name, value) + rest);
        lemma_field_line_reads(name, value, rest);
        assert forall|i: int| 0 <= i < later.len() implies {
            &&& free_of((#[trigger] later[i]).0, ':')
            &&& free_of(later[i].0, '\n')
            &&& free_of(later[i].1, '\n')
        } by {
            assert(later[i] == fields[i + 1]);
        }
        lemma_fields_read(later, put(acc, name, trim(value)));
    }
}

/// A written request line reads back as the method and the path.
pub proof fn lemma_request_line_reads(path: Seq<char>, tail: Seq<char>, rest: Seq<char>)
    requires
        path.len() > 0,
        no_space(path),
        tail.len() > 0 ==> is_whitespace(tail[0]),
        free_of(tail, '\n'),
    ensures
        ({
            let line: Seq<char> = "GET "@ + path + tail + "\r\n"@;
            &&& first_line(line + rest) == line
            &&& (line + rest).skip(line.len() as int) == rest
            &&& request_line(line) == Ok::<(Method, Seq<char>), ParseError>((Method::Get, path))
        }),
{
    reveal_strlit("GET ");
    reveal_strlit("GET");
    reveal_strlit("\r\n");
    assert("GET "@ == seq!['G', 'E', 'T', ' ']);
    assert("GET"@ == seq!['G', 'E', 'T']);
    assert("\r\n"@ == seq!['\r', '\n']);
    let line: Seq<char> = "GET "@ + path + tail + "\r\n"@;
    let body: Seq<char> = seq!['G', 'E', 'T', ' '] + path + tail + seq!['\r'];
    assert(line == body.push('\n'));
    assert forall|i: int| 0 <= i < body.len() implies #[trigger] body[i] != '\n' by {
        if i < 4 {
        } else if i < 4 + path.len() {
            assert(body[i] == path[i - 4]);
        } else if i < 4 + path.len() + tail.len() {
            assert(body[i] == tail[i - 4 - path.len()]);
        } else {
        }
    }
    lemma_first_line(body, rest);
    // The method.
    lemma_span_is(line, space(), 0);
    assert(line.skip(0) == line);
    lemma_span_is(line, non_space(), 3);
    assert(line.take(3) == "GET"@);
    assert(next_word(line) == "GET"@);
    // The path.
    let after: Seq<char> = line.skip(3);
    assert(after_word(line) == after);
    assert(after[0] == ' ');
    assert(after[1] == path[0]);
    lemma_span_is(after, space(), 1);
    let from_path: Seq<char> = after.skip(1);
    assert forall|i: int| 0 <= i < path.len() implies non_space()(#[trigger] from_path[i]) by {
        assert(from_path[i] == path[i]);
    }
    assert(is_whitespace(from_path[path.len() as int])) by {
        if tail.len() > 0 {
            assert(from_path[path.len() as int] == tail[0]);
        } else {
            assert(from_path[path.len() as int] == '\r');
        }
    }
    lemma_span_is(from_path, non_space(), path.len() as int);
    assert(from_path.take(path.len() as int) == path);
    assert(next_word(after) == path);
}

/// A well-formed request parses, and to what it says: for a path without
/// whitespace, a request line that ends behind the path or goes on behind
/// whitespace, and fields that can be written one to a line, the request
/// text parses to a `GET` request for that path whose headers are those
/// fields, the values trimmed, a later value for a name in the place of the
/// earlier one.
pub proof fn lemma_parse_well_formed(path: Seq<char>, tail: Seq<char>, fields: Pairs)
    requires
        path.len() > 0,
        no_space(path),
        tail.len() > 0 ==> is_whitespace(tail[0]),
        free_of(tail, '\n'),
        writable(fields),
    ensures
        parse(request_text(path, tail, fields)) == Ok::<RequestView, ParseError>(
            RequestView {
                method: Method::Get,
                path,
                headers: collected(Seq::empty(), fields),
            },
        ),
        to_map(collected(Seq::empty(), fields)) == inserted(Map::empty(), fields),
{
    let line: Seq<char> = "GET "@ + path + tail + "\r\n"@;
    let rest: Seq<char> = field_lines(fields) + "\r\n"@;
    assert(request_text(path, tail, fields) == line + rest);
    lemma_request_line_reads(path, tail, rest);
    lemma_fields_read(fields, Seq::empty());
    lemma_collected_is_inserted(Seq::empty(), fields);
    assert(to_map(Seq::<(Seq<char>, Seq<char>)>::empty()) =~= Map::<Seq<char>, Seq<char>>::empty());
}

} // verus!
