//! The error taxonomy of the HTTP transport and the reading of error
//! responses.
use vstd::prelude::*;
use vstd::string::StringExecFns;
use vstd::string::StringSliceAdditionalSpecFns;
use vstd::string::to_string_from_display_ensures;
use vstd::utf8::decode_utf8;
use vstd::utf8::encode_utf8_decode_utf8;
use vstd::utf8::encode_utf8_valid_utf8;
use vstd::utf8::is_char_boundary;
use vstd::utf8::is_char_boundary_start_end_of_seq;
use vstd::utf8::length_of_first_scalar;
use vstd::utf8::pop_first_scalar;
use vstd::utf8::valid_utf8;

verus! {

/// An error of the transport: one of the transport itself, or one that the
/// remote application described in its response.
pub enum HttpClientError<T> {
    Generic(String),
    Api(T),
}

impl<T> HttpClientError<T> {
    /// A transport error that carries the text of `error`.
    pub fn generic_from<E: core::fmt::Display>(error: E) -> (r: HttpClientError<T>)
        ensures
            r matches HttpClientError::Generic(m) && to_string_from_display_ensures(&error, m),
    {
        HttpClientError::Generic(error.to_string())
    }
}

/// A response body that decodes to nothing.
pub struct EmptyResponse {}

/// A response's content type: its `type/subtype` in lower case, and the text
/// of its parameters as the header gives them (`; charset=utf-8`, or empty).
pub struct ContentType {
    pub type_: String,
    pub subtype: String,
    pub parameters: String,
}

/// What to make of the body of an error response.
pub enum ApiErrorBody {
    /// A transport error with this message.
    Message(String),
    /// A JSON document that describes the error: decode it.
    Json,
}

/// Unicode's White_Space property, which `char::is_whitespace` tests.
pub open spec fn is_white_space(c: char) -> bool {
    let u = c as u32;
    ||| 0x9 <= u <= 0xd
    ||| u == 0x20
    ||| u == 0x85
    ||| u == 0xa0
    ||| u == 0x1680
    ||| 0x2000 <= u <= 0x200a
    ||| u == 0x2028
    ||| u == 0x2029
    ||| u == 0x202f
    ||| u == 0x205f
    ||| u == 0x3000
}

/// `r` is `s` without its leading and trailing white space.
pub open spec fn is_trim_of(r: Seq<char>, s: Seq<char>) -> bool {
    exists|i: int|
        {
            &&& 0 <= i && i + r.len() <= s.len()
            &&& r == #[trigger] s.subrange(i, i + r.len())
            &&& forall|k: int| 0 <= k < i ==> is_white_space(#[trigger] s[k])
            &&& forall|k: int| i + r.len() <= k < s.len() ==> is_white_space(#[trigger] s[k])
            &&& r.len() > 0 ==> !is_white_space(r[0]) && !is_white_space(r.last())
        }
}

/// Relies on `str::trim`: it removes the leading and trailing characters that
/// have the White_Space property.
#[verifier::external_body]
fn trim(s: &str) -> (r: &str)
    ensures
        is_trim_of(r@, s@),
{
    s.trim()
}

/// `r` is `s` without its trailing white space.
pub open spec fn is_trim_end_of(r: Seq<char>, s: Seq<char>) -> bool {
    &&& r.len() <= s.len()
    &&& r == s.take(r.len() as int)
    &&& forall|k: int| r.len() <= k < s.len() ==> is_white_space(#[trigger] s[k])
    &&& r.len() > 0 ==> !is_white_space(r.last())
}

/// Relies on `str::trim_end`: it removes the trailing characters that have
/// the White_Space property.
#[verifier::external_body]
pub(crate) fn trim_end(s: &str) -> (r: &str)
    ensures
        is_trim_end_of(r@, s@),
{
    s.trim_end()
}

/// A full stop or white space.
pub open spec fn is_trailing_junk(c: char) -> bool {
    c == '.' || is_white_space(c)
}

/// Whether `c` is a full stop or white space.
pub fn trailing_junk(c: char) -> (r: bool)
    ensures
        r == is_trailing_junk(c),
{
    let u = c as u32;
    c == '.' || (0x9 <= u && u <= 0xd) || u == 0x20 || u == 0x85 || u == 0xa0 || u == 0x1680 || (
    0x2000 <= u && u <= 0x200a) || u == 0x2028 || u == 0x2029 || u == 0x202f || u == 0x205f || u
        == 0x3000
}

/// `r` is `s` without the full stops and white space that end it.
pub open spec fn is_strip_end_of(r: Seq<char>, s: Seq<char>) -> bool {
    &&& r.len() <= s.len()
    &&& r == s.take(r.len() as int)
    &&& forall|k: int| r.len() <= k < s.len() ==> is_trailing_junk(#[trigger] s[k])
    &&& r.len() > 0 ==> !is_trailing_junk(r.last())
}

/// Relies on `str::trim_end_matches`: it removes, repeatedly, the trailing
/// characters for which the predicate holds; the predicate is `trailing_junk`.
#[verifier::external_body]
fn strip_trailing_junk(s: &str) -> (r: &str)
    ensures
        is_strip_end_of(r@, s@),
{
    s.trim_end_matches(|c: char| trailing_junk(c))
}

/// The index of the first line feed of `b` at `i` or later, or the length of
/// `b` where there is none.
pub open spec fn newline_from(b: Seq<u8>, i: int) -> int
    decreases b.len() - i,
{
    if i >= b.len() {
        b.len() as int
    } else if b[i] == 10 {
        i
    } else {
        newline_from(b, i + 1)
    }
}

/// The end of the content of the line that starts at `start`: before its line
/// feed, or before the carriage return and line feed that end it.
pub open spec fn content_end(b: Seq<u8>, start: int) -> int {
    let n = newline_from(b, start);
    if n < b.len() && n > start && b[n - 1] == 13 {
        n - 1
    } else {
        n
    }
}

/// The start of the first non-empty line of `b` at `start` or later, or the
/// length of `b` where there is none.
pub open spec fn first_content(b: Seq<u8>, start: int) -> int
    decreases b.len() - start,
{
    if start < 0 || start >= b.len() {
        b.len() as int
    } else if content_end(b, start) > start {
        start
    } else if newline_from(b, start) >= start {
        first_content(b, newline_from(b, start) + 1)
    } else {
        b.len() as int
    }
}

/// The first non-empty line of `b`, without its line ending (empty where `b`
/// has no non-empty line).
pub open spec fn message_line(b: Seq<u8>) -> Seq<char> {
    let s = first_content(b, 0);
    let e = if s < b.len() {
        content_end(b, s)
    } else {
        s
    };
    decode_utf8(b.subrange(s, e))
}

/// The message of a plain-text error body: its first non-empty line without
/// the full stops and white space that end it, and without leading white
/// space.
pub open spec fn plain_message(body: Seq<u8>, r: Seq<char>) -> bool {
    exists|t: Seq<char>| #[trigger] is_strip_end_of(t, message_line(body)) && is_trim_of(r, t)
}

proof fn lemma_newline_from(b: Seq<u8>, start: int, i: int)
    requires
        0 <= start <= i <= b.len(),
        forall|k: int| start <= k < i ==> b[k] != 10,
    ensures
        newline_from(b, start) == newline_from(b, i),
    decreases i - start,
{
    if start < i {
        lemma_newline_from(b, start + 1, i);
    }
}

proof fn lemma_ascii_boundary(b: Seq<u8>, i: int)
    requires
        valid_utf8(b),
        0 <= i < b.len(),
        b[i] < 0x80,
    ensures
        is_char_boundary(b, i),
    decreases b.len(),
{
    if i > 0 {
        let n = length_of_first_scalar(b);
        let rest = pop_first_scalar(b);
        assert(valid_utf8(rest));
        assert(1 <= n <= b.len());
        if i >= n {
            assert(rest[i - n] == b[i]);
            if i - n > 0 {
                lemma_ascii_boundary(rest, i - n);
            }
        }
        assert(is_char_boundary(b, i) == is_char_boundary(rest, i - n));
    }
}

proof fn lemma_after_ascii_boundary(b: Seq<u8>, i: int)
    requires
        valid_utf8(b),
        0 <= i < b.len(),
        b[i] < 0x80,
    ensures
        is_char_boundary(b, i + 1),
    decreases b.len(),
{
    is_char_boundary_start_end_of_seq(b);
    if i + 1 < b.len() {
        let n = length_of_first_scalar(b);
        let rest = pop_first_scalar(b);
        assert(valid_utf8(rest));
        assert(1 <= n <= b.len());
        if i >= n {
            assert(rest[i - n] == b[i]);
            lemma_after_ascii_boundary(rest, i - n);
        } else if i == 0 {
            assert(n == 1);
        }
        assert(is_char_boundary(b, i + 1) == is_char_boundary(rest, i + 1 - n));
    }
}

fn newline_index(b: &[u8], start: usize) -> (r: usize)
    requires
        start <= b@.len(),
    ensures
        r == newline_from(b@, start as int),
        start <= r <= b@.len(),
        r < b@.len() ==> b@[r as int] == 10,
{
    let mut i: usize = start;
    while i < b.len() && b[i] != 10
        invariant
            start <= i <= b@.len(),
            forall|k: int| start <= k < i ==> b@[k] != 10,
        decreases b.len() - i,
    {
        i = i + 1;
    }
    proof {
        lemma_newline_from(b@, start as int, i as int);
    }
    i
}

/// The message of a plain-text error body.
pub fn plain_error_message(body: &str) -> (r: String)
    ensures
        plain_message(body.spec_bytes(), r@),
{
    let b = body.as_bytes();
    let mut start: usize = 0;
    let mut found = false;
    let mut end: usize = 0;
    while start < b.len() && !found
        invariant
            0 <= start <= b@.len(),
            first_content(b@, 0) == if found {
                start as int
            } else {
                first_content(b@, start as int)
            },
            found ==> start < b@.len() && end == content_end(b@, start as int),
            found ==> start < end <= b@.len(),
            found && end < b@.len() ==> b@[end as int] == 10 || b@[end as int] == 13,
            start == 0 || b@[start - 1] == 10,
        decreases b.len() - start + (if found { 0int } else { 1int }),
    {
        let n = newline_index(b, start);
        let e: usize = if n < b.len() && n > start && b[n - 1] == 13 {
            n - 1
        } else {
            n
        };
        if e > start {
            found = true;
            end = e;
        } else {
            start = n + 1;
        }
    }
    if !found {
        start = b.len();
        end = b.len();
    }
    proof {
        encode_utf8_valid_utf8(body@);
        is_char_boundary_start_end_of_seq(b@);
        if end < b@.len() {
            lemma_ascii_boundary(b@, end as int);
        }
    }
    let (head, _) = body.split_at(end);
    proof {
        encode_utf8_valid_utf8(head@);
        assert(head.spec_bytes() =~= b@.take(end as int));
        is_char_boundary_start_end_of_seq(head.spec_bytes());
        if 0 < start && start < end {
            lemma_after_ascii_boundary(head.spec_bytes(), start - 1);
        }
    }
    let (_, line) = head.split_at(start);
    proof {
        encode_utf8_decode_utf8(line@);
        assert(line.spec_bytes() =~= b@.subrange(start as int, end as int));
    }
    let stripped = strip_trailing_junk(line);
    let r = String::from_str(trim(stripped));
    assert(is_strip_end_of(stripped@, message_line(b@)));
    r
}

/// Whether the text of `s` is `lit`.
fn text_is(s: &String, lit: &str) -> (r: bool)
    ensures
        r == (s@ == lit@),
{
    let x = s.as_str().as_bytes();
    let y = lit.as_bytes();
    if x.len() != y.len() {
        proof {
            if s@ == lit@ {
                assert(x@ == y@);
            }
        }
        return false;
    }
    let mut i: usize = 0;
    proof {
        encode_utf8_decode_utf8(s@);
        encode_utf8_decode_utf8(lit@);
    }
    while i < x.len()
        invariant
            0 <= i <= x@.len(),
            x@.len() == y@.len(),
            s@ == lit@ ==> x@ == y@,
            x@ == y@ ==> s@ == lit@,
            forall|k: int| 0 <= k < i ==> x@[k] == y@[k],
        decreases x.len() - i,
    {
        if x[i] != y[i] {
            proof {
                if s@ == lit@ {
                    assert(x@ == y@);
                }
            }
            return false;
        }
        i = i + 1;
    }
    assert(x@ =~= y@);
    true
}

/// `r` is what an error response with status line `status`, content type
/// `content_type` and body `body` says (see `parse_api_error`).
pub open spec fn is_api_error_body(
    status: String,
    content_type: Option<ContentType>,
    body: Seq<u8>,
    r: ApiErrorBody,
) -> bool {
    &&& content_type is None ==> (r matches ApiErrorBody::Message(m) && m@ == "Server returned "@
        + status@ + " error with an invalid content type"@)
    &&& content_type matches Some(ct) ==> {
        if ct.type_@ == "text"@ && ct.subtype@ == "plain"@ {
            r matches ApiErrorBody::Message(m) && exists|line: Seq<char>|
                #[trigger] plain_message(body, line) && m@ == "Server returned an error: "@ + (if line.len()
                    == 0 {
                    status@
                } else {
                    line
                })
        } else if ct.type_@ == "application"@ && ct.subtype@ == "json"@ {
            r is Json
        } else {
            r matches ApiErrorBody::Message(m) && m@ == "Server returned "@ + status@
                + " error with an invalid content type: "@ + ct.type_@ + "/"@ + ct.subtype@
                + ct.parameters@
        }
    }
}

/// What to make of an error response from its status line (`status`, such as
/// `413 Payload Too Large`), its content type and its body: a plain-text body
/// gives its first line as the message (the status where that line is empty), a
/// JSON body is to be decoded, and any other content type is an error of its
/// own.
pub fn parse_api_error(status: &String, content_type: &Option<ContentType>, body: &str) -> (r:
    ApiErrorBody)
    ensures
        is_api_error_body(*status, *content_type, body.spec_bytes(), r),
{
    match content_type {
        None => {
            let mut m = String::from_str("Server returned ");
            m.append(status.as_str());
            m.append(" error with an invalid content type");
            ApiErrorBody::Message(m)
        },
        Some(ct) => {
            if text_is(&ct.type_, "text") && text_is(&ct.subtype, "plain") {
                let line = plain_error_message(body);
                let mut m = String::from_str("Server returned an error: ");
                if line.as_str().is_empty() {
                    m.append(status.as_str());
                } else {
                    m.append(line.as_str());
                }
                ApiErrorBody::Message(m)
            } else if text_is(&ct.type_, "application") && text_is(&ct.subtype, "json") {
                ApiErrorBody::Json
            } else {
                let mut m = String::from_str("Server returned ");
                m.append(status.as_str());
                m.append(" error with an invalid content type: ");
                m.append(ct.type_.as_str());
                m.append("/");
                m.append(ct.subtype.as_str());
                m.append(ct.parameters.as_str());
                ApiErrorBody::Message(m)
            }
        },
    }
}


/// An HTTP header: its name and its value.
pub struct Header {
    pub name: String,
    pub value: String,
}

pub open spec fn ascii_lower(b: u8) -> u8 {
    if 65 <= b <= 90 {
        (b + 32) as u8
    } else {
        b
    }
}

/// Header names compare without regard to ASCII case.
pub open spec fn same_name(a: Seq<char>, b: Seq<char>) -> bool {
    let x = vstd::utf8::encode_utf8(a);
    let y = vstd::utf8::encode_utf8(b);
    x.len() == y.len() && forall|i: int| 0 <= i < x.len() ==> ascii_lower(x[i]) == ascii_lower(y[i])
}

pub open spec fn named_in(headers: Seq<Header>, name: Seq<char>) -> bool {
    exists|j: int| 0 <= j < headers.len() && same_name(#[trigger] headers[j].name@, name)
}

/// The headers of `defaults` that no header of `request` overrides, in order.
pub open spec fn kept_defaults(defaults: Seq<Header>, request: Seq<Header>) -> Seq<Header>
    decreases defaults.len(),
{
    if defaults.len() == 0 {
        Seq::empty()
    } else {
        kept_defaults(defaults.drop_last(), request) + if named_in(request, defaults.last().name@) {
            Seq::empty()
        } else {
            seq![defaults.last()]
        }
    }
}

/// Whether two header names are the same.
pub fn names_match(a: &String, b: &String) -> (r: bool)
    ensures
        r == same_name(a@, b@),
{
    let x = a.as_str().as_bytes();
    let y = b.as_str().as_bytes();
    if x.len() != y.len() {
        return false;
    }
    let mut i: usize = 0;
    while i < x.len()
        invariant
            0 <= i <= x@.len(),
            x@.len() == y@.len(),
            x@ == vstd::utf8::encode_utf8(a@),
            y@ == vstd::utf8::encode_utf8(b@),
            forall|k: int| 0 <= k < i ==> ascii_lower(x@[k]) == ascii_lower(y@[k]),
        decreases x.len() - i,
    {
        let p = if 65 <= x[i] && x[i] <= 90 {
            x[i] + 32
        } else {
            x[i]
        };
        let q = if 65 <= y[i] && y[i] <= 90 {
            y[i] + 32
        } else {
            y[i]
        };
        if p != q {
            return false;
        }
        i = i + 1;
    }
    true
}

fn clone_header(h: &Header) -> (r: Header)
    ensures
        r == *h,
{
    Header { name: h.name.clone(), value: h.value.clone() }
}

fn is_named_in(headers: &Vec<Header>, name: &String) -> (r: bool)
    ensures
        r == named_in(headers@, name@),
{
    let mut j: usize = 0;
    while j < headers.len()
        invariant
            0 <= j <= headers@.len(),
            forall|k: int| 0 <= k < j ==> !same_name(#[trigger] headers@[k].name@, name@),
        decreases headers.len() - j,
    {
        if names_match(&headers[j].name, name) {
            return true;
        }
        j = j + 1;
    }
    false
}

/// The headers of `defaults` that `request` does not override, then those of
/// `request`: a header of the request wins over a default of the same name.
pub fn merge_headers(defaults: &Vec<Header>, request: &Vec<Header>) -> (r: Vec<Header>)
    ensures
        r@ == kept_defaults(defaults@, request@) + request@,
{
    let mut r: Vec<Header> = Vec::new();
    let mut i: usize = 0;
    assert(defaults@.take(0) =~= Seq::<Header>::empty());
    while i < defaults.len()
        invariant
            0 <= i <= defaults@.len(),
            r@ == kept_defaults(defaults@.take(i as int), request@),
        decreases defaults.len() - i,
    {
        proof {
            assert(defaults@.take(i + 1).drop_last() =~= defaults@.take(i as int));
        }
        if !is_named_in(request, &defaults[i].name) {
            r.push(clone_header(&defaults[i]));
        } else {
            assert(r@ =~= kept_defaults(defaults@.take(i + 1), request@));
        }
        i = i + 1;
    }
    assert(defaults@.take(i as int) =~= defaults@);
    let ghost kept = r@;
    let mut j: usize = 0;
    while j < request.len()
        invariant
            0 <= j <= request@.len(),
            r@ == kept + request@.take(j as int),
        decreases request.len() - j,
    {
        r.push(clone_header(&request[j]));
        assert(kept + request@.take(j + 1) =~= (kept + request@.take(j as int)).push(request@[j as int]));
        j = j + 1;
    }
    assert(request@.take(j as int) =~= request@);
    r
}

/// The default headers of a client, which every request carries unless it
/// sets a header of the same name itself.
pub struct HttpClient {
    pub default_headers: Vec<Header>,
}

impl HttpClient {
    /// A client whose requests carry a `User-Agent`.
    pub fn new() -> (c: HttpClient)
        ensures
            c.default_headers@.len() == 1,
            c.default_headers@[0].name@ == "User-Agent"@,
            c.default_headers@[0].value@ == "pyvsb-to-cloud"@,
    {
        let h = Header {
            name: String::from_str("User-Agent"),
            value: String::from_str("pyvsb-to-cloud"),
        };
        HttpClient { default_headers: vec![h] }
    }

    /// Sets a default header, in place of any default of the same name.
    pub fn with_default_header(self, header: Header) -> (c: HttpClient)
        ensures
            c.default_headers@ == kept_defaults(self.default_headers@, seq![header]) + seq![header],
    {
        let ghost h = header;
        let one = vec![header];
        assert(one@ =~= seq![h]);
        let merged = merge_headers(&self.default_headers, &one);
        HttpClient { default_headers: merged }
    }

    /// The headers that a request with the headers `request` is sent with.
    pub fn request_headers(&self, request: &Vec<Header>) -> (r: Vec<Header>)
        ensures
            r@ == kept_defaults(self.default_headers@, request@) + request@,
    {
        merge_headers(&self.default_headers, request)
    }
}

/// What a response with status code `code` says.
pub enum ResponseOutcome {
    /// `200 OK`: the body is the result.
    Success,
    /// Any other status: the request failed.
    Failure(ApiErrorBody),
}

/// What a response says from its status code, its status line (`status`, such
/// as `404 Not Found`), its content type and its body: `200` is a success; a
/// client or server error (4xx, 5xx) is read from the body by
/// `parse_api_error`; any other status is an error that names it.
pub fn status_outcome(
    code: u16,
    status: &String,
    content_type: &Option<ContentType>,
    body: &str,
) -> (r: ResponseOutcome)
    ensures
        code == 200 ==> r is Success,
        400 <= code < 600 ==> (r matches ResponseOutcome::Failure(b) && is_api_error_body(
            *status,
            *content_type,
            body.spec_bytes(),
            b,
        )),
        code != 200 && !(400 <= code < 600) ==> (r matches ResponseOutcome::Failure(
            ApiErrorBody::Message(m),
        ) && m@ == "Server returned an error: "@ + status@),
{
    if code == 200 {
        ResponseOutcome::Success
    } else if 400 <= code && code < 600 {
        ResponseOutcome::Failure(parse_api_error(status, content_type, body))
    } else {
        let mut m = String::from_str("Server returned an error: ");
        m.append(status.as_str());
        ResponseOutcome::Failure(ApiErrorBody::Message(m))
    }
}

} // verus!
