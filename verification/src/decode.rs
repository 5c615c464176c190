use vstd::prelude::*;
use crate::message::{BodyReader, DecodeError, Header, HeaderV, Method, Request, hviews};
use crate::stream::ByteStream;

verus! {

/// Upper bound on the number of header fields in one message; the head
/// parse fails closed when it is exceeded.
pub const MAX_HEADERS: usize = 128;

// ---------------------------------------------------------------------------
// Head scanning: the head runs up to and including the first blank line.
// ---------------------------------------------------------------------------

/// The four-byte head terminator `\r\n\r\n` starts at index `i`.
pub open spec fn is_term_at(s: Seq<u8>, i: int) -> bool {
    &&& 0 <= i
    &&& i + 4 <= s.len()
    &&& s[i] == 13
    &&& s[i + 1] == 10
    &&& s[i + 2] == 13
    &&& s[i + 3] == 10
}

/// The end (exclusive) of the head: four past the first terminator at or
/// after `i`, or `None` when the stream closes before a full head arrives.
pub open spec fn head_end_from(s: Seq<u8>, i: int) -> Option<int>
    decreases s.len() - i,
{
    if i < 0 || i + 4 > s.len() {
        None
    } else if is_term_at(s, i) {
        Some(i + 4)
    } else {
        head_end_from(s, i + 1)
    }
}

pub open spec fn head_end(s: Seq<u8>) -> Option<int> {
    head_end_from(s, 0)
}

// ---------------------------------------------------------------------------
// Byte classes of the grammar.
// ---------------------------------------------------------------------------

/// A header-name (token) byte: alphanumeric or one of `!#$%&'*+-.^_`|~`.
pub open spec fn is_tchar(b: u8) -> bool {
    ||| (48 <= b && b <= 57)
    ||| (65 <= b && b <= 90)
    ||| (97 <= b && b <= 122)
    ||| b == 33
    ||| (35 <= b && b <= 39)
    ||| b == 42
    ||| b == 43
    ||| b == 45
    ||| b == 46
    ||| b == 94
    ||| b == 95
    ||| b == 96
    ||| b == 124
    ||| b == 126
}

pub open spec fn is_token(s: Seq<u8>) -> bool {
    s.len() > 0 && forall|i: int| 0 <= i < s.len() ==> is_tchar(s[i])
}

/// A request-target byte: any printable ASCII byte.
pub open spec fn target_byte_ok(b: u8) -> bool {
    33 <= b && b <= 126
}

pub open spec fn target_ok(s: Seq<u8>) -> bool {
    s.len() > 0 && forall|i: int| 0 <= i < s.len() ==> target_byte_ok(s[i])
}

/// A header-value byte: horizontal tab or printable ASCII (incl. space).
pub open spec fn value_byte_ok(b: u8) -> bool {
    b == 9 || (32 <= b && b <= 126)
}

pub open spec fn value_ok(s: Seq<u8>) -> bool {
    forall|i: int| 0 <= i < s.len() ==> value_byte_ok(s[i])
}

// ---------------------------------------------------------------------------
// Searching.
// ---------------------------------------------------------------------------

/// First index `>= i` holding byte `b`.
pub open spec fn find_byte_from(s: Seq<u8>, b: u8, i: int) -> Option<int>
    decreases s.len() - i,
{
    if i < 0 || i >= s.len() {
        None
    } else if s[i] == b {
        Some(i)
    } else {
        find_byte_from(s, b, i + 1)
    }
}

/// First index `>= i` where `\r\n` starts.
pub open spec fn find_crlf_from(s: Seq<u8>, i: int) -> Option<int>
    decreases s.len() - i,
{
    if i < 0 || i + 2 > s.len() {
        None
    } else if s[i] == 13 && s[i + 1] == 10 {
        Some(i)
    } else {
        find_crlf_from(s, i + 1)
    }
}

// ---------------------------------------------------------------------------
// The request line.
// ---------------------------------------------------------------------------

/// Spec-level request line.
pub struct ReqLineV {
    pub method: Method,
    pub target: Seq<u8>,
    pub minor: u8,
}

/// The method named by a token, if it is one of the standard set.
pub open spec fn spec_method_of(s: Seq<u8>) -> Option<Method> {
    if s == seq![71u8, 69u8, 84u8] {
        Some(Method::Get)
    } else if s == seq![72u8, 69u8, 65u8, 68u8] {
        Some(Method::Head)
    } else if s == seq![80u8, 79u8, 83u8, 84u8] {
        Some(Method::Post)
    } else if s == seq![80u8, 85u8, 84u8] {
        Some(Method::Put)
    } else if s == seq![68u8, 69u8, 76u8, 69u8, 84u8, 69u8] {
        Some(Method::Delete)
    } else if s == seq![67u8, 79u8, 78u8, 78u8, 69u8, 67u8, 84u8] {
        Some(Method::Connect)
    } else if s == seq![79u8, 80u8, 84u8, 73u8, 79u8, 78u8, 83u8] {
        Some(Method::Options)
    } else if s == seq![84u8, 82u8, 65u8, 67u8, 69u8] {
        Some(Method::Trace)
    } else if s == seq![80u8, 65u8, 84u8, 67u8, 72u8] {
        Some(Method::Patch)
    } else {
        None
    }
}

/// The minor version of a `HTTP/1.<digit>` version token.
pub open spec fn spec_version_of(v: Seq<u8>) -> Option<u8> {
    if v.len() == 8 && v[0] == 72 && v[1] == 84 && v[2] == 84 && v[3] == 80 && v[4] == 47 && v[5]
        == 49 && v[6] == 46 && 48 <= v[7] && v[7] <= 57 {
        Some((v[7] - 48) as u8)
    } else {
        None
    }
}

/// Parse `METHOD SP TARGET SP HTTP/1.x` from one line.
pub open spec fn spec_parse_request_line(line: Seq<u8>) -> Result<ReqLineV, DecodeError> {
    if line.len() == 0 {
        Err(DecodeError::MissingMethod)
    } else {
        match find_byte_from(line, 32, 0) {
            None => match spec_method_of(line) {
                Some(_) => Err(DecodeError::MissingTarget),
                None => Err(DecodeError::MalformedHead),
            },
            Some(sp1) => {
                if sp1 == 0 {
                    Err(DecodeError::MissingMethod)
                } else {
                    match spec_method_of(line.subrange(0, sp1)) {
                        None => Err(DecodeError::MalformedHead),
                        Some(method) => {
                            match find_byte_from(line, 32, sp1 + 1) {
                                None => {
                                    let target = line.subrange(sp1 + 1, line.len() as int);
                                    if target.len() == 0 {
                                        Err(DecodeError::MissingTarget)
                                    } else if !target_ok(target) {
                                        Err(DecodeError::InvalidUri)
                                    } else {
                                        Err(DecodeError::MissingVersion)
                                    }
                                },
                                Some(sp2) => {
                                    let target = line.subrange(sp1 + 1, sp2);
                                    let ver = line.subrange(sp2 + 1, line.len() as int);
                                    if target.len() == 0 {
                                        Err(DecodeError::MissingTarget)
                                    } else if !target_ok(target) {
                                        Err(DecodeError::InvalidUri)
                                    } else if ver.len() == 0 {
                                        Err(DecodeError::MissingVersion)
                                    } else {
                                        match spec_version_of(ver) {
                                            None => Err(DecodeError::UnsupportedVersion),
                                            Some(minor) => Ok(
                                                ReqLineV { method, target, minor },
                                            ),
                                        }
                                    }
                                },
                            }
                        },
                    }
                }
            },
        }
    }
}

// ---------------------------------------------------------------------------
// Header lines.
// ---------------------------------------------------------------------------

/// First index `>= i` past any run of spaces and horizontal tabs.
pub open spec fn ows_end(s: Seq<u8>, i: int) -> int
    decreases s.len() - i,
{
    if 0 <= i && i < s.len() && (s[i] == 32 || s[i] == 9) {
        ows_end(s, i + 1)
    } else {
        i
    }
}

/// Parse `Name: Value` from one line; leading whitespace of the value is
/// discarded, trailing whitespace is kept.
pub open spec fn spec_parse_header_line(line: Seq<u8>) -> Result<HeaderV, DecodeError> {
    match find_byte_from(line, 58, 0) {
        None => Err(DecodeError::MalformedHead),
        Some(c) => {
            let name = line.subrange(0, c);
            if !is_token(name) {
                Err(DecodeError::MalformedHead)
            } else {
                let vstart = ows_end(line, c + 1);
                let value = line.subrange(vstart, line.len() as int);
                if !value_ok(value) {
                    Err(DecodeError::InvalidHeaderEncoding)
                } else {
                    Ok(HeaderV { name, value })
                }
            }
        },
    }
}

/// Parse the header block of `s` starting at `at`, `count` fields already
/// taken, up to the blank line that must close the head.
pub open spec fn spec_parse_headers(s: Seq<u8>, at: int, count: int) -> Result<
    Seq<HeaderV>,
    DecodeError,
>
    decreases MAX_HEADERS + 1 - count,
{
    match find_crlf_from(s, at) {
        None => Err(DecodeError::MalformedHead),
        Some(i) => {
            if i == at {
                if at + 2 == s.len() {
                    Ok(Seq::empty())
                } else {
                    Err(DecodeError::MalformedHead)
                }
            } else if count >= MAX_HEADERS {
                Err(DecodeError::MalformedHead)
            } else {
                match spec_parse_header_line(s.subrange(at, i)) {
                    Err(e) => Err(e),
                    Ok(h) => match spec_parse_headers(s, i + 2, count + 1) {
                        Err(e) => Err(e),
                        Ok(rest) => Ok(seq![h] + rest),
                    },
                }
            }
        },
    }
}

/// Spec-level request head: request line and header fields.
pub struct HeadV {
    pub line: ReqLineV,
    pub headers: Seq<HeaderV>,
}

/// Parse a complete head (request line, header block, blank line).
pub open spec fn spec_parse_head(s: Seq<u8>) -> Result<HeadV, DecodeError> {
    match find_crlf_from(s, 0) {
        None => Err(DecodeError::MalformedHead),
        Some(i) => match spec_parse_request_line(s.subrange(0, i)) {
            Err(e) => Err(e),
            Ok(rl) => match spec_parse_headers(s, i + 2, 0) {
                Err(e) => Err(e),
                Ok(hs) => Ok(HeadV { line: rl, headers: hs }),
            },
        },
    }
}

// ---------------------------------------------------------------------------
// Content-Length.
// ---------------------------------------------------------------------------

pub open spec fn to_lower(b: u8) -> u8 {
    if 65 <= b && b <= 90 {
        (b + 32) as u8
    } else {
        b
    }
}

/// Case-insensitive equality of header names.
pub open spec fn name_eq_ci(a: Seq<u8>, b: Seq<u8>) -> bool {
    a.len() == b.len() && forall|i: int| 0 <= i < a.len() ==> to_lower(a[i]) == to_lower(b[i])
}

/// The bytes of `Content-Length`.
pub open spec fn cl_name() -> Seq<u8> {
    seq![67u8, 111u8, 110u8, 116u8, 101u8, 110u8, 116u8, 45u8, 76u8, 101u8, 110u8, 103u8, 116u8, 104u8]
}

/// Index of the first `Content-Length` field at or after `i`.
pub open spec fn find_cl_from(hs: Seq<HeaderV>, i: int) -> Option<int>
    decreases hs.len() - i,
{
    if i < 0 || i >= hs.len() {
        None
    } else if name_eq_ci(hs[i].name, cl_name()) {
        Some(i)
    } else {
        find_cl_from(hs, i + 1)
    }
}

pub open spec fn is_digits(s: Seq<u8>) -> bool {
    s.len() > 0 && forall|i: int| 0 <= i < s.len() ==> 48 <= s[i] && s[i] <= 57
}

/// The integer a digit string denotes.
pub open spec fn dec_value(s: Seq<u8>) -> int
    decreases s.len(),
{
    if s.len() == 0 {
        0
    } else {
        dec_value(s.drop_last()) * 10 + (s.last() - 48)
    }
}

/// What the header block says about body framing.
pub enum ClSpec {
    Absent,
    Valid(int),
    Invalid,
}

pub open spec fn spec_cl(hs: Seq<HeaderV>) -> ClSpec {
    match find_cl_from(hs, 0) {
        None => ClSpec::Absent,
        Some(i) => {
            let v = hs[i].value;
            if is_digits(v) && dec_value(v) <= usize::MAX as int {
                ClSpec::Valid(dec_value(v))
            } else {
                ClSpec::Invalid
            }
        },
    }
}

// ---------------------------------------------------------------------------
// The whole decode step, at the spec level.
// ---------------------------------------------------------------------------

pub enum DecodeOutcome {
    /// The stream closed before a complete head arrived.
    Closed,
    /// The head was complete but ill-formed.
    Fail(DecodeError),
    /// A request was decoded; `tail` is what follows the head on the stream.
    Got { head: HeadV, body_len: Option<int>, tail: Seq<u8> },
}

pub open spec fn spec_decode(s: Seq<u8>) -> DecodeOutcome {
    match head_end(s) {
        None => DecodeOutcome::Closed,
        Some(e) => match spec_parse_head(s.take(e)) {
            Err(err) => DecodeOutcome::Fail(err),
            Ok(h) => match spec_cl(h.headers) {
                ClSpec::Invalid => DecodeOutcome::Fail(DecodeError::InvalidContentLength),
                ClSpec::Absent => DecodeOutcome::Got { head: h, body_len: None, tail: s.skip(e) },
                ClSpec::Valid(n) => DecodeOutcome::Got {
                    head: h,
                    body_len: Some(n),
                    tail: s.skip(e),
                },
            },
        },
    }
}

/// What `decode` promises of its result, for every input stream.
pub open spec fn decode_post(
    input: Seq<u8>,
    r: Result<Option<(Request, Option<ByteStream>)>, DecodeError>,
) -> bool {
    match spec_decode(input) {
        DecodeOutcome::Closed => r == Ok::<Option<(Request, Option<ByteStream>)>, DecodeError>(
            None,
        ),
        DecodeOutcome::Fail(e) => r == Err::<Option<(Request, Option<ByteStream>)>, DecodeError>(
            e,
        ),
        DecodeOutcome::Got { head, body_len, tail } => match r {
            Ok(Some((req, cont))) => {
                &&& req.method == head.line.method
                &&& req.target@ == head.line.target
                &&& req.minor == head.line.minor
                &&& hviews(req.headers@) == head.headers
                &&& match body_len {
                    None => {
                        &&& req.body is Empty
                        &&& match cont {
                            Some(c) => c@ == tail,
                            None => false,
                        }
                    },
                    Some(n) => {
                        &&& cont is None
                        &&& match req.body {
                            BodyReader::Fixed { stream, len, read } => {
                                stream@ == tail && len == n && read == 0
                            },
                            _ => false,
                        }
                    },
                }
            },
            _ => false,
        },
    }
}

// ---------------------------------------------------------------------------
// Executable scanning and parsing, proved against the specs above.
// ---------------------------------------------------------------------------

/// Scan for the end of the head in the unread part of the stream.
fn find_head_end(s: &ByteStream) -> (r: Option<usize>)
    ensures
        match r {
            Some(e) => head_end(s@) == Some(e as int) && 4 <= e <= s@.len(),
            None => head_end(s@) is None,
        },
{
    let n = s.remaining();
    if n < 4 {
        return None;
    }
    let mut i: usize = 0;
    while i <= n - 4
        invariant
            4 <= n == s@.len(),
            i <= n - 3,
            head_end_from(s@, 0) == head_end_from(s@, i as int),
        decreases n - i,
    {
        if s.get(i) == 13 && s.get(i + 1) == 10 && s.get(i + 2) == 13 && s.get(i + 3) == 10 {
            proof {
                assert(is_term_at(s@, i as int));
            }
            return Some(i + 4);
        }
        proof {
            assert(!is_term_at(s@, i as int));
            assert(head_end_from(s@, i as int) == head_end_from(s@, i as int + 1));
        }
        i += 1;
    }
    proof {
        assert(head_end_from(s@, i as int) is None);
    }
    None
}

/// Copy `v[lo..hi]` out into a fresh vector.
fn copy_range(v: &Vec<u8>, lo: usize, hi: usize) -> (out: Vec<u8>)
    requires
        lo <= hi <= v.len(),
    ensures
        out@ == v@.subrange(lo as int, hi as int),
{
    let mut out: Vec<u8> = Vec::new();
    let mut j: usize = lo;
    while j < hi
        invariant
            lo <= j <= hi <= v.len(),
            out@ == v@.subrange(lo as int, j as int),
        decreases hi - j,
    {
        out.push(v[j]);
        proof {
            assert(out@ =~= v@.subrange(lo as int, j as int + 1));
        }
        j += 1;
    }
    out
}

fn find_byte(v: &Vec<u8>, b: u8, from: usize) -> (r: Option<usize>)
    requires
        from <= v.len(),
    ensures
        match r {
            Some(i) => find_byte_from(v@, b, from as int) == Some(i as int) && from <= i < v@.len(),
            None => find_byte_from(v@, b, from as int) is None,
        },
{
    let mut i: usize = from;
    while i < v.len()
        invariant
            from <= i <= v.len(),
            find_byte_from(v@, b, from as int) == find_byte_from(v@, b, i as int),
        decreases v.len() - i,
    {
        if v[i] == b {
            return Some(i);
        }
        proof {
            assert(find_byte_from(v@, b, i as int) == find_byte_from(v@, b, i as int + 1));
        }
        i += 1;
    }
    None
}

fn find_crlf(v: &Vec<u8>, from: usize) -> (r: Option<usize>)
    requires
        from <= v.len(),
    ensures
        match r {
            Some(i) => find_crlf_from(v@, from as int) == Some(i as int) && from <= i && i + 2
                <= v@.len(),
            None => find_crlf_from(v@, from as int) is None,
        },
{
    let n = v.len();
    if n < 2 {
        return None;
    }
    let mut i: usize = from;
    while i <= n - 2
        invariant
            2 <= n == v@.len(),
            from <= i <= v.len(),
            find_crlf_from(v@, from as int) == find_crlf_from(v@, i as int),
        decreases v.len() - i,
    {
        if v[i] == 13 && v[i + 1] == 10 {
            return Some(i);
        }
        proof {
            assert(find_crlf_from(v@, i as int) == find_crlf_from(v@, i as int + 1));
        }
        i += 1;
    }
    None
}

fn tchar_ok(b: u8) -> (r: bool)
    ensures
        r == is_tchar(b),
{
    (48 <= b && b <= 57) || (65 <= b && b <= 90) || (97 <= b && b <= 122) || b == 33 || (35 <= b
        && b <= 39) || b == 42 || b == 43 || b == 45 || b == 46 || b == 94 || b == 95 || b == 96
        || b == 124 || b == 126
}

fn check_token(v: &Vec<u8>) -> (r: bool)
    ensures
        r == is_token(v@),
{
    if v.len() == 0 {
        return false;
    }
    let mut i: usize = 0;
    while i < v.len()
        invariant
            i <= v.len(),
            forall|j: int| 0 <= j < i ==> is_tchar(v@[j]),
        decreases v.len() - i,
    {
        if !tchar_ok(v[i]) {
            return false;
        }
        i += 1;
    }
    true
}

fn check_target(v: &Vec<u8>) -> (r: bool)
    ensures
        r == target_ok(v@),
{
    if v.len() == 0 {
        return false;
    }
    let mut i: usize = 0;
    while i < v.len()
        invariant
            i <= v.len(),
            forall|j: int| 0 <= j < i ==> target_byte_ok(v@[j]),
        decreases v.len() - i,
    {
        let b = v[i];
        if !(33 <= b && b <= 126) {
            return false;
        }
        i += 1;
    }
    true
}

fn check_value(v: &Vec<u8>) -> (r: bool)
    ensures
        r == value_ok(v@),
{
    let mut i: usize = 0;
    while i < v.len()
        invariant
            i <= v.len(),
            forall|j: int| 0 <= j < i ==> value_byte_ok(v@[j]),
        decreases v.len() - i,
    {
        let b = v[i];
        if !(b == 9 || (32 <= b && b <= 126)) {
            return false;
        }
        i += 1;
    }
    true
}

fn method_of(v: &Vec<u8>) -> (r: Option<Method>)
    ensures
        r == spec_method_of(v@),
{
    let n = v.len();
    if n == 3 && v[0] == 71 && v[1] == 69 && v[2] == 84 {
        proof {
            assert(v@ =~= seq![71u8, 69u8, 84u8]);
        }
        Some(Method::Get)
    } else if n == 4 && v[0] == 72 && v[1] == 69 && v[2] == 65 && v[3] == 68 {
        proof {
            assert(v@ =~= seq![72u8, 69u8, 65u8, 68u8]);
        }
        Some(Method::Head)
    } else if n == 4 && v[0] == 80 && v[1] == 79 && v[2] == 83 && v[3] == 84 {
        proof {
            assert(v@ =~= seq![80u8, 79u8, 83u8, 84u8]);
        }
        Some(Method::Post)
    } else if n == 3 && v[0] == 80 && v[1] == 85 && v[2] == 84 {
        proof {
            assert(v@ =~= seq![80u8, 85u8, 84u8]);
        }
        Some(Method::Put)
    } else if n == 6 && v[0] == 68 && v[1] == 69 && v[2] == 76 && v[3] == 69 && v[4] == 84 && v[5]
        == 69 {
        proof {
            assert(v@ =~= seq![68u8, 69u8, 76u8, 69u8, 84u8, 69u8]);
        }
        Some(Method::Delete)
    } else if n == 7 && v[0] == 67 && v[1] == 79 && v[2] == 78 && v[3] == 78 && v[4] == 69 && v[5]
        == 67 && v[6] == 84 {
        proof {
            assert(v@ =~= seq![67u8, 79u8, 78u8, 78u8, 69u8, 67u8, 84u8]);
        }
        Some(Method::Connect)
    } else if n == 7 && v[0] == 79 && v[1] == 80 && v[2] == 84 && v[3] == 73 && v[4] == 79 && v[5]
        == 78 && v[6] == 83 {
        proof {
            assert(v@ =~= seq![79u8, 80u8, 84u8, 73u8, 79u8, 78u8, 83u8]);
        }
        Some(Method::Options)
    } else if n == 5 && v[0] == 84 && v[1] == 82 && v[2] == 65 && v[3] == 67 && v[4] == 69 {
        proof {
            assert(v@ =~= seq![84u8, 82u8, 65u8, 67u8, 69u8]);
        }
        Some(Method::Trace)
    } else if n == 5 && v[0] == 80 && v[1] == 65 && v[2] == 84 && v[3] == 67 && v[4] == 72 {
        proof {
            assert(v@ =~= seq![80u8, 65u8, 84u8, 67u8, 72u8]);
        }
        Some(Method::Patch)
    } else {
        None
    }
}

fn version_of(v: &Vec<u8>) -> (r: Option<u8>)
    ensures
        r == spec_version_of(v@),
{
    if v.len() == 8 && v[0] == 72 && v[1] == 84 && v[2] == 84 && v[3] == 80 && v[4] == 47 && v[5]
        == 49 && v[6] == 46 && 48 <= v[7] && v[7] <= 57 {
        Some(v[7] - 48)
    } else {
        None
    }
}

/// Parse the request line into method, target, and minor version.
fn parse_request_line(line: &Vec<u8>) -> (r: Result<(Method, Vec<u8>, u8), DecodeError>)
    ensures
        match r {
            Ok((m, t, minor)) => spec_parse_request_line(line@) == Ok::<ReqLineV, DecodeError>(
                ReqLineV { method: m, target: t@, minor },
            ),
            Err(e) => spec_parse_request_line(line@) == Err::<ReqLineV, DecodeError>(e),
        },
{
    if line.len() == 0 {
        return Err(DecodeError::MissingMethod);
    }
    match find_byte(line, 32, 0) {
        None => {
            match method_of(line) {
                Some(_) => Err(DecodeError::MissingTarget),
                None => Err(DecodeError::MalformedHead),
            }
        },
        Some(sp1) => {
            if sp1 == 0 {
                return Err(DecodeError::MissingMethod);
            }
            let mtok = copy_range(line, 0, sp1);
            let method = match method_of(&mtok) {
                None => {
                    return Err(DecodeError::MalformedHead);
                },
                Some(m) => m,
            };
            match find_byte(line, 32, sp1 + 1) {
                None => {
                    let target = copy_range(line, sp1 + 1, line.len());
                    if target.len() == 0 {
                        Err(DecodeError::MissingTarget)
                    } else if !check_target(&target) {
                        Err(DecodeError::InvalidUri)
                    } else {
                        Err(DecodeError::MissingVersion)
                    }
                },
                Some(sp2) => {
                    let target = copy_range(line, sp1 + 1, sp2);
                    let ver = copy_range(line, sp2 + 1, line.len());
                    if target.len() == 0 {
                        Err(DecodeError::MissingTarget)
                    } else if !check_target(&target) {
                        Err(DecodeError::InvalidUri)
                    } else if ver.len() == 0 {
                        Err(DecodeError::MissingVersion)
                    } else {
                        match version_of(&ver) {
                            None => Err(DecodeError::UnsupportedVersion),
                            Some(minor) => Ok((method, target, minor)),
                        }
                    }
                },
            }
        },
    }
}

fn skip_ows(line: &Vec<u8>, from: usize) -> (r: usize)
    requires
        from <= line.len(),
    ensures
        r == ows_end(line@, from as int),
        from <= r <= line.len(),
{
    let mut i: usize = from;
    while i < line.len() && (line[i] == 32 || line[i] == 9)
        invariant
            from <= i <= line.len(),
            ows_end(line@, from as int) == ows_end(line@, i as int),
        decreases line.len() - i,
    {
        proof {
            assert(ows_end(line@, i as int) == ows_end(line@, i as int + 1));
        }
        i += 1;
    }
    i
}

/// Parse one header line into a field.
fn parse_header_line(line: &Vec<u8>) -> (r: Result<Header, DecodeError>)
    ensures
        match r {
            Ok(h) => spec_parse_header_line(line@) == Ok::<HeaderV, DecodeError>(h@),
            Err(e) => spec_parse_header_line(line@) == Err::<HeaderV, DecodeError>(e),
        },
{
    match find_byte(line, 58, 0) {
        None => Err(DecodeError::MalformedHead),
        Some(c) => {
            let n = line.len();
            let name = copy_range(line, 0, c);
            if !check_token(&name) {
                return Err(DecodeError::MalformedHead);
            }
            let vstart = skip_ows(line, c + 1);
            let value = copy_range(line, vstart, line.len());
            if !check_value(&value) {
                return Err(DecodeError::InvalidHeaderEncoding);
            }
            Ok(Header { name, value })
        },
    }
}

/// How partially-consumed header parsing composes with what is still ahead.
pub open spec fn headers_compose(
    acc: Seq<HeaderV>,
    r: Result<Seq<HeaderV>, DecodeError>,
) -> Result<Seq<HeaderV>, DecodeError> {
    match r {
        Ok(rest) => Ok(acc + rest),
        Err(e) => Err(e),
    }
}

/// Parse the whole head buffer.
fn parse_head(head: &Vec<u8>) -> (r: Result<(Method, Vec<u8>, u8, Vec<Header>), DecodeError>)
    ensures
        match r {
            Ok((m, t, minor, hs)) => spec_parse_head(head@) == Ok::<HeadV, DecodeError>(
                HeadV {
                    line: ReqLineV { method: m, target: t@, minor },
                    headers: hviews(hs@),
                },
            ),
            Err(e) => spec_parse_head(head@) == Err::<HeadV, DecodeError>(e),
        },
{
    let hn = head.len();
    let i0 = match find_crlf(head, 0) {
        None => {
            return Err(DecodeError::MalformedHead);
        },
        Some(i) => i,
    };
    let rline = copy_range(head, 0, i0);
    let (m, t, minor) = match parse_request_line(&rline) {
        Err(e) => {
            return Err(e);
        },
        Ok(p) => p,
    };
    let mut hs: Vec<Header> = Vec::new();
    let mut at: usize = i0 + 2;
    proof {
        assert(hviews(hs@) =~= Seq::<HeaderV>::empty());
        match spec_parse_headers(head@, at as int, 0) {
            Ok(rest) => {
                assert(hviews(hs@) + rest =~= rest);
            },
            Err(_) => {},
        }
    }
    loop
        invariant
            i0 + 2 <= at <= head.len(),
            hs@.len() <= MAX_HEADERS,
            find_crlf_from(head@, 0) == Some(i0 as int),
            spec_parse_request_line(head@.subrange(0, i0 as int)) == Ok::<ReqLineV, DecodeError>(
                ReqLineV { method: m, target: t@, minor },
            ),
            spec_parse_headers(head@, i0 as int + 2, 0) == headers_compose(
                hviews(hs@),
                spec_parse_headers(head@, at as int, hs@.len() as int),
            ),
        decreases head.len() - at,
    {
        let ghost count = hs@.len() as int;
        match find_crlf(head, at) {
            None => {
                proof {
                    assert(spec_parse_headers(head@, at as int, count) == Err::<
                        Seq<HeaderV>,
                        DecodeError,
                    >(DecodeError::MalformedHead));
                }
                return Err(DecodeError::MalformedHead);
            },
            Some(i) => {
                if i == at {
                    if at + 2 == head.len() {
                        proof {
                            assert(spec_parse_headers(head@, at as int, count) == Ok::<
                                Seq<HeaderV>,
                                DecodeError,
                            >(Seq::empty()));
                            assert(hviews(hs@) + Seq::<HeaderV>::empty() =~= hviews(hs@));
                        }
                        return Ok((m, t, minor, hs));
                    } else {
                        proof {
                            assert(spec_parse_headers(head@, at as int, count) == Err::<
                                Seq<HeaderV>,
                                DecodeError,
                            >(DecodeError::MalformedHead));
                        }
                        return Err(DecodeError::MalformedHead);
                    }
                } else if hs.len() >= MAX_HEADERS {
                    proof {
                        assert(spec_parse_headers(head@, at as int, count) == Err::<
                            Seq<HeaderV>,
                            DecodeError,
                        >(DecodeError::MalformedHead));
                    }
                    return Err(DecodeError::MalformedHead);
                } else {
                    let linev = copy_range(head, at, i);
                    match parse_header_line(&linev) {
                        Err(e) => {
                            proof {
                                assert(spec_parse_headers(head@, at as int, count) == Err::<
                                    Seq<HeaderV>,
                                    DecodeError,
                                >(e));
                            }
                            return Err(e);
                        },
                        Ok(h) => {
                            proof {
                                let tail = spec_parse_headers(head@, i as int + 2, count + 1);
                                assert(spec_parse_headers(head@, at as int, count) == match tail {
                                    Ok(rest) => Ok::<Seq<HeaderV>, DecodeError>(seq![h@] + rest),
                                    Err(e) => Err(e),
                                });
                                assert(hviews(hs@.push(h)) =~= hviews(hs@).push(h@));
                                match tail {
                                    Ok(rest) => {
                                        assert(hviews(hs@) + (seq![h@] + rest) =~= hviews(
                                            hs@,
                                        ).push(h@) + rest);
                                    },
                                    Err(_) => {},
                                }
                            }
                            hs.push(h);
                            at = i + 2;
                        },
                    }
                }
            },
        }
    }
}
// ---------------------------------------------------------------------------
// Content-Length, executable side.
// ---------------------------------------------------------------------------

fn lower_byte(b: u8) -> (r: u8)
    ensures
        r == to_lower(b),
{
    if 65 <= b && b <= 90 {
        b + 32
    } else {
        b
    }
}

fn names_eq_ci(a: &Vec<u8>, b: &Vec<u8>) -> (r: bool)
    ensures
        r == name_eq_ci(a@, b@),
{
    if a.len() != b.len() {
        return false;
    }
    let mut i: usize = 0;
    while i < a.len()
        invariant
            a@.len() == b@.len(),
            i <= a.len(),
            forall|j: int| 0 <= j < i ==> to_lower(a@[j]) == to_lower(b@[j]),
        decreases a.len() - i,
    {
        if lower_byte(a[i]) != lower_byte(b[i]) {
            return false;
        }
        i += 1;
    }
    true
}

pub(crate) fn cl_name_vec() -> (v: Vec<u8>)
    ensures
        v@ == cl_name(),
{
    let v: Vec<u8> = vec![67u8, 111u8, 110u8, 116u8, 101u8, 110u8, 116u8, 45u8, 76u8, 101u8, 110u8, 103u8, 116u8, 104u8];
    proof {
        assert(v@ =~= cl_name());
    }
    v
}

/// Find the first `Content-Length` field.
fn find_content_length(hs: &Vec<Header>) -> (r: Option<usize>)
    ensures
        match r {
            Some(i) => find_cl_from(hviews(hs@), 0) == Some(i as int) && i < hs.len(),
            None => find_cl_from(hviews(hs@), 0) is None,
        },
{
    let cl = cl_name_vec();
    let mut i: usize = 0;
    while i < hs.len()
        invariant
            i <= hs.len(),
            cl@ == cl_name(),
            find_cl_from(hviews(hs@), 0) == find_cl_from(hviews(hs@), i as int),
        decreases hs.len() - i,
    {
        proof {
            assert(hviews(hs@)[i as int] == hs@[i as int]@);
        }
        if names_eq_ci(&hs[i].name, &cl) {
            return Some(i);
        }
        proof {
            assert(find_cl_from(hviews(hs@), i as int) == find_cl_from(hviews(hs@), i as int + 1));
        }
        i += 1;
    }
    None
}

proof fn lemma_dec_value_nonneg(s: Seq<u8>)
    requires
        forall|i: int| 0 <= i < s.len() ==> 48 <= s[i],
    ensures
        dec_value(s) >= 0,
    decreases s.len(),
{
    if s.len() > 0 {
        lemma_dec_value_nonneg(s.drop_last());
    }
}

proof fn lemma_dec_prefix_le(s: Seq<u8>, k: int)
    requires
        0 <= k <= s.len(),
        forall|i: int| 0 <= i < s.len() ==> 48 <= s[i] && s[i] <= 57,
    ensures
        dec_value(s.take(k)) <= dec_value(s),
    decreases s.len() - k,
{
    if k < s.len() {
        lemma_dec_value_nonneg(s.take(k));
        assert(s.take(k + 1).drop_last() =~= s.take(k));
        assert(dec_value(s.take(k + 1)) == dec_value(s.take(k)) * 10 + (s[k] - 48));
        lemma_dec_prefix_le(s, k + 1);
    } else {
        assert(s.take(k) =~= s);
    }
}

/// Parse a decimal digit string; `None` when it is not all digits or the
/// value does not fit a `usize`.
fn parse_usize(v: &Vec<u8>) -> (r: Option<usize>)
    ensures
        match r {
            Some(n) => is_digits(v@) && dec_value(v@) == n as int,
            None => !(is_digits(v@) && dec_value(v@) <= usize::MAX as int),
        },
{
    let n = v.len();
    if n == 0 {
        return None;
    }
    let mut acc: usize = 0;
    let mut k: usize = 0;
    while k < n
        invariant
            n == v@.len(),
            k <= n,
            forall|j: int| 0 <= j < k ==> 48 <= v@[j] && v@[j] <= 57,
            acc as int == dec_value(v@.take(k as int)),
        decreases n - k,
    {
        let b = v[k];
        if b < 48 || b > 57 {
            return None;
        }
        let d = (b - 48) as usize;
        if acc > usize::MAX / 10 || (acc == usize::MAX / 10 && d > usize::MAX % 10) {
            proof {
                assert(v@.take(k as int + 1).drop_last() =~= v@.take(k as int));
                assert(dec_value(v@.take(k as int + 1)) == acc as int * 10 + d);
                assert(acc as int * 10 + d > usize::MAX as int);
                if is_digits(v@) {
                    lemma_dec_prefix_le(v@, k as int + 1);
                }
            }
            return None;
        }
        proof {
            assert(v@.take(k as int + 1).drop_last() =~= v@.take(k as int));
        }
        acc = acc * 10 + d;
        k += 1;
    }
    proof {
        assert(v@.take(n as int) =~= v@);
    }
    Some(acc)
}

// ---------------------------------------------------------------------------
// The decoder.
// ---------------------------------------------------------------------------

/// Decode one request from the stream.
///
/// Returns `Ok(None)` when the stream ends before a complete head arrives
/// (the normal end of a connection), the structural error for an ill-formed
/// head, and otherwise the request together with its framing: with a valid
/// `Content-Length` the body is bound to the same stream and no separate
/// continuation exists; without one the body is empty and the rest of the
/// stream is handed back as the continuation for the next message.
pub fn decode(reader: ByteStream) -> (r: Result<
    Option<(Request, Option<ByteStream>)>,
    DecodeError,
>)
    ensures
        decode_post(reader@, r),
{
    let e = match find_head_end(&reader) {
        None => {
            return Ok(None);
        },
        Some(e) => e,
    };
    let mut stream = reader;
    let head = stream.take(e);
    let (m, t, minor, hs) = match parse_head(&head) {
        Err(err) => {
            return Err(err);
        },
        Ok(p) => p,
    };
    match find_content_length(&hs) {
        None => {
            let req = Request {
                method: m,
                target: t,
                minor,
                headers: hs,
                body: BodyReader::Empty,
            };
            Ok(Some((req, Some(stream))))
        },
        Some(ix) => {
            proof {
                assert(hviews(hs@)[ix as int] == hs@[ix as int]@);
            }
            match parse_usize(&hs[ix].value) {
                None => Err(DecodeError::InvalidContentLength),
                Some(n) => {
                    let req = Request {
                        method: m,
                        target: t,
                        minor,
                        headers: hs,
                        body: BodyReader::Fixed { stream, len: n, read: 0 },
                    };
                    Ok(Some((req, None)))
                },
            }
        },
    }
}


/// Idempotent end-of-stream: two decode calls on a stream that closed
/// before delivering a complete head both return `Ok(None)` - never an
/// error - since the outcome is a function of the stream's bytes alone.
pub proof fn lemma_decode_eof_idempotent(
    input: Seq<u8>,
    r1: Result<Option<(Request, Option<ByteStream>)>, DecodeError>,
    r2: Result<Option<(Request, Option<ByteStream>)>, DecodeError>,
)
    requires
        head_end(input) is None,
        decode_post(input, r1),
        decode_post(input, r2),
    ensures
        r1 == Ok::<Option<(Request, Option<ByteStream>)>, DecodeError>(None),
        r2 == r1,
{
}

} // verus!
