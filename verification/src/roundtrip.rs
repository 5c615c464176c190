use vstd::prelude::*;
use crate::crlf;
use crate::decode::{
    MAX_HEADERS, cl_name, dec_value, find_byte_from, find_crlf_from, head_end, head_end_from,
    is_digits, is_tchar, is_term_at, is_token, name_eq_ci, ows_end, spec_parse_header_line,
    spec_parse_headers, value_byte_ok, value_ok,
};
use crate::encode::{
    http11_prefix, spec_cl_line, spec_dec, spec_encode_bytes, spec_head, spec_header_line,
    spec_header_lines, spec_reason, spec_status_line,
};
use crate::message::{DecodeError, HeaderV, RespV};

verus! {

// ---------------------------------------------------------------------------
// What a well-formed response is, for the purpose of wire round-tripping.
// ---------------------------------------------------------------------------

/// No carriage return or line feed anywhere in the line's content.
pub open spec fn line_clean(l: Seq<u8>) -> bool {
    forall|i: int| 0 <= i < l.len() ==> l[i] != 13 && l[i] != 10
}

/// A header line's content, without its terminator.
pub open spec fn header_content(h: HeaderV) -> Seq<u8> {
    h.name + seq![58u8, 32u8] + h.value
}

/// The status line's content, without its terminator.
pub open spec fn status_content(status: int) -> Seq<u8> {
    http11_prefix() + spec_dec(status) + seq![32u8] + spec_reason(status)
}

/// The `Content-Length` line's content, without its terminator.
pub open spec fn cl_content(n: int) -> Seq<u8> {
    cl_name() + seq![58u8, 32u8] + spec_dec(n)
}

/// A header field a peer can read back exactly: a token name, printable
/// value bytes, and no leading whitespace in the value (a reader strips it).
pub open spec fn header_parse_wf(h: HeaderV) -> bool {
    &&& is_token(h.name)
    &&& value_ok(h.value)
    &&& (h.value.len() > 0 ==> h.value[0] != 32 && h.value[0] != 9)
}

/// A header field the handler may set: readable back exactly, and not
/// itself a `Content-Length` field (the encoder adds that one).
pub open spec fn header_wf(h: HeaderV) -> bool {
    &&& header_parse_wf(h)
    &&& !name_eq_ci(h.name, cl_name())
}

/// A response whose wire encoding a peer can decode back exactly.
pub open spec fn resp_wf(rv: RespV) -> bool {
    &&& 0 <= rv.status
    &&& rv.headers.len() < MAX_HEADERS
    &&& forall|i: int| 0 <= i < rv.headers.len() ==> header_wf(#[trigger] rv.headers[i])
}

// ---------------------------------------------------------------------------
// Reading a response head back, at the spec level.
// ---------------------------------------------------------------------------

/// Parse `HTTP/1.1 <code> <reason>` back into the status code.
pub open spec fn spec_parse_status_line(l: Seq<u8>) -> Option<int> {
    if l.len() >= 9 && l.subrange(0, 9) == http11_prefix() {
        match find_byte_from(l, 32, 9) {
            None => {
                let code = l.subrange(9, l.len() as int);
                if is_digits(code) {
                    Some(dec_value(code))
                } else {
                    None
                }
            },
            Some(sp) => {
                let code = l.subrange(9, sp);
                if is_digits(code) {
                    Some(dec_value(code))
                } else {
                    None
                }
            },
        }
    } else {
        None
    }
}

/// Parse a whole response head, as the peer on the other end of the wire
/// would: status line first, then the header block up to the blank line.
pub open spec fn spec_parse_response_head(s: Seq<u8>) -> Option<(int, Seq<HeaderV>)> {
    match find_crlf_from(s, 0) {
        None => None,
        Some(i) => match spec_parse_status_line(s.subrange(0, i)) {
            None => None,
            Some(code) => match spec_parse_headers(s, i + 2, 0) {
                Err(_) => None,
                Ok(hs) => Some((code, hs)),
            },
        },
    }
}

// ---------------------------------------------------------------------------
// Small facts.
// ---------------------------------------------------------------------------

proof fn lemma_dec_props(n: int)
    requires
        n >= 0,
    ensures
        is_digits(spec_dec(n)),
        dec_value(spec_dec(n)) == n,
    decreases n,
{
    if n < 10 {
        assert(seq![(48 + n) as u8].drop_last() =~= Seq::<u8>::empty());
        assert(dec_value(Seq::<u8>::empty()) == 0);
    } else {
        lemma_dec_props(n / 10);
        let s = spec_dec(n);
        assert(s.drop_last() =~= spec_dec(n / 10));
        assert(dec_value(s) == dec_value(spec_dec(n / 10)) * 10 + ((48 + n % 10) as u8 - 48));
        assert forall|i: int| 0 <= i < s.len() implies 48 <= s[i] && s[i] <= 57 by {
            if i < s.len() - 1 {
                assert(s[i] == spec_dec(n / 10)[i]);
            }
        }
    }
}

proof fn lemma_find_byte_at(s: Seq<u8>, b: u8, i: int, t: int)
    requires
        0 <= i <= t,
        t < s.len(),
        s[t] == b,
        forall|j: int| i <= j < t ==> s[j] != b,
    ensures
        find_byte_from(s, b, i) == Some(t),
    decreases t - i,
{
    if i < t {
        lemma_find_byte_at(s, b, i + 1, t);
    }
}

proof fn lemma_find_crlf_at(s: Seq<u8>, i: int, t: int)
    requires
        0 <= i <= t,
        t + 2 <= s.len(),
        s[t] == 13,
        s[t + 1] == 10,
        forall|j: int| i <= j < t ==> !(#[trigger] s[j] == 13 && s[j + 1] == 10),
    ensures
        find_crlf_from(s, i) == Some(t),
    decreases t - i,
{
    if i < t {
        lemma_find_crlf_at(s, i + 1, t);
    }
}

proof fn lemma_head_end_at(s: Seq<u8>, i: int, t: int)
    requires
        0 <= i <= t,
        is_term_at(s, t),
        forall|j: int| i <= j < t ==> !is_term_at(s, j),
    ensures
        head_end_from(s, i) == Some(t + 4),
    decreases t - i,
{
    if i < t {
        lemma_head_end_at(s, i + 1, t);
    }
}

proof fn lemma_header_content_clean(h: HeaderV)
    requires
        header_parse_wf(h),
    ensures
        line_clean(header_content(h)),
        header_content(h).len() > 0,
        header_content(h)[0] != 13,
{
    let c = header_content(h);
    assert forall|i: int| 0 <= i < c.len() implies c[i] != 13 && c[i] != 10 by {
        if i < h.name.len() {
            assert(c[i] == h.name[i]);
            assert(is_tchar(h.name[i]));
        } else if i == h.name.len() {
            assert(c[i] == 58);
        } else if i == h.name.len() + 1 {
            assert(c[i] == 32);
        } else {
            assert(c[i] == h.value[i - h.name.len() - 2]);
            assert(value_byte_ok(h.value[i - h.name.len() - 2]));
        }
    }
    assert(c[0] == h.name[0]);
    assert(is_tchar(h.name[0]));
}

proof fn lemma_reason_clean(status: int)
    ensures
        line_clean(spec_reason(status)),
        spec_reason(status).len() > 0,
{
    assert forall|i: int| 0 <= i < spec_reason(status).len() implies spec_reason(status)[i] != 13
        && spec_reason(status)[i] != 10 by {}
}

proof fn lemma_status_content_clean(status: int)
    requires
        status >= 0,
    ensures
        line_clean(status_content(status)),
        status_content(status).len() > 0,
        status_content(status)[0] == 72,
{
    lemma_dec_props(status);
    lemma_reason_clean(status);
    let c = status_content(status);
    let d = spec_dec(status);
    assert forall|i: int| 0 <= i < c.len() implies c[i] != 13 && c[i] != 10 by {
        if i < 9 {
            assert(c[i] == http11_prefix()[i]);
        } else if i < 9 + d.len() {
            assert(c[i] == d[i - 9]);
            assert(48 <= d[i - 9] && d[i - 9] <= 57);
        } else if i == 9 + d.len() {
            assert(c[i] == 32);
        } else {
            assert(c[i] == spec_reason(status)[i - 9 - d.len() - 1]);
        }
    }
    assert(c[0] == http11_prefix()[0]);
}

proof fn lemma_cl_content_clean(n: int)
    requires
        n >= 0,
    ensures
        line_clean(cl_content(n)),
        cl_content(n).len() > 0,
        cl_content(n)[0] == 67,
{
    lemma_dec_props(n);
    let c = cl_content(n);
    let d = spec_dec(n);
    assert forall|i: int| 0 <= i < c.len() implies c[i] != 13 && c[i] != 10 by {
        if i < 14 {
            assert(c[i] == cl_name()[i]);
        } else if i < 16 {
            assert(c[i] == seq![58u8, 32u8][i - 14]);
        } else {
            assert(c[i] == d[i - 16]);
            assert(48 <= d[i - 16] && d[i - 16] <= 57);
        }
    }
    assert(c[0] == cl_name()[0]);
}

// ---------------------------------------------------------------------------
// Where the head terminator falls in an encoded response.
// ---------------------------------------------------------------------------

proof fn lemma_scan_headers(w: Seq<u8>, at: int, hs: Seq<HeaderV>)
    requires
        0 <= at,
        at + spec_header_lines(hs).len() + 2 <= w.len(),
        w.subrange(at, at + spec_header_lines(hs).len() + 2) == spec_header_lines(hs) + crlf(),
        forall|k: int| 0 <= k < hs.len() ==> header_parse_wf(#[trigger] hs[k]),
        hs.len() > 0,
    ensures
        forall|j: int| at <= j < at + spec_header_lines(hs).len() - 2 ==> !is_term_at(w, j),
        is_term_at(w, at + spec_header_lines(hs).len() - 2),
    decreases hs.len(),
{
    let h = spec_header_lines(hs);
    let v = h + crlf();
    let c0 = header_content(hs[0]);
    lemma_header_content_clean(hs[0]);
    assert(spec_header_line(hs[0]) =~= c0 + crlf());
    assert(h == spec_header_line(hs[0]) + spec_header_lines(hs.skip(1)));
    assert forall|x: int| 0 <= x < v.len() implies w[at + x] == v[x] by {
        assert(v[x] == w.subrange(at, at + h.len() + 2)[x]);
    }
    if hs.len() == 1 {
        assert(hs.skip(1).len() == 0);
        assert(spec_header_lines(hs.skip(1)) == Seq::<u8>::empty());
        assert(h =~= c0 + crlf());
        assert(w[at + c0.len()] == v[c0.len() as int]);
        assert(v[c0.len() as int] == 13);
        assert(v[c0.len() as int + 1] == 10);
        assert(v[c0.len() as int + 2] == 13);
        assert(v[c0.len() as int + 3] == 10);
        assert(is_term_at(w, at + c0.len()));
        assert(at + h.len() - 2 == at + c0.len());
        assert forall|j: int| at <= j < at + h.len() - 2 implies !is_term_at(w, j) by {
            let x = j - at;
            assert(w[j] == v[x]);
            assert(v[x] == c0[x]);
            assert(c0[x] != 13);
        }
    } else {
        let rest = hs.skip(1);
        let hr = spec_header_lines(rest);
        assert(rest.len() > 0);
        assert forall|k: int| 0 <= k < rest.len() implies header_parse_wf(#[trigger] rest[k]) by {
            assert(rest[k] == hs[k + 1]);
        }
        lemma_header_content_clean(rest[0]);
        assert(hr == spec_header_line(rest[0]) + spec_header_lines(rest.skip(1)));
        assert(spec_header_line(rest[0]) =~= header_content(rest[0]) + crlf());
        assert(hr[0] == header_content(rest[0])[0]);
        assert(hr[0] != 13);
        let at2 = at + c0.len() + 2;
        assert(h.len() == c0.len() + 2 + hr.len());
        assert forall|x: int| 0 <= x < hr.len() + 2 implies w.subrange(
            at2,
            at2 + hr.len() + 2,
        )[x] == (hr + crlf())[x] by {
            assert(w.subrange(at2, at2 + hr.len() + 2)[x] == w[at2 + x]);
            assert(w[at2 + x] == v[c0.len() as int + 2 + x]);
            assert(v[c0.len() as int + 2 + x] == (hr + crlf())[x]);
        }
        assert(w.subrange(at2, at2 + hr.len() + 2) =~= hr + crlf());
        lemma_scan_headers(w, at2, rest);
        assert(at2 + hr.len() - 2 == at + h.len() - 2);
        assert(is_term_at(w, at + h.len() - 2));
        assert forall|j: int| at <= j < at + h.len() - 2 implies !is_term_at(w, j) by {
            let x = j - at;
            if x < c0.len() {
                assert(w[j] == v[x]);
                assert(v[x] == c0[x]);
                assert(c0[x] != 13);
            } else if x == c0.len() {
                assert(w[j + 2] == v[x + 2]);
                assert(v[x + 2] == hr[0]);
                assert(w[j + 2] != 13);
            } else if x == c0.len() + 1 {
                assert(w[j] == v[x]);
                assert(v[x] == 10);
            } else {
                assert(at2 <= j < at2 + hr.len() - 2);
                assert(!is_term_at(w, j));
            }
        }
    }
}

/// The first head terminator in an encoded response stands exactly at the
/// end of the head: the head section ends with a single blank line and no
/// more, and exactly the declared body bytes follow it.
pub proof fn lemma_head_framing(rv: RespV)
    requires
        resp_wf(rv),
    ensures
        head_end(spec_encode_bytes(rv)) == Some(spec_head(rv).len() as int),
        spec_encode_bytes(rv).skip(spec_head(rv).len() as int) == rv.body,
{
    let status = rv.status;
    let ln = rv.body.len() as int;
    let sl = status_content(status);
    let cc = cl_content(ln);
    let hl = spec_header_lines(rv.headers);
    let head = spec_head(rv);
    let w = spec_encode_bytes(rv);
    lemma_status_content_clean(status);
    lemma_cl_content_clean(ln);
    assert(spec_status_line(status) =~= sl + crlf());
    assert(spec_cl_line(ln) =~= cc + crlf());
    assert(head =~= sl + crlf() + cc + crlf() + (hl + crlf()));
    let a1 = sl.len() as int + 2;
    let a2 = a1 + cc.len() as int + 2;
    assert(head.len() == a2 + hl.len() + 2);
    assert forall|x: int| 0 <= x < head.len() implies w[x] == head[x] by {}
    assert forall|x: int| 0 <= x < head.len() implies head[x] == (sl + crlf() + cc + crlf() + (
    hl + crlf()))[x] by {}
    if rv.headers.len() == 0 {
        assert(hl == Seq::<u8>::empty());
        assert(w[a1 + cc.len() as int] == 13);
        assert(w[a1 + cc.len() as int + 1] == 10);
        assert(w[a1 + cc.len() as int + 2] == 13);
        assert(w[a1 + cc.len() as int + 3] == 10);
        assert(is_term_at(w, a1 + cc.len() as int));
        assert(a1 + cc.len() as int == head.len() - 4);
        assert forall|j: int| 0 <= j < head.len() - 4 implies !is_term_at(w, j) by {
            if j < sl.len() {
                assert(w[j] == sl[j]);
            } else if j == sl.len() {
                assert(w[j + 2] == cc[0]);
                assert(w[j + 2] != 13);
            } else if j == sl.len() + 1 {
                assert(w[j] == 10);
            } else {
                assert(w[j] == cc[j - a1]);
            }
        }
        lemma_head_end_at(w, 0, head.len() - 4);
    } else {
        assert(hl == spec_header_line(rv.headers[0]) + spec_header_lines(rv.headers.skip(1)));
        lemma_header_content_clean(rv.headers[0]);
        assert(spec_header_line(rv.headers[0]) =~= header_content(rv.headers[0]) + crlf());
        assert(hl[0] == header_content(rv.headers[0])[0]);
        assert(hl[0] != 13);
        assert forall|x: int| 0 <= x < hl.len() + 2 implies w.subrange(a2, a2 + hl.len() + 2)[x]
            == (hl + crlf())[x] by {
            assert(w.subrange(a2, a2 + hl.len() + 2)[x] == w[a2 + x]);
        }
        assert(w.subrange(a2, a2 + hl.len() + 2) =~= hl + crlf());
        lemma_scan_headers(w, a2, rv.headers);
        assert(is_term_at(w, a2 + hl.len() - 2));
        assert(a2 + hl.len() - 2 == head.len() - 4);
        assert forall|j: int| 0 <= j < head.len() - 4 implies !is_term_at(w, j) by {
            if j < sl.len() {
                assert(w[j] == sl[j]);
            } else if j == sl.len() {
                assert(w[j + 2] == cc[0]);
                assert(w[j + 2] != 13);
            } else if j == sl.len() + 1 {
                assert(w[j] == 10);
            } else if j < a1 + cc.len() {
                assert(w[j] == cc[j - a1]);
            } else if j == a1 + cc.len() {
                assert(w[j + 2] == hl[0]);
                assert(w[j + 2] != 13);
            } else if j == a1 + cc.len() + 1 {
                assert(w[j] == 10);
            } else {
                assert(a2 <= j < a2 + hl.len() - 2);
                assert(!is_term_at(w, j));
            }
        }
        lemma_head_end_at(w, 0, head.len() - 4);
    }
    assert(w.skip(head.len() as int) =~= rv.body);
}


// ---------------------------------------------------------------------------
// Reading the encoded head back.
// ---------------------------------------------------------------------------

proof fn lemma_parse_header_line_inv(h: HeaderV)
    requires
        header_parse_wf(h),
    ensures
        spec_parse_header_line(header_content(h)) == Ok::<HeaderV, DecodeError>(h),
{
    let line = header_content(h);
    let nl = h.name.len() as int;
    assert(line[nl] == 58);
    assert forall|j: int| 0 <= j < nl implies line[j] != 58 by {
        assert(line[j] == h.name[j]);
        assert(is_tchar(h.name[j]));
    }
    lemma_find_byte_at(line, 58, 0, nl);
    assert(line.subrange(0, nl) =~= h.name);
    assert(line[nl + 1] == 32);
    assert(ows_end(line, nl + 1) == ows_end(line, nl + 2));
    if h.value.len() > 0 {
        assert(line[nl + 2] == h.value[0]);
        assert(ows_end(line, nl + 2) == nl + 2);
    } else {
        assert(line.len() == nl + 2);
        assert(ows_end(line, nl + 2) == nl + 2);
    }
    assert(line.subrange(nl + 2, line.len() as int) =~= h.value);
}

proof fn lemma_parse_encoded_headers(w: Seq<u8>, at: int, hs: Seq<HeaderV>, count: int)
    requires
        0 <= at,
        0 <= count,
        count + hs.len() <= MAX_HEADERS,
        w.len() == at + spec_header_lines(hs).len() + 2,
        w.subrange(at, w.len() as int) == spec_header_lines(hs) + crlf(),
        forall|k: int| 0 <= k < hs.len() ==> header_parse_wf(#[trigger] hs[k]),
    ensures
        spec_parse_headers(w, at, count) == Ok::<Seq<HeaderV>, DecodeError>(hs),
    decreases hs.len(),
{
    let h = spec_header_lines(hs);
    let v = h + crlf();
    assert forall|x: int| 0 <= x < v.len() implies w[at + x] == v[x] by {
        assert(v[x] == w.subrange(at, w.len() as int)[x]);
    }
    if hs.len() == 0 {
        assert(h == Seq::<u8>::empty());
        assert(w[at] == 13);
        assert(w[at + 1] == 10);
        assert(find_crlf_from(w, at) == Some(at));
        assert(hs =~= Seq::<HeaderV>::empty());
    } else {
        let c0 = header_content(hs[0]);
        lemma_header_content_clean(hs[0]);
        assert(spec_header_line(hs[0]) =~= c0 + crlf());
        assert(h == spec_header_line(hs[0]) + spec_header_lines(hs.skip(1)));
        let t = at + c0.len() as int;
        assert(w[t] == v[c0.len() as int]);
        assert(w[t] == 13);
        assert(w[t + 1] == v[c0.len() as int + 1]);
        assert(v[c0.len() as int + 1] == 10);
        assert(w[t + 1] == 10);
        assert forall|j: int| at <= j < t implies !(#[trigger] w[j] == 13 && w[j + 1] == 10) by {
            assert(w[j] == v[j - at]);
            assert(v[j - at] == c0[j - at]);
        }
        lemma_find_crlf_at(w, at, t);
        assert(w.subrange(at, t) =~= c0);
        lemma_parse_header_line_inv(hs[0]);
        let rest = hs.skip(1);
        let hr = spec_header_lines(rest);
        assert forall|k: int| 0 <= k < rest.len() implies header_parse_wf(#[trigger] rest[k]) by {
            assert(rest[k] == hs[k + 1]);
        }
        assert forall|x: int| 0 <= x < hr.len() + 2 implies w.subrange(t + 2, w.len() as int)[x]
            == (hr + crlf())[x] by {
            assert(w.subrange(t + 2, w.len() as int)[x] == w[t + 2 + x]);
            assert(w[t + 2 + x] == v[c0.len() as int + 2 + x]);
            assert(v[c0.len() as int + 2 + x] == (hr + crlf())[x]);
        }
        assert(w.subrange(t + 2, w.len() as int) =~= hr + crlf());
        lemma_parse_encoded_headers(w, t + 2, rest, count + 1);
        assert(seq![hs[0]] + rest =~= hs);
        assert(t != at);
        assert(count < MAX_HEADERS);
        assert(spec_parse_headers(w, at, count) == Ok::<Seq<HeaderV>, DecodeError>(
            seq![hs[0]] + rest,
        ));
    }
}

proof fn lemma_parse_status_line_inv(status: int)
    requires
        status >= 0,
    ensures
        spec_parse_status_line(status_content(status)) == Some(status),
{
    let l = status_content(status);
    let d = spec_dec(status);
    lemma_dec_props(status);
    lemma_reason_clean(status);
    assert(l.subrange(0, 9) =~= http11_prefix());
    let t = 9 + d.len() as int;
    assert(l[t] == 32);
    assert forall|j: int| 9 <= j < t implies l[j] != 32 by {
        assert(l[j] == d[j - 9]);
        assert(48 <= d[j - 9] && d[j - 9] <= 57);
    }
    lemma_find_byte_at(l, 32, 9, t);
    assert(l.subrange(9, t) =~= d);
}

// ---------------------------------------------------------------------------
// The laws.
// ---------------------------------------------------------------------------

/// The `Content-Length` field the encoder itself adds for a body of `n`
/// bytes.
pub open spec fn cl_header(n: int) -> HeaderV {
    HeaderV { name: cl_name(), value: spec_dec(n) }
}

proof fn lemma_cl_header_parse_wf(n: int)
    requires
        n >= 0,
    ensures
        header_parse_wf(cl_header(n)),
{
    lemma_dec_props(n);
    let h = cl_header(n);
    assert forall|i: int| 0 <= i < h.name.len() implies is_tchar(h.name[i]) by {}
    assert forall|i: int| 0 <= i < h.value.len() implies value_byte_ok(h.value[i]) by {
        assert(48 <= h.value[i] && h.value[i] <= 57);
    }
    assert(48 <= h.value[0] && h.value[0] <= 57);
}

/// Round-trip framing: for any well-formed response with a body of known
/// length, the encoded bytes decode back, as the peer would read them, to
/// the same status code, the encoder's own `Content-Length` field followed
/// by exactly the response's own header fields, and exactly the body's
/// bytes after the head; and the head section ends at the first blank
/// line and no earlier.
pub proof fn lemma_round_trip(rv: RespV)
    requires
        resp_wf(rv),
    ensures
        head_end(spec_encode_bytes(rv)) == Some(spec_head(rv).len() as int),
        spec_encode_bytes(rv).skip(spec_head(rv).len() as int) == rv.body,
        spec_parse_response_head(spec_head(rv)) == Some(
            (rv.status, seq![cl_header(rv.body.len() as int)] + rv.headers),
        ),
{
    lemma_head_framing(rv);
    let status = rv.status;
    let ln = rv.body.len() as int;
    let s = spec_head(rv);
    let sl = status_content(status);
    lemma_status_content_clean(status);
    lemma_cl_content_clean(ln);
    lemma_cl_header_parse_wf(ln);
    assert(spec_status_line(status) =~= sl + crlf());
    assert(spec_cl_line(ln) =~= cl_content(ln) + crlf());
    let all = seq![cl_header(ln)] + rv.headers;
    assert(header_content(cl_header(ln)) =~= cl_content(ln));
    assert(all[0] == cl_header(ln));
    assert(all.skip(1) =~= rv.headers);
    assert(spec_header_lines(all) == spec_header_line(all[0]) + spec_header_lines(all.skip(1)));
    assert(spec_header_line(cl_header(ln)) =~= cl_content(ln) + crlf());
    let t0 = sl.len() as int;
    // the status line is the first line of the head
    assert(s =~= sl + crlf() + (spec_header_lines(all) + crlf()));
    assert(s[t0] == 13);
    assert(s[t0 + 1] == 10);
    assert forall|j: int| 0 <= j < t0 implies !(#[trigger] s[j] == 13 && s[j + 1] == 10) by {
        assert(s[j] == sl[j]);
        assert(sl[j] != 13);
    }
    lemma_find_crlf_at(s, 0, t0);
    assert(s.subrange(0, t0) =~= sl);
    lemma_parse_status_line_inv(status);
    assert forall|k: int| 0 <= k < all.len() implies header_parse_wf(#[trigger] all[k]) by {
        if k > 0 {
            assert(all[k] == rv.headers[k - 1]);
            assert(header_wf(rv.headers[k - 1]));
        }
    }
    assert forall|x: int| 0 <= x < spec_header_lines(all).len() + 2 implies s.subrange(
        t0 + 2,
        s.len() as int,
    )[x] == (spec_header_lines(all) + crlf())[x] by {
        assert(s.subrange(t0 + 2, s.len() as int)[x] == s[t0 + 2 + x]);
        assert(s[t0 + 2 + x] == (sl + crlf() + (spec_header_lines(all) + crlf()))[t0 + 2 + x]);
    }
    assert(s.len() == t0 + 2 + spec_header_lines(all).len() + 2);
    assert(s.subrange(t0 + 2, s.len() as int) =~= spec_header_lines(all) + crlf());
    assert(all.len() <= MAX_HEADERS);
    lemma_parse_encoded_headers(s, t0 + 2, all, 0);
}

/// `Content-Length` correctness: the encoder writes exactly one
/// `Content-Length` field, its value denotes exactly the number of bytes
/// the body will yield, and nothing beyond the response's own fields is
/// added (in particular no transfer-coding header).
pub proof fn lemma_content_length(rv: RespV)
    requires
        resp_wf(rv),
    ensures
        ({
            let parsed = spec_parse_response_head(spec_head(rv));
            match parsed {
                Some((code, hs)) => {
                    &&& hs.len() == 1 + rv.headers.len()
                    &&& hs[0].name == cl_name()
                    &&& is_digits(hs[0].value)
                    &&& dec_value(hs[0].value) == rv.body.len()
                    &&& forall|i: int|
                        1 <= i < hs.len() ==> #[trigger] hs[i] == rv.headers[i - 1]
                            && !name_eq_ci(hs[i].name, cl_name())
                },
                None => false,
            }
        }),
{
    lemma_round_trip(rv);
    lemma_dec_props(rv.body.len() as int);
    let all = seq![cl_header(rv.body.len() as int)] + rv.headers;
    assert forall|i: int| 1 <= i < all.len() implies #[trigger] all[i] == rv.headers[i - 1]
        && !name_eq_ci(all[i].name, cl_name()) by {
        assert(all[i] == rv.headers[i - 1]);
        assert(header_wf(rv.headers[i - 1]));
    }
}


} // verus!
