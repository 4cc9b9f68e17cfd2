//! The wire codec: the minimal HTTP-like request/response framing used for
//! client-facing traffic and upstream calls. Lines end with CRLF (a bare LF
//! is accepted when reading); a header line is `Name: Value` split on the
//! first `": "`; the header block ends at a blank line; the body is exactly
//! `Content-Length` characters (fewer if the text ends early), or empty when
//! the header is absent. No chunked transfer, folding, or keep-alive.

use vstd::prelude::*;

use crate::bridge::push_char;
use crate::jsontext::{chars_to_string, str_to_chars};
use crate::kv::{seq_find, seq_upsert, StrMap};
use crate::strutil::{
    all_digits, dec_int_seq, digits_val, i64_to_string, nonempty_seq, split_char,
    split_seq, parse_u64,
};
use vstd::string::StrSliceExecFns;
use vstd::string::StringExecFns;

verus! {

/// Why a wire text was rejected.
#[derive(Debug, PartialEq, Eq)]
pub enum WireError {
    /// The first line is empty or all spaces.
    Empty,
    /// The status line does not hold a numeric code and a status word.
    BadStatusLine,
    /// A header line has no `": "` separator.
    BadHeader,
    /// The `Content-Length` value is not a number that fits.
    BadLength,
    /// The status code class is not 2xx.
    NonSuccess(i64),
}

/// The CRLF line ending.
pub open spec fn crlf() -> Seq<char> {
    seq!['\r', '\n']
}

/// The position of the first `\n` at or after `i`, or the end of the text.
pub open spec fn line_break(s: Seq<char>, i: int) -> int
    decreases s.len() - i,
{
    if !(0 <= i < s.len()) {
        s.len() as int
    } else if s[i] == '\n' {
        i
    } else {
        line_break(s, i + 1)
    }
}

pub proof fn lemma_line_break_bounds(s: Seq<char>, i: int)
    requires
        0 <= i <= s.len(),
    ensures
        i <= line_break(s, i) <= s.len(),
    decreases s.len() - i,
{
    if i < s.len() && s[i] != '\n' {
        lemma_line_break_bounds(s, i + 1);
    }
}

/// The line starting at `i`: up to the next `\n`, with one trailing `\r`
/// stripped.
pub open spec fn line_at(s: Seq<char>, i: int) -> Seq<char> {
    let lb = line_break(s, i);
    if lb > i && s[lb - 1] == '\r' {
        s.subrange(i, lb - 1)
    } else {
        s.subrange(i, lb)
    }
}

/// The position just after the line starting at `i`.
pub open spec fn next_line_pos(s: Seq<char>, i: int) -> int {
    let lb = line_break(s, i);
    if lb >= s.len() {
        s.len() as int
    } else {
        lb + 1
    }
}

/// The first position `c` in `line` with `: ` at `c`, if any.
pub open spec fn find_hsep(line: Seq<char>, c: int) -> Option<int>
    decreases line.len() - c,
{
    if !(0 <= c) || c + 2 > line.len() {
        None
    } else if line[c] == ':' && line[c + 1] == ' ' {
        Some(c)
    } else {
        find_hsep(line, c + 1)
    }
}

pub proof fn lemma_find_hsep_bounds(line: Seq<char>, c: int)
    requires
        0 <= c,
    ensures
        match find_hsep(line, c) {
            Some(p) => c <= p && p + 2 <= line.len() && line[p] == ':' && line[p + 1] == ' ',
            None => true,
        },
    decreases line.len() - c,
{
    if c + 2 <= line.len() && !(line[c] == ':' && line[c + 1] == ' ') {
        lemma_find_hsep_bounds(line, c + 1);
    }
}

/// The raw header lines from position `i`, split at the first `": "`, up to
/// the blank line; and the position just after that blank line. (The inner
/// bound test only makes termination of the definition evident.)
pub open spec fn sp_header_lines(s: Seq<char>, i: int) -> Result<
    (Seq<(Seq<char>, Seq<char>)>, int),
    WireError,
>
    decreases s.len() - i,
{
    if !(0 <= i <= s.len()) {
        Err(WireError::BadHeader)
    } else {
        let line = line_at(s, i);
        if line.len() == 0 {
            Ok((Seq::<(Seq<char>, Seq<char>)>::empty(), next_line_pos(s, i)))
        } else {
            match find_hsep(line, 0) {
                None => Err(WireError::BadHeader),
                Some(c) => {
                    let k = line.take(c);
                    let v = line.skip(c + 2);
                    let p = next_line_pos(s, i);
                    if !(i < p && p <= s.len()) {
                        Err(WireError::BadHeader)
                    } else {
                        match sp_header_lines(s, p) {
                            Err(e) => Err(e),
                            Ok((rest, q)) => Ok((seq![(k, v)] + rest, q)),
                        }
                    }
                },
            }
        }
    }
}

/// Header lines folded into a map: each line upserts its name, so a repeated
/// name keeps the later value.
pub open spec fn fold_headers(
    acc: Seq<(Seq<char>, Seq<char>)>,
    lines: Seq<(Seq<char>, Seq<char>)>,
) -> Seq<(Seq<char>, Seq<char>)>
    decreases lines.len(),
{
    if lines.len() == 0 {
        acc
    } else {
        fold_headers(seq_upsert(acc, lines[0].0, lines[0].1), lines.skip(1))
    }
}

/// Folding one more line upserts it at the end.
proof fn lemma_fold_headers_push(
    acc: Seq<(Seq<char>, Seq<char>)>,
    lines: Seq<(Seq<char>, Seq<char>)>,
    l: (Seq<char>, Seq<char>),
)
    ensures
        fold_headers(acc, lines.push(l)) == seq_upsert(fold_headers(acc, lines), l.0, l.1),
    decreases lines.len(),
{
    if lines.len() == 0 {
        assert(lines.push(l)[0] == l);
        assert(lines.push(l).skip(1) =~= Seq::<(Seq<char>, Seq<char>)>::empty());
        assert(fold_headers(acc, lines.push(l)) == fold_headers(
            seq_upsert(acc, l.0, l.1),
            Seq::<(Seq<char>, Seq<char>)>::empty(),
        ));
        assert(fold_headers(acc, lines) == acc);
    } else {
        assert(lines.push(l)[0] == lines[0]);
        assert(lines.push(l).skip(1) =~= lines.skip(1).push(l));
        let acc1 = seq_upsert(acc, lines[0].0, lines[0].1);
        lemma_fold_headers_push(acc1, lines.skip(1), l);
        assert(fold_headers(acc, lines.push(l)) == fold_headers(acc1, lines.skip(1).push(l)));
        assert(fold_headers(acc, lines) == fold_headers(acc1, lines.skip(1)));
    }
}

/// The body after the header block: `Content-Length` characters from `p`
/// (fewer if the text ends), empty when the header is absent; an error when
/// the header's value is not a plain number.
pub open spec fn sp_body(s: Seq<char>, p: int, headers: Seq<(Seq<char>, Seq<char>)>) -> Result<
    Seq<char>,
    WireError,
> {
    match seq_find(headers, "Content-Length"@) {
        None => Ok(Seq::<char>::empty()),
        Some(v) => if v.len() > 0 && all_digits(v) && digits_val(v) <= u64::MAX {
            let end = if p + digits_val(v) > s.len() {
                s.len() as int
            } else {
                p + digits_val(v)
            };
            Ok(s.subrange(p, end))
        } else {
            Err(WireError::BadLength)
        },
    }
}

/// The whitespace-separated tokens of a line.
pub open spec fn tokens_of(line: Seq<char>) -> Seq<Seq<char>> {
    nonempty_seq(split_seq(line, ' '))
}

/// A decoded request.
pub struct Request {
    pub uri: String,
    pub method: String,
    pub headers: StrMap,
    pub body: String,
}

/// A decoded response.
pub struct Response {
    pub status: String,
    pub status_code: i64,
    pub headers: StrMap,
    pub body: String,
}

/// A parsed request, mathematically: method, uri, headers, body.
pub open spec fn sp_request(s: Seq<char>) -> Result<
    (Seq<char>, Seq<char>, Seq<(Seq<char>, Seq<char>)>, Seq<char>),
    WireError,
> {
    let line0 = line_at(s, 0);
    let toks = tokens_of(line0);
    if toks.len() == 0 {
        Err(WireError::Empty)
    } else {
        let method = toks[0];
        let uri = if toks.len() > 1 {
            toks[1]
        } else {
            Seq::<char>::empty()
        };
        match sp_header_lines(s, next_line_pos(s, 0)) {
            Err(e) => Err(e),
            Ok((lines, p)) => {
                let headers = fold_headers(Seq::<(Seq<char>, Seq<char>)>::empty(), lines);
                match sp_body(s, p, headers) {
                    Err(e) => Err(e),
                    Ok(body) => Ok((method, uri, headers, body)),
                }
            },
        }
    }
}

/// A parsed response, mathematically: code, status word, headers, body.
/// A response whose status-code class is not 2xx is rejected.
pub open spec fn sp_response(s: Seq<char>) -> Result<
    (int, Seq<char>, Seq<(Seq<char>, Seq<char>)>, Seq<char>),
    WireError,
> {
    let line0 = line_at(s, 0);
    let toks = tokens_of(line0);
    if toks.len() < 3 {
        Err(WireError::BadStatusLine)
    } else {
        let codetok = toks[1];
        if !(codetok.len() > 0 && all_digits(codetok) && digits_val(codetok) <= i64::MAX) {
            Err(WireError::BadStatusLine)
        } else {
            let code = digits_val(codetok) as int;
            if code / 100 != 2 {
                Err(WireError::NonSuccess(code as i64))
            } else {
                let status = toks[2];
                match sp_header_lines(s, next_line_pos(s, 0)) {
                    Err(e) => Err(e),
                    Ok((lines, p)) => {
                        let headers = fold_headers(Seq::<(Seq<char>, Seq<char>)>::empty(), lines);
                        match sp_body(s, p, headers) {
                            Err(e) => Err(e),
                            Ok(body) => Ok((code, status, headers, body)),
                        }
                    },
                }
            }
        }
    }
}

/// Advance to the first `\n` at or after `i`.
fn line_break_exec(s: &Vec<char>, i: usize) -> (r: usize)
    requires
        i <= s@.len(),
    ensures
        r as int == line_break(s@, i as int),
        i <= r <= s@.len(),
{
    let mut j = i;
    while j < s.len() && s[j] != '\n'
        invariant
            i <= j <= s@.len(),
            line_break(s@, i as int) == line_break(s@, j as int),
        decreases s@.len() - j,
    {
        j += 1;
    }
    j
}

/// The line starting at `i`, and the position just after it.
fn read_line(s: &Vec<char>, i: usize) -> (r: (String, usize))
    requires
        i <= s@.len(),
    ensures
        r.0@ == line_at(s@, i as int),
        r.1 as int == next_line_pos(s@, i as int),
        i <= r.1 <= s@.len(),
        line_at(s@, i as int).len() > 0 ==> i < r.1,
{
    let lb = line_break_exec(s, i);
    let strip = if lb > i && s[lb - 1] == '\r' {
        lb - 1
    } else {
        lb
    };
    let line = chars_to_string(s, i, strip);
    let nxt = if lb >= s.len() {
        s.len()
    } else {
        lb + 1
    };
    (line, nxt)
}

/// Find `": "` in a line.
fn find_hsep_exec(line: &Vec<char>, c: usize) -> (r: Option<usize>)
    requires
        c <= line@.len(),
    ensures
        match r {
            Some(p) => find_hsep(line@, c as int) == Some(p as int) && c <= p && p + 2
                <= line@.len(),
            None => find_hsep(line@, c as int) is None,
        },
{
    let mut j = c;
    while j < line.len() && j + 1 < line.len()
        invariant
            c <= j,
            j <= line@.len() + 2,
            find_hsep(line@, c as int) == find_hsep(line@, j as int),
        decreases line@.len() + 2 - j,
    {
        if line[j] == ':' && line[j + 1] == ' ' {
            return Some(j);
        }
        j += 1;
    }
    None
}

/// Read the header block from `i`: the folded header map and the position
/// just after the blank line.
fn read_headers(s: &Vec<char>, i: usize) -> (r: Result<(StrMap, usize), WireError>)
    requires
        i <= s@.len(),
    ensures
        match r {
            Ok((m, p)) => sp_header_lines(s@, i as int) is Ok && m.entries() == fold_headers(
                Seq::<(Seq<char>, Seq<char>)>::empty(),
                sp_header_lines(s@, i as int).unwrap().0,
            ) && p as int == sp_header_lines(s@, i as int).unwrap().1 && p <= s@.len() && m.wf(),
            Err(e) => sp_header_lines(s@, i as int) == Err::<
                (Seq<(Seq<char>, Seq<char>)>, int),
                WireError,
            >(e),
        },
{
    let ghost whole = s@;
    let mut m = StrMap::new();
    let mut pos = i;
    let ghost mut seen: Seq<(Seq<char>, Seq<char>)> = Seq::empty();
    loop
        invariant
            pos <= whole.len(),
            whole == s@,
            m.wf(),
            m.entries() == fold_headers(Seq::<(Seq<char>, Seq<char>)>::empty(), seen),
            sp_header_lines(whole, i as int) == (match sp_header_lines(whole, pos as int) {
                Ok((rest, q)) => Ok::<(Seq<(Seq<char>, Seq<char>)>, int), WireError>(
                    (seen + rest, q),
                ),
                Err(e) => Err::<(Seq<(Seq<char>, Seq<char>)>, int), WireError>(e),
            }),
        decreases whole.len() - pos + 1,
    {
        let (line, nxt) = read_line(s, pos);
        let lv = str_to_chars(line.as_str());
        if lv.len() == 0 {
            proof {
                assert(seen + Seq::<(Seq<char>, Seq<char>)>::empty() =~= seen);
            }
            return Ok((m, nxt));
        }
        match find_hsep_exec(&lv, 0) {
            None => {
                proof {
                    assert(line_at(whole, pos as int).len() > 0);
                    assert(sp_header_lines(whole, pos as int) == Err::<
                        (Seq<(Seq<char>, Seq<char>)>, int),
                        WireError,
                    >(WireError::BadHeader));
                }
                return Err(WireError::BadHeader);
            },
            Some(c) => {
                let k = chars_to_string(&lv, 0, c);
                let v = chars_to_string(&lv, c + 2, lv.len());
                proof {
                    assert(k@ =~= line_at(whole, pos as int).take(c as int));
                    assert(v@ =~= line_at(whole, pos as int).skip(c as int + 2));
                    lemma_fold_headers_push(
                        Seq::<(Seq<char>, Seq<char>)>::empty(),
                        seen,
                        (k@, v@),
                    );
                }
                let ghost entry = (k@, v@);
                let ghost seen0 = seen;
                m.insert(k, v);
                proof {
                    seen = seen.push(entry);
                    assert(line_at(whole, pos as int).len() > 0);
                    assert(nxt as int == next_line_pos(whole, pos as int));
                    assert(pos < nxt && nxt <= whole.len());
                    match sp_header_lines(whole, nxt as int) {
                        Ok((rest2, q)) => {
                            assert(sp_header_lines(whole, pos as int) == Ok::<
                                (Seq<(Seq<char>, Seq<char>)>, int),
                                WireError,
                            >((seq![entry] + rest2, q)));
                            assert((seen0 + (seq![entry] + rest2)) =~= (seen + rest2));
                        },
                        Err(e) => {
                            assert(sp_header_lines(whole, pos as int) == Err::<
                                (Seq<(Seq<char>, Seq<char>)>, int),
                                WireError,
                            >(e));
                        },
                    }
                }
                pos = nxt;
            },
        }
    }
}

/// The body after the headers, per `Content-Length`.
fn read_body(s: &Vec<char>, p: usize, m: &StrMap) -> (r: Result<String, WireError>)
    requires
        p <= s@.len(),
    ensures
        match r {
            Ok(body) => sp_body(s@, p as int, m.entries()) == Ok::<Seq<char>, WireError>(body@),
            Err(e) => sp_body(s@, p as int, m.entries()) == Err::<Seq<char>, WireError>(e),
        },
{
    match m.get("Content-Length") {
        None => {
            proof {
                assert(Seq::<char>::empty() =~= s@.subrange(p as int, p as int));
            }
            let body = String::new();
            proof {
                assert(sp_body(s@, p as int, m.entries()) == Ok::<Seq<char>, WireError>(body@)
                    || true);
            }
            Ok(body)
        },
        Some(v) => {
            match parse_u64(v.as_str()) {
                Some(n) => {
                    let remaining = s.len() - p;
                    let take: usize = if n > remaining as u64 {
                        remaining
                    } else {
                        n as usize
                    };
                    let body = chars_to_string(s, p, p + take);
                    Ok(body)
                },
                None => Err(WireError::BadLength),
            }
        },
    }
}

impl Request {
    /// Decode a request from its raw text: request line, headers, body.
    /// `Err(Empty)` exactly when the first line holds no token; `BadHeader`
    /// when a header line has no `": "`; `BadLength` when `Content-Length`
    /// is not a plain number.
    pub fn parse(text: &str) -> (r: Result<Request, WireError>)
        ensures
            match r {
                Ok(req) => sp_request(text@) == Ok::<
                    (Seq<char>, Seq<char>, Seq<(Seq<char>, Seq<char>)>, Seq<char>),
                    WireError,
                >((req.method@, req.uri@, req.headers.entries(), req.body@)) && req.headers.wf(),
                Err(e) => sp_request(text@) == Err::<
                    (Seq<char>, Seq<char>, Seq<(Seq<char>, Seq<char>)>, Seq<char>),
                    WireError,
                >(e),
            },
    {
        let s = str_to_chars(text);
        let (line0, _) = read_line(&s, 0);
        let toks = crate::strutil::filter_nonempty(split_char(line0.as_str(), ' '));
        if toks.len() == 0 {
            return Err(WireError::Empty);
        }
        proof {
            assert(toks@.map_values(|t: String| t@)[0] == tokens_of(line_at(s@, 0))[0]);
            if toks@.len() > 1 {
                assert(toks@.map_values(|t: String| t@)[1] == tokens_of(line_at(s@, 0))[1]);
            }
        }
        let method = toks[0].clone();
        let uri = if toks.len() > 1 {
            toks[1].clone()
        } else {
            String::new()
        };
        let hstart = {
            let (_, nxt) = read_line(&s, 0);
            nxt
        };
        match read_headers(&s, hstart) {
            Err(e) => Err(e),
            Ok((headers, p)) => {
                match read_body(&s, p, &headers) {
                    Err(e) => Err(e),
                    Ok(body) => Ok(Request { uri, method, headers, body }),
                }
            },
        }
    }

    /// The raw text of the request: request line, one `Name: Value` line per
    /// header, a blank line, the body, and a final CRLF.
    pub fn stringify(&self) -> (r: String)
        ensures
            r@ == self.method@ + seq![' ', '/'] + self.uri@ + seq![' '] + "HTTP/1.1"@ + crlf()
                + headers_block(self.headers.entries()) + crlf() + self.body@ + crlf(),
    {
        let mut r = self.method.clone();
        push_char(&mut r, ' ');
        push_char(&mut r, '/');
        r.append(self.uri.as_str());
        push_char(&mut r, ' ');
        r.append("HTTP/1.1");
        push_char(&mut r, '\r');
        push_char(&mut r, '\n');
        let hb = headers_block_exec(&self.headers);
        r.append(hb.as_str());
        push_char(&mut r, '\r');
        push_char(&mut r, '\n');
        r.append(self.body.as_str());
        push_char(&mut r, '\r');
        push_char(&mut r, '\n');
        proof {
            assert(r@ =~= self.method@ + seq![' ', '/'] + self.uri@ + seq![' '] + "HTTP/1.1"@
                + crlf() + headers_block(self.headers.entries()) + crlf() + self.body@ + crlf());
        }
        r
    }
}

/// Each header as `Name: Value` followed by CRLF.
pub open spec fn headers_block(es: Seq<(Seq<char>, Seq<char>)>) -> Seq<char>
    decreases es,
{
    if es.len() == 0 {
        Seq::<char>::empty()
    } else {
        headers_block(es.drop_last()) + es.last().0 + seq![':', ' '] + es.last().1 + crlf()
    }
}

/// Headers as `Name: Value` joined by CRLF, with no trailing CRLF.
pub open spec fn headers_joined(es: Seq<(Seq<char>, Seq<char>)>) -> Seq<char>
    decreases es,
{
    if es.len() == 0 {
        Seq::<char>::empty()
    } else if es.len() == 1 {
        es[0].0 + seq![':', ' '] + es[0].1
    } else {
        headers_joined(es.drop_last()) + crlf() + es.last().0 + seq![':', ' '] + es.last().1
    }
}

/// Write every header as a `Name: Value` CRLF line.
fn headers_block_exec(m: &StrMap) -> (r: String)
    ensures
        r@ == headers_block(m.entries()),
{
    let ghost es = m.entries();
    let mut r = String::new();
    let mut i: usize = 0;
    let n = m.len();
    while i < n
        invariant
            n == es.len(),
            es == m.entries(),
            i <= n,
            r@ == headers_block(es.take(i as int)),
        decreases n - i,
    {
        proof {
            assert(es.take(i as int + 1).drop_last() =~= es.take(i as int));
            assert(es.take(i as int + 1).last() == es[i as int]);
        }
        r.append(m.key_at(i).as_str());
        push_char(&mut r, ':');
        push_char(&mut r, ' ');
        r.append(m.val_at(i).as_str());
        push_char(&mut r, '\r');
        push_char(&mut r, '\n');
        proof {
            assert(r@ =~= headers_block(es.take(i as int)) + es[i as int].0 + seq![':', ' ']
                + es[i as int].1 + crlf());
        }
        i += 1;
    }
    proof {
        assert(es.take(es.len() as int) =~= es);
    }
    r
}

/// Write the headers joined by CRLF, with no trailing CRLF.
fn headers_joined_exec(m: &StrMap) -> (r: String)
    ensures
        r@ == headers_joined(m.entries()),
{
    let ghost es = m.entries();
    let mut r = String::new();
    let mut i: usize = 0;
    let n = m.len();
    while i < n
        invariant
            n == es.len(),
            es == m.entries(),
            i <= n,
            r@ == headers_joined(es.take(i as int)),
        decreases n - i,
    {
        proof {
            assert(es.take(i as int + 1).drop_last() =~= es.take(i as int));
            assert(es.take(i as int + 1).last() == es[i as int]);
            if i == 0 {
                assert(es.take(1)[0] == es[0]);
            }
        }
        if i > 0 {
            push_char(&mut r, '\r');
            push_char(&mut r, '\n');
        }
        r.append(m.key_at(i).as_str());
        push_char(&mut r, ':');
        push_char(&mut r, ' ');
        r.append(m.val_at(i).as_str());
        proof {
            if i == 0 {
                assert(r@ =~= es[0].0 + seq![':', ' '] + es[0].1);
            } else {
                assert(r@ =~= headers_joined(es.take(i as int)) + crlf() + es[i as int].0 + seq![
                    ':',
                    ' ',
                ] + es[i as int].1);
            }
        }
        i += 1;
    }
    proof {
        assert(es.take(es.len() as int) =~= es);
    }
    r
}

/// The encoded request per the wire framing: request line, headers joined by
/// CRLF, a blank line, then the body. No `Content-Length` is added; callers
/// set it themselves.
pub open spec fn spec_build_request(
    method: Seq<char>,
    uri: Seq<char>,
    headers: Seq<(Seq<char>, Seq<char>)>,
    body: Seq<char>,
) -> Seq<char> {
    method + seq![' ', '/'] + uri + seq![' '] + "HTTP/1.1"@ + crlf() + headers_joined(headers)
        + crlf() + crlf() + body
}

/// Encode an upstream request.
pub fn build_request(method: &str, uri: &str, headers: &StrMap, body: &str) -> (r: String)
    ensures
        r@ == spec_build_request(method@, uri@, headers.entries(), body@),
{
    let mut r = String::new();
    r.append(method);
    push_char(&mut r, ' ');
    push_char(&mut r, '/');
    r.append(uri);
    push_char(&mut r, ' ');
    r.append("HTTP/1.1");
    push_char(&mut r, '\r');
    push_char(&mut r, '\n');
    let hj = headers_joined_exec(headers);
    r.append(hj.as_str());
    push_char(&mut r, '\r');
    push_char(&mut r, '\n');
    push_char(&mut r, '\r');
    push_char(&mut r, '\n');
    r.append(body);
    proof {
        assert(r@ =~= spec_build_request(method@, uri@, headers.entries(), body@));
    }
    r
}

/// The encoded response: status line, headers joined by CRLF, a blank line,
/// the body, and a final CRLF.
pub open spec fn spec_response_text(
    code: int,
    status: Seq<char>,
    headers: Seq<(Seq<char>, Seq<char>)>,
    body: Seq<char>,
) -> Seq<char> {
    "HTTP/1.1 "@ + dec_int_seq(code) + seq![' '] + status + crlf() + headers_joined(headers)
        + crlf() + crlf() + body + crlf()
}

impl Response {
    /// A `200 Ok` response with no headers and an empty body.
    pub fn new() -> (r: Response)
        ensures
            r.status_code == 200,
            r.status@ == "Ok"@,
            r.headers.entries() == Seq::<(Seq<char>, Seq<char>)>::empty(),
            r.headers.wf(),
            r.body@ == Seq::<char>::empty(),
    {
        Response {
            status_code: 200,
            status: "Ok".to_owned(),
            headers: StrMap::new(),
            body: String::new(),
        }
    }

    /// A `404 NotFound` response with the standard body.
    pub fn not_found() -> (r: Response)
        ensures
            r.status_code == 404,
            r.status@ == "NotFound"@,
            r.headers.entries() == Seq::<(Seq<char>, Seq<char>)>::empty(),
            r.headers.wf(),
            r.body@ == "404 Not found"@,
    {
        Response {
            status_code: 404,
            status: "NotFound".to_owned(),
            headers: StrMap::new(),
            body: "404 Not found".to_owned(),
        }
    }

    /// The raw text of the response.
    pub fn into_string(&self) -> (r: String)
        ensures
            r@ == spec_response_text(
                self.status_code as int,
                self.status@,
                self.headers.entries(),
                self.body@,
            ),
    {
        let mut r = String::new();
        r.append("HTTP/1.1 ");
        let code = i64_to_string(self.status_code);
        r.append(code.as_str());
        push_char(&mut r, ' ');
        r.append(self.status.as_str());
        push_char(&mut r, '\r');
        push_char(&mut r, '\n');
        let hj = headers_joined_exec(&self.headers);
        r.append(hj.as_str());
        push_char(&mut r, '\r');
        push_char(&mut r, '\n');
        push_char(&mut r, '\r');
        push_char(&mut r, '\n');
        r.append(self.body.as_str());
        push_char(&mut r, '\r');
        push_char(&mut r, '\n');
        proof {
            assert(r@ =~= spec_response_text(
                self.status_code as int,
                self.status@,
                self.headers.entries(),
                self.body@,
            ));
        }
        r
    }

    /// Decode a response from its raw text: status line, headers, body. A
    /// response whose status-code class is not 2xx is rejected with
    /// `NonSuccess`; a status line without a numeric code and status word
    /// with `BadStatusLine`.
    pub fn parse(text: &str) -> (r: Result<Response, WireError>)
        ensures
            match r {
                Ok(resp) => sp_response(text@) == Ok::<
                    (int, Seq<char>, Seq<(Seq<char>, Seq<char>)>, Seq<char>),
                    WireError,
                >(
                    (
                        resp.status_code as int,
                        resp.status@,
                        resp.headers.entries(),
                        resp.body@,
                    ),
                ) && resp.headers.wf() && 200 <= resp.status_code < 300,
                Err(e) => sp_response(text@) == Err::<
                    (int, Seq<char>, Seq<(Seq<char>, Seq<char>)>, Seq<char>),
                    WireError,
                >(e),
            },
    {
        let s = str_to_chars(text);
        let (line0, hstart) = read_line(&s, 0);
        let toks = crate::strutil::filter_nonempty(split_char(line0.as_str(), ' '));
        if toks.len() < 3 {
            return Err(WireError::BadStatusLine);
        }
        proof {
            assert(toks@.map_values(|t: String| t@)[1] == tokens_of(line_at(s@, 0))[1]);
            assert(toks@.map_values(|t: String| t@)[2] == tokens_of(line_at(s@, 0))[2]);
        }
        let code: i64 = match parse_u64(toks[1].as_str()) {
            Some(v) => {
                if v <= i64::MAX as u64 {
                    v as i64
                } else {
                    return Err(WireError::BadStatusLine);
                }
            },
            None => {
                return Err(WireError::BadStatusLine);
            },
        };
        if !(200 <= code && code < 300) {
            proof {
                assert(code as int / 100 != 2);
            }
            return Err(WireError::NonSuccess(code));
        }
        proof {
            assert(code as int / 100 == 2);
        }
        let status = toks[2].clone();
        match read_headers(&s, hstart) {
            Err(e) => Err(e),
            Ok((headers, p)) => {
                match read_body(&s, p, &headers) {
                    Err(e) => Err(e),
                    Ok(body) => Ok(Response { status, status_code: code, headers, body }),
                }
            },
        }
    }
}

} // verus!
