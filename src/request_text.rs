//! A request written out as text: a request line `METHOD URL`, header lines,
//! a line that ends the headers, then the body.
use vstd::prelude::*;
use vstd::string::*;
use vstd::utf8::encode_utf8;
use crate::connect::{find_from, has_prefix, index_of};
use crate::error::HttpError;
use crate::headers::{value_of, with_entry, Entry, HttpHeaders, QueryArgs};
use crate::methods::{is_standard_name, method_name, upper_of, HttpMethod};
use crate::request::HttpRequest;

verus! {

/// A character with the Unicode `White_Space` property, as `char::is_whitespace`
/// tells it.
pub open spec fn is_white(c: char) -> bool {
    let u = c as u32;
    (9 <= u <= 13) || u == 32 || u == 0x85 || u == 0xa0 || u == 0x1680 || (0x2000 <= u <= 0x200a)
        || u == 0x2028 || u == 0x2029 || u == 0x202f || u == 0x205f || u == 0x3000
}

/// The text of `s` with leading and trailing whitespace removed, as `str::trim`
/// gives it.
pub open spec fn trim_of(s: Seq<char>) -> Seq<char>
    decreases s.len(),
{
    if s.len() > 0 && is_white(s[0]) {
        trim_of(s.skip(1))
    } else if s.len() > 0 && is_white(s.last()) {
        trim_of(s.drop_last())
    } else {
        s
    }
}

/// The text of `s` in lower case, as `str::to_lowercase` gives it.
pub uninterp spec fn lower_of(s: Seq<char>) -> Seq<char>;

fn is_white_exec(c: char) -> (r: bool)
    ensures
        r == is_white(c),
{
    let u = c as u32;
    (9 <= u && u <= 13) || u == 32 || u == 0x85 || u == 0xa0 || u == 0x1680 || (0x2000 <= u && u
        <= 0x200a) || u == 0x2028 || u == 0x2029 || u == 0x202f || u == 0x205f || u == 0x3000
}

/// `s` without its leading and trailing whitespace.
pub fn trim_text(s: &str) -> (r: &str)
    ensures
        r@ == trim_of(s@),
{
    let n = s.unicode_len();
    let mut lo: usize = 0;
    let mut hi: usize = n;
    assert(s@.subrange(0, n as int) =~= s@);
    while lo < hi && is_white_exec(s.get_char(lo))
        invariant
            lo <= hi == n == s@.len(),
            trim_of(s@.subrange(lo as int, hi as int)) == trim_of(s@),
        decreases hi - lo,
    {
        assert(s@.subrange(lo as int, hi as int).skip(1) =~= s@.subrange(lo + 1, hi as int));
        lo = lo + 1;
    }
    while lo < hi && is_white_exec(s.get_char(hi - 1))
        invariant
            lo <= hi <= n == s@.len(),
            lo < hi ==> !is_white(s@[lo as int]),
            trim_of(s@.subrange(lo as int, hi as int)) == trim_of(s@),
        decreases hi - lo,
    {
        assert(s@.subrange(lo as int, hi as int).drop_last() =~= s@.subrange(lo as int, hi - 1));
        hi = hi - 1;
    }
    s.substring_char(lo, hi)
}

/// Relies on str::to_lowercase: the result depends on the characters alone.
#[verifier::external_body]
fn lowercase(s: &str) -> (r: String)
    ensures
        r@ == lower_of(s@),
{
    s.to_lowercase()
}

/// The header lines from the line that starts at `pos`, up to and including
/// the first line that is not one (no colon, or a lone colon); with the
/// position after that line.
pub open spec fn text_headers(raw: Seq<char>, pos: int, h: Seq<Entry>) -> (Seq<Entry>, int)
    decreases raw.len() + 1 - pos,
{
    if pos < 0 || pos > raw.len() {
        (h, pos)
    } else {
        let e = index_of(raw, '\n', pos);
        let line = raw.subrange(pos, e);
        let c = index_of(line, ':', 0);
        if e < pos || e > raw.len() {
            (h, pos)
        } else if c >= line.len() || line.len() <= 1 {
            (h, e + 1)
        } else {
            text_headers(
                raw,
                e + 1,
                with_entry(h, lower_of(trim_of(line.take(c))), trim_of(line.skip(c + 1))),
            )
        }
    }
}

/// The lines from the one that starts at `pos` on, joined without their breaks.
pub open spec fn joined_lines(raw: Seq<char>, pos: int) -> Seq<char>
    decreases raw.len() + 1 - pos,
{
    if pos < 0 || pos > raw.len() {
        Seq::empty()
    } else {
        let e = index_of(raw, '\n', pos);
        if e < pos || e > raw.len() {
            Seq::empty()
        } else {
            raw.subrange(pos, e) + joined_lines(raw, e + 1)
        }
    }
}

/// The text before the first line break.
pub open spec fn first_line(raw: Seq<char>) -> Seq<char> {
    raw.take(index_of(raw, '\n', 0))
}

/// `req` is what the text `raw` describes.
pub open spec fn request_of_text(raw: Seq<char>, req: HttpRequest) -> bool {
    let first = first_line(raw);
    let sp = index_of(first, ' ', 0);
    let m = trim_of(first.take(sp));
    let target = trim_of(first.skip(sp + 1));
    let ssl = has_prefix(target, "https://"@);
    let rest = if has_prefix(target, "http://"@) {
        target.skip(7)
    } else if ssl {
        target.skip(8)
    } else {
        target
    };
    let slash = index_of(rest, '/', 0);
    let host = rest.take(slash);
    let hb = text_headers(raw, first.len() as int + 1, Seq::empty());
    let body = joined_lines(raw, hb.1);
    let h = defaults_added(hb.0, host, body.len() == 0);
    &&& req.ssl == ssl
    &&& method_name(req.method) == upper_of(m)
    &&& (req.method is Other <==> !is_standard_name(upper_of(m)))
    &&& req.host@ == host
    &&& req.path@ == "/"@ + (if slash < rest.len() {
        rest.skip(slash + 1)
    } else {
        Seq::empty()
    })
    &&& req.args@.len() == 0
    &&& req.body@ == encode_utf8(body)
    &&& req.headers@ == h
}

/// The header fields `h` with the defaults of a request text: `host` from the
/// URL where it is missing, and `content-length: 0` for an empty body without
/// a length.
pub open spec fn defaults_added(h: Seq<Entry>, host: Seq<char>, empty_body: bool) -> Seq<Entry> {
    let h1 = if value_of(h, "host"@) is None {
        with_entry(h, "host"@, host)
    } else {
        h
    };
    if value_of(h1, "content-length"@) is None && empty_body {
        with_entry(h1, "content-length"@, "0"@)
    } else {
        h1
    }
}

/// Adds the defaults of a request text to the header fields read from it.
pub fn add_defaults(headers: &mut HttpHeaders, host: &str, empty_body: bool)
    ensures
        final(headers)@ == defaults_added(old(headers)@, host@, empty_body),
{
    if !headers.contains_key("host") {
        headers.insert("host", host);
    }
    if !headers.contains_key("content-length") && empty_body {
        headers.insert("content-length", "0");
    }
}

impl HttpRequest {
    /// Reads a request written as text. The first line is `METHOD URL`; a
    /// line without a space there is refused. Header lines follow up to the
    /// first line that is not one; the remaining lines, joined, are the body.
    /// A missing `host` header is taken from the URL, and an empty body
    /// without a `content-length` gets `content-length: 0`.
    pub fn parse(raw: String) -> (r: Result<HttpRequest, HttpError>)
        ensures
            r is Err <==> index_of(first_line(raw@), ' ', 0) >= first_line(raw@).len(),
            r matches Ok(req) ==> request_of_text(raw@, req),
            r matches Err(e) ==> e == HttpError::InvalidStatusLine,
    {
        proof {
            reveal_strlit("https://");
            reveal_strlit("http://");
            reveal_strlit("/");
            reveal_strlit("host");
            reveal_strlit("content-length");
            reveal_strlit("0");
        }
        let s = raw.as_str();
        let n = s.unicode_len();
        let l0 = find_from(s, '\n', 0);
        let first = s.substring_char(0, l0);
        assert(first@ =~= raw@.take(l0 as int));
        let sp = find_from(first, ' ', 0);
        if sp >= first.unicode_len() {
            return Err(HttpError::InvalidStatusLine);
        }
        let m = trim_text(first.substring_char(0, sp));
        assert(first@.take(sp as int) =~= first@.subrange(0, sp as int));
        let target = trim_text(first.substring_char(sp + 1, first.unicode_len()));
        assert(first@.skip(sp + 1) =~= first@.subrange(sp + 1, first@.len() as int));
        let ssl = crate::connect::starts_with(target, "https://");
        let rest: &str = if crate::connect::starts_with(target, "http://") {
            target.substring_char(7, target.unicode_len())
        } else if ssl {
            target.substring_char(8, target.unicode_len())
        } else {
            target
        };
        assert(target@.skip(8) =~= target@.subrange(8, target@.len() as int));
        assert(target@.skip(7) =~= target@.subrange(7, target@.len() as int));
        let slash = find_from(rest, '/', 0);
        let host = rest.substring_char(0, slash);
        assert(host@ =~= rest@.take(slash as int));
        let path: String = if slash < rest.unicode_len() {
            let tail = rest.substring_char(slash + 1, rest.unicode_len());
            assert(tail@ =~= rest@.skip(slash + 1));
            StringExecFns::concat("/".to_owned(), tail)
        } else {
            assert("/"@ + Seq::<char>::empty() =~= "/"@);
            "/".to_owned()
        };
        let method = HttpMethod::from_str(m);
        let mut headers = HttpHeaders::new();
        let ghost start = l0 as int + 1;
        let mut more = l0 < n;
        let mut pos: usize = if l0 < n { l0 + 1 } else { l0 };
        let ghost mut end: int = if l0 < n { pos as int } else { n + 1 };
        let ghost target = text_headers(raw@, start, Seq::empty());
        loop
            invariant_except_break
                text_headers(raw@, end, headers@) == target,
            invariant
                n == raw@.len(),
                s@ == raw@,
                pos <= n,
                more ==> end == pos,
                !more ==> end == n + 1,
            ensures
                target == (headers@, end),
            decreases (n + 1 - pos) * 2 + (if more { 1int } else { 0int }),
        {
            if !more {
                break;
            }
            let e = find_from(s, '\n', pos);
            let line = s.substring_char(pos, e);
            let c = find_from(line, ':', 0);
            if c >= line.unicode_len() || line.unicode_len() <= 1 {
                assert(target == (headers@, e + 1));
                proof {
                    end = e + 1;
                }
                assert(target == (headers@, end));
                if e < n {
                    pos = e + 1;
                } else {
                    more = false;
                }
                break;
            }
            let k = lowercase(trim_text(line.substring_char(0, c)));
            assert(line@.take(c as int) =~= line@.subrange(0, c as int));
            let v = trim_text(line.substring_char(c + 1, line.unicode_len()));
            assert(line@.skip(c + 1) =~= line@.subrange(c + 1, line@.len() as int));
            headers.insert(k.as_str(), v);
            proof {
                end = e + 1;
            }
            if e < n {
                pos = e + 1;
            } else {
                more = false;
            }
        }
        assert(target == (headers@, end));
        let mut body = String::new();
        let ghost body_start = end;
        loop
            invariant
                n == raw@.len(),
                s@ == raw@,
                pos <= n,
                more ==> end == pos,
                !more ==> end == n + 1,
                body@ + joined_lines(raw@, end) == joined_lines(raw@, body_start),
            ensures
                body@ == joined_lines(raw@, body_start),
            decreases (n + 1 - pos) * 2 + (if more { 1int } else { 0int }),
        {
            if !more {
                assert(body@ + Seq::<char>::empty() =~= body@);
                break;
            }
            let e = find_from(s, '\n', pos);
            let line = s.substring_char(pos, e);
            let ghost before = body@;
            body = StringExecFns::concat(body, line);
            assert(before + (line@ + joined_lines(raw@, e + 1)) =~= body@ + joined_lines(raw@, e + 1));
            proof {
                end = e + 1;
            }
            if e < n {
                pos = e + 1;
            } else {
                more = false;
            }
        }
        add_defaults(&mut headers, host, body.unicode_len() == 0);
        let mut request = HttpRequest::new(method, host, path.as_str());
        request.ssl = ssl;
        request.headers = headers;
        let mut bytes: Vec<u8> = Vec::new();
        crate::bytes::push_all(&mut bytes, body.as_str().as_bytes());
        request.body = bytes;
        Ok(request)
    }
}

} // verus!
