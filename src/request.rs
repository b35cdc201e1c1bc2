//! The outgoing request and its exact wire form.
use vstd::prelude::*;
use vstd::string::*;
use vstd::utf8::{decode_utf8, encode_utf8, valid_utf8};
use crate::bytes::{push_all, text_of};
use crate::headers::{with_entry, Entry, HttpHeaders, QueryArgs};
use crate::methods::{method_name, HttpMethod};

verus! {

/// An outgoing request. `host` is the authority (it may carry a scheme and a
/// port); `path` starts with `/`.
pub struct HttpRequest {
    pub ssl: bool,
    pub host: String,
    pub method: HttpMethod,
    pub path: String,
    pub args: QueryArgs,
    pub headers: HttpHeaders,
    pub body: Vec<u8>,
}

pub open spec fn crlf() -> Seq<u8> {
    seq![13u8, 10u8]
}

/// ` HTTP/1.1` and a line end.
pub open spec fn version_tail() -> Seq<u8> {
    seq![32u8, 72u8, 84u8, 84u8, 80u8, 47u8, 49u8, 46u8, 49u8, 13u8, 10u8]
}

/// `key`, `sep`, `value`, as UTF-8.
pub open spec fn pair_bytes(e: Entry, sep: Seq<u8>) -> Seq<u8> {
    encode_utf8(e.0) + sep + encode_utf8(e.1)
}

/// `k=v` pairs joined by `&`, with no encoding of the text.
pub open spec fn query_bytes(args: Seq<Entry>) -> Seq<u8>
    decreases args.len(),
{
    if args.len() == 0 {
        Seq::empty()
    } else if args.len() == 1 {
        pair_bytes(args[0], seq![61u8])
    } else {
        query_bytes(args.drop_last()) + seq![38u8] + pair_bytes(args.last(), seq![61u8])
    }
}

/// One `Key: Value` line per header, in their order.
pub open spec fn header_bytes(h: Seq<Entry>) -> Seq<u8>
    decreases h.len(),
{
    if h.len() == 0 {
        Seq::empty()
    } else {
        header_bytes(h.drop_last()) + pair_bytes(h.last(), seq![58u8, 32u8]) + crlf()
    }
}

/// The request target: the path and the query, or `/` where both are empty.
pub open spec fn target_bytes(path: Seq<char>, args: Seq<Entry>) -> Seq<u8> {
    let t = if args.len() == 0 {
        encode_utf8(path)
    } else {
        encode_utf8(path) + seq![63u8] + query_bytes(args)
    };
    if t.len() == 0 {
        seq![47u8]
    } else {
        t
    }
}

/// The request line and the header lines.
pub open spec fn request_head(r: HttpRequest) -> Seq<u8> {
    encode_utf8(method_name(r.method)) + seq![32u8] + target_bytes(r.path@, r.args@) + version_tail()
        + header_bytes(r.headers@)
}

/// The bytes put on the wire: head, a blank line, the body, a line end.
pub open spec fn wire(r: HttpRequest) -> Seq<u8> {
    request_head(r) + crlf() + r.body@ + crlf()
}

/// With no query arguments and no body, the serialization is the request line
/// and the header lines, each ending in CRLF, then the one blank line, then the
/// empty body and its closing CRLF.
pub proof fn lemma_serialization_layout(r: HttpRequest)
    requires
        r.args@.len() == 0,
        r.body@.len() == 0,
    ensures
        wire(r) == request_head(r) + crlf() + crlf(),
        request_head(r).len() >= 2,
        request_head(r).subrange(request_head(r).len() - 2, request_head(r).len() as int)
            == crlf(),
{
    let h = request_head(r);
    assert(wire(r) =~= h + crlf() + crlf());
    let hb = header_bytes(r.headers@);
    if r.headers@.len() == 0 {
        assert(hb.len() == 0);
        assert(h.subrange(h.len() - 2, h.len() as int) =~= crlf());
    } else {
        let last = pair_bytes(r.headers@.last(), seq![58u8, 32u8]);
        assert(hb == header_bytes(r.headers@.drop_last()) + last + crlf());
        assert(h.subrange(h.len() - 2, h.len() as int) =~= crlf());
    }
}

fn str_bytes(s: &str) -> (r: &[u8])
    ensures
        r@ == encode_utf8(s@),
{
    s.as_bytes()
}

impl HttpRequest {
    /// A request with no query arguments, headers or body, over plain TCP.
    pub fn new(method: HttpMethod, host: &str, path: &str) -> (r: HttpRequest)
        ensures
            !r.ssl,
            r.method == method,
            r.host@ == host@,
            r.path@ == path@,
            r.args@.len() == 0,
            r.headers@.len() == 0,
            r.body@.len() == 0,
    {
        HttpRequest {
            ssl: false,
            method,
            host: host.to_owned(),
            path: path.to_owned(),
            args: QueryArgs::new(),
            headers: HttpHeaders::new(),
            body: Vec::new(),
        }
    }

    /// A blank request: an empty `Other` method, empty host and path.
    pub fn default() -> (r: HttpRequest)
        ensures
            !r.ssl,
            r.method matches HttpMethod::Other(m) && m@.len() == 0,
            r.host@.len() == 0,
            r.path@.len() == 0,
            r.args@.len() == 0,
            r.headers@.len() == 0,
            r.body@.len() == 0,
    {
        HttpRequest {
            method: HttpMethod::Other(String::new()),
            ssl: false,
            path: String::new(),
            host: String::new(),
            args: QueryArgs::new(),
            headers: HttpHeaders::new(),
            body: Vec::new(),
        }
    }

    /// A copy of the request.
    pub fn clone(&self) -> (r: HttpRequest)
        ensures
            r.ssl == self.ssl,
            r.method == self.method,
            r.host@ == self.host@,
            r.path@ == self.path@,
            r.args@ == self.args@,
            r.headers@ == self.headers@,
            r.body@ == self.body@,
    {
        let body = crate::bytes::copy_range(&self.body, 0, self.body.len());
        assert(self.body@.subrange(0, self.body@.len() as int) =~= self.body@);
        HttpRequest {
            method: self.method.clone(),
            ssl: self.ssl,
            host: self.host.clone(),
            path: self.path.clone(),
            args: self.args.clone(),
            headers: self.headers.clone(),
            body,
        }
    }

    /// The body as text: none where it is empty or not UTF-8.
    pub fn text(&self) -> (r: Option<String>)
        ensures
            match r {
                Some(t) => self.body@.len() > 0 && valid_utf8(self.body@) && t@ == decode_utf8(
                    self.body@,
                ),
                None => self.body@.len() == 0 || !valid_utf8(self.body@),
            },
    {
        if self.body.len() == 0 {
            return None;
        }
        let copy = crate::bytes::copy_range(&self.body, 0, self.body.len());
        assert(self.body@.subrange(0, self.body@.len() as int) =~= self.body@);
        text_of(copy)
    }

    /// The request target: path, then `?` and the query arguments if any.
    fn target(&self) -> (r: Vec<u8>)
        ensures
            r@ == target_bytes(self.path@, self.args@),
    {
        let mut t: Vec<u8> = Vec::new();
        push_all(&mut t, str_bytes(self.path.as_str()));
        if !self.args.is_empty() {
            t.push(63u8);
            let mut q: Vec<u8> = Vec::new();
            let mut i: usize = 0;
            while i < self.args.len()
                invariant
                    i <= self.args@.len(),
                    q@ == query_bytes(self.args@.subrange(0, i as int)),
                decreases self.args@.len() - i,
            {
                let (k, v) = self.args.entry(i);
                if i > 0 {
                    q.push(38u8);
                }
                push_all(&mut q, str_bytes(k.as_str()));
                q.push(61u8);
                push_all(&mut q, str_bytes(v.as_str()));
                let ghost sub = self.args@.subrange(0, i + 1);
                assert(sub.drop_last() =~= self.args@.subrange(0, i as int));
                assert(sub.last() == self.args@[i as int]);
                assert(q@ =~= query_bytes(sub));
                i = i + 1;
            }
            assert(self.args@.subrange(0, self.args@.len() as int) =~= self.args@);
            push_all(&mut t, q.as_slice());
        }
        if t.len() == 0 {
            t.push(47u8);
        }
        assert(t@ =~= target_bytes(self.path@, self.args@));
        t
    }

    /// The exact bytes of the request on the wire.
    pub fn to_bytes(&self) -> (r: Vec<u8>)
        ensures
            r@ == wire(*self),
    {
        let mut out: Vec<u8> = Vec::new();
        push_all(&mut out, str_bytes(self.method.to_str()));
        out.push(32u8);
        let t = self.target();
        push_all(&mut out, t.as_slice());
        out.push(32u8);
        out.push(72u8);
        out.push(84u8);
        out.push(84u8);
        out.push(80u8);
        out.push(47u8);
        out.push(49u8);
        out.push(46u8);
        out.push(49u8);
        out.push(13u8);
        out.push(10u8);
        let ghost line = out@;
        assert(line =~= encode_utf8(method_name(self.method)) + seq![32u8] + target_bytes(
            self.path@,
            self.args@,
        ) + version_tail());
        let mut i: usize = 0;
        while i < self.headers.len()
            invariant
                i <= self.headers@.len(),
                out@ == line + header_bytes(self.headers@.subrange(0, i as int)),
            decreases self.headers@.len() - i,
        {
            let (k, v) = self.headers.entry(i);
            push_all(&mut out, str_bytes(k.as_str()));
            out.push(58u8);
            out.push(32u8);
            push_all(&mut out, str_bytes(v.as_str()));
            out.push(13u8);
            out.push(10u8);
            let ghost sub = self.headers@.subrange(0, i + 1);
            assert(sub.drop_last() =~= self.headers@.subrange(0, i as int));
            assert(sub.last() == self.headers@[i as int]);
            assert(out@ =~= line + header_bytes(sub));
            i = i + 1;
        }
        assert(self.headers@.subrange(0, self.headers@.len() as int) =~= self.headers@);
        out.push(13u8);
        out.push(10u8);
        push_all(&mut out, self.body.as_slice());
        out.push(13u8);
        out.push(10u8);
        assert(out@ =~= wire(*self));
        out
    }

    /// The wire form as text, where it is UTF-8 (it is unless the body is not);
    /// empty otherwise.
    pub fn to_string(&self) -> (r: String)
        ensures
            valid_utf8(wire(*self)) ==> r@ == decode_utf8(wire(*self)),
            !valid_utf8(wire(*self)) ==> r@.len() == 0,
    {
        match text_of(self.to_bytes()) {
            Some(t) => t,
            None => String::new(),
        }
    }
}

} // verus!

verus! {

/// No carriage return or line feed byte.
pub open spec fn no_break(b: Seq<u8>) -> bool {
    forall|i: int| 0 <= i < b.len() ==> b[i] != 10u8 && b[i] != 13u8
}

/// No line feed is followed by a carriage return: no line is empty save,
/// perhaps, the first.
pub open spec fn no_lf_cr(x: Seq<u8>) -> bool {
    forall|j: int| 0 <= j < x.len() - 1 ==> !(#[trigger] x[j] == 10u8 && x[j + 1] == 13u8)
}

proof fn lemma_line_ok(l: Seq<u8>)
    requires
        no_break(l),
        l.len() > 0,
    ensures
        no_lf_cr(l + crlf()),
        (l + crlf())[0] != 13u8,
{
    let x = l + crlf();
    assert forall|j: int| 0 <= j < x.len() - 1 implies !(#[trigger] x[j] == 10u8 && x[j + 1] == 13u8) by {
        if j < l.len() {
            assert(x[j] == l[j]);
        }
    }
}

proof fn lemma_join_ok(a: Seq<u8>, b: Seq<u8>)
    requires
        no_lf_cr(a),
        no_lf_cr(b),
        b.len() > 0 ==> b[0] != 13u8,
    ensures
        no_lf_cr(a + b),
{
    let x = a + b;
    assert forall|j: int| 0 <= j < x.len() - 1 implies !(#[trigger] x[j] == 10u8 && x[j + 1] == 13u8) by {
        if j + 1 < a.len() {
            assert(x[j] == a[j] && x[j + 1] == a[j + 1]);
        } else if j + 1 == a.len() {
            assert(x[j + 1] == b[0]);
        } else {
            assert(x[j] == b[j - a.len()] && x[j + 1] == b[j + 1 - a.len()]);
        }
    }
}

proof fn lemma_headers_ok(h: Seq<Entry>)
    requires
        forall|i: int|
            0 <= i < h.len() ==> no_break(encode_utf8(#[trigger] h[i].0)) && no_break(
                encode_utf8(h[i].1),
            ),
    ensures
        no_lf_cr(header_bytes(h)),
        header_bytes(h).len() > 0 ==> header_bytes(h)[0] != 13u8,
    decreases h.len(),
{
    if h.len() > 0 {
        let front = h.drop_last();
        assert forall|i: int| 0 <= i < front.len() implies no_break(
            encode_utf8(#[trigger] front[i].0),
        ) && no_break(encode_utf8(front[i].1)) by {
            assert(front[i] == h[i]);
        }
        lemma_headers_ok(front);
        let e = h.last();
        assert(no_break(encode_utf8(h[h.len() - 1].0)));
        let l = pair_bytes(e, seq![58u8, 32u8]);
        assert(no_break(l)) by {
            assert forall|i: int| 0 <= i < l.len() implies l[i] != 10u8 && l[i] != 13u8 by {
                let k = encode_utf8(e.0);
                if i < k.len() {
                    assert(l[i] == k[i]);
                } else if i >= k.len() + 2 {
                    assert(l[i] == encode_utf8(e.1)[i - k.len() - 2]);
                }
            }
        }
        lemma_line_ok(l);
        let line = l + crlf();
        assert(header_bytes(h) == header_bytes(front) + line);
        lemma_join_ok(header_bytes(front), line);
        if header_bytes(front).len() == 0 {
            assert(header_bytes(h)[0] == line[0]);
        } else {
            assert(header_bytes(h)[0] == header_bytes(front)[0]);
        }
    }
}

/// With no query arguments and no body, and no CR or LF in the bytes of the
/// method, the path and the header texts, the serialization holds exactly one
/// blank line: the first CRLF CRLF is the one that ends the header lines, and
/// after it come only the empty body and its closing CRLF.
pub proof fn lemma_one_blank_line(r: HttpRequest)
    requires
        r.args@.len() == 0,
        r.body@.len() == 0,
        no_break(encode_utf8(method_name(r.method))),
        no_break(encode_utf8(r.path@)),
        forall|i: int|
            0 <= i < r.headers@.len() ==> no_break(encode_utf8(#[trigger] r.headers@[i].0))
                && no_break(encode_utf8(r.headers@[i].1)),
    ensures
        ({
            let w = wire(r);
            let n = request_head(r).len() as int;
            &&& w == request_head(r) + crlf() + crlf()
            &&& w.len() == n + 4
            &&& w[n - 2] == 13u8 && w[n - 1] == 10u8 && w[n] == 13u8 && w[n + 1] == 10u8
            &&& forall|i: int|
                0 <= i < n - 2 ==> !(#[trigger] w[i] == 13u8 && w[i + 1] == 10u8 && w[i + 2] == 13u8
                    && w[i + 3] == 10u8)
        }),
{
    lemma_serialization_layout(r);
    let m = encode_utf8(method_name(r.method));
    let t = target_bytes(r.path@, r.args@);
    assert(no_break(t));
    let l = m + seq![32u8] + t + seq![32u8, 72u8, 84u8, 84u8, 80u8, 47u8, 49u8, 46u8, 49u8];
    assert(no_break(l)) by {
        assert forall|i: int| 0 <= i < l.len() implies l[i] != 10u8 && l[i] != 13u8 by {
            if i < m.len() {
                assert(l[i] == m[i]);
            } else if m.len() + 1 <= i < m.len() + 1 + t.len() {
                assert(l[i] == t[i - m.len() - 1]);
            }
        }
    }
    lemma_line_ok(l);
    assert(l + crlf() =~= m + seq![32u8] + t + version_tail());
    lemma_headers_ok(r.headers@);
    let head = request_head(r);
    assert(head =~= (l + crlf()) + header_bytes(r.headers@));
    lemma_join_ok(l + crlf(), header_bytes(r.headers@));
    let w = wire(r);
    let n = head.len() as int;
    assert forall|i: int| 0 <= i < n - 2 implies !(#[trigger] w[i] == 13u8 && w[i + 1] == 10u8
        && w[i + 2] == 13u8 && w[i + 3] == 10u8) by {
        assert(w[i + 1] == head[i + 1] && w[i + 2] == head[i + 2]);
    }
}

} // verus!

verus! {

/// The decimal digit `d` as a character.
pub open spec fn digit_char(d: nat) -> char {
    if d == 0 {
        '0'
    } else if d == 1 {
        '1'
    } else if d == 2 {
        '2'
    } else if d == 3 {
        '3'
    } else if d == 4 {
        '4'
    } else if d == 5 {
        '5'
    } else if d == 6 {
        '6'
    } else if d == 7 {
        '7'
    } else if d == 8 {
        '8'
    } else {
        '9'
    }
}

/// `n` written in decimal, without leading zeros.
pub open spec fn decimal(n: nat) -> Seq<char>
    decreases n,
{
    if n < 10 {
        seq![digit_char(n)]
    } else {
        decimal(n / 10) + seq![digit_char(n % 10)]
    }
}

fn digit_text(d: usize) -> (r: &'static str)
    requires
        d < 10,
    ensures
        r@ == seq![digit_char(d as nat)],
{
    proof {
        reveal_strlit("0");
        reveal_strlit("1");
        reveal_strlit("2");
        reveal_strlit("3");
        reveal_strlit("4");
        reveal_strlit("5");
        reveal_strlit("6");
        reveal_strlit("7");
        reveal_strlit("8");
        reveal_strlit("9");
    }
    let r = if d == 0 {
        "0"
    } else if d == 1 {
        "1"
    } else if d == 2 {
        "2"
    } else if d == 3 {
        "3"
    } else if d == 4 {
        "4"
    } else if d == 5 {
        "5"
    } else if d == 6 {
        "6"
    } else if d == 7 {
        "7"
    } else if d == 8 {
        "8"
    } else {
        "9"
    };
    assert(r@ =~= seq![digit_char(d as nat)]);
    r
}

/// `n` in decimal.
pub fn decimal_text(n: usize) -> (r: String)
    ensures
        r@ == decimal(n as nat),
    decreases n,
{
    if n < 10 {
        digit_text(n).to_owned()
    } else {
        let high = decimal_text(n / 10);
        StringExecFns::concat(high, digit_text(n % 10))
    }
}

/// The header fields of `r` once the defaults are in: `User-Agent` names the
/// client and its `version`, and a non-empty body gets its `Content-Length`.
pub open spec fn with_default_headers(h: Seq<Entry>, body_len: nat, version: Seq<char>) -> Seq<
    Entry,
> {
    let h1 = with_entry(h, "User-Agent"@, "Sip/"@ + version);
    if body_len > 0 {
        with_entry(h1, "Content-Length"@, decimal(body_len))
    } else {
        h1
    }
}

impl HttpRequest {
    /// Adds the headers that every request carries: `User-Agent: Sip/<version>`,
    /// and `Content-Length` where the body is not empty.
    pub fn add_default_headers(&mut self, version: &str)
        ensures
            final(self).headers@ == with_default_headers(
                old(self).headers@,
                old(self).body@.len(),
                version@,
            ),
            final(self).ssl == old(self).ssl,
            final(self).method == old(self).method,
            final(self).host@ == old(self).host@,
            final(self).path@ == old(self).path@,
            final(self).args@ == old(self).args@,
            final(self).body@ == old(self).body@,
    {
        let agent = StringExecFns::concat("Sip/".to_owned(), version);
        self.headers.insert("User-Agent", agent.as_str());
        if self.body.len() > 0 {
            let length = decimal_text(self.body.len());
            self.headers.insert("Content-Length", length.as_str());
        }
    }
}

} // verus!
