//! The incremental response parser. What it reports after any sequence of
//! `append` calls is stated by `progress` over all the bytes it has taken.
use vstd::prelude::*;
use vstd::utf8::{decode_utf8, valid_utf8};
use crate::bytes::{
    agree, lemma_back_space_agree, lemma_digits_agree, lemma_find_crlf_prefix,
    lemma_skip_space_agree, lemma_skip_token_agree,
    text_of, push_all,
    back_space, back_space_exec, bounded_number, copy_range, extend_range, find_crlf, get_line,
    lemma_find_crlf_bounds, lower, lower_range, parse_number, skip_space, skip_space_exec,
    skip_token, skip_token_exec,
};
use crate::error::HttpError;
use crate::headers::{with_entry, Entry, HttpHeaders};
use crate::status::{is_status_code, HttpStatus};

verus! {

/// A response: status, header fields with lower-cased keys, and the body with
/// any chunk framing removed.
pub struct HttpResponse {
    pub status: HttpStatus,
    pub headers: HttpHeaders,
    pub content: Vec<u8>,
}

/// The phase of the parser. It only moves forward, and `Finish` is final.
#[derive(Debug, Clone, Copy, PartialEq, Eq, Structural)]
pub enum State {
    Init,
    Headers,
    Body,
    Finish,
}

/// What the header block declares, as far as it has been read.
pub struct HeadAcc {
    pub headers: Seq<Entry>,
    pub length: nat,
    pub chunked: bool,
}

pub open spec fn empty_acc() -> HeadAcc {
    HeadAcc { headers: Seq::empty(), length: 0, chunked: false }
}

/// The status code that the line `s[0..e)` carries: at least three
/// whitespace-separated words, the second a code in 100..=599.
pub open spec fn status_of(s: Seq<u8>, e: int) -> Option<u16> {
    let a = skip_space(s, 0, e);
    let b = skip_token(s, a, e);
    let c = skip_space(s, b, e);
    let d = skip_token(s, c, e);
    let f = skip_space(s, d, e);
    if f < e {
        match bounded_number(s, c, d, 10, 65535) {
            Some(v) => if is_status_code(v as int) {
                Some(v as u16)
            } else {
                None
            },
            None => None,
        }
    } else {
        None
    }
}

/// The first `:` in `[i, hi)`, or `hi`.
pub open spec fn colon_pos(s: Seq<u8>, i: int, hi: int) -> int
    decreases hi - i,
{
    if i < hi && s[i] != 58u8 {
        colon_pos(s, i + 1, hi)
    } else {
        i
    }
}

/// The key (trimmed, lower-cased) and value (trimmed) of the header line
/// `s[lo..hi)`; none where it has no colon.
pub open spec fn header_line(s: Seq<u8>, lo: int, hi: int) -> Option<(Seq<u8>, Seq<u8>)> {
    let c = colon_pos(s, lo, hi);
    if c >= hi {
        None
    } else {
        let ks = skip_space(s, lo, c);
        let ke = back_space(s, ks, c);
        let vs = skip_space(s, c + 1, hi);
        let ve = back_space(s, vs, hi);
        Some((lower(s.subrange(ks, ke)), s.subrange(vs, ve)))
    }
}

pub open spec fn content_length_name() -> Seq<u8> {
    seq![99u8, 111u8, 110u8, 116u8, 101u8, 110u8, 116u8, 45u8, 108u8, 101u8, 110u8, 103u8, 116u8, 104u8]
}

pub open spec fn transfer_encoding_name() -> Seq<u8> {
    seq![116u8, 114u8, 97u8, 110u8, 115u8, 102u8, 101u8, 114u8, 45u8, 101u8, 110u8, 99u8, 111u8, 100u8, 105u8, 110u8, 103u8]
}

pub open spec fn chunked_name() -> Seq<u8> {
    seq![99u8, 104u8, 117u8, 110u8, 107u8, 101u8, 100u8]
}

/// The header block after one more field: it is stored, and a content length
/// or a chunked transfer encoding is taken note of.
pub open spec fn absorb(acc: HeadAcc, key: Seq<u8>, value: Seq<u8>) -> HeadAcc {
    let length = if key == content_length_name() {
        match bounded_number(value, 0, value.len() as int, 10, usize::MAX as nat) {
            Some(n) => n,
            None => 0,
        }
    } else {
        acc.length
    };
    let te = key == transfer_encoding_name() && lower(value) == chunked_name();
    HeadAcc {
        headers: with_entry(acc.headers, decode_utf8(key), decode_utf8(value)),
        length: if te { 0 } else { length },
        chunked: acc.chunked || te,
    }
}

pub enum HeadScan {
    /// The block has not ended yet.
    Partial(HeadAcc),
    Malformed,
    /// The block ended; the body starts at the given position.
    Done(HeadAcc, int),
}

/// The header lines from `pos` on, up to the blank line that ends them.
pub open spec fn scan_headers(s: Seq<u8>, pos: int, acc: HeadAcc) -> HeadScan
    decreases s.len() - pos,
{
    match find_crlf(s, pos) {
        None => HeadScan::Partial(acc),
        Some(e) => if e < pos || e + 2 > s.len() {
            HeadScan::Malformed
        } else if e == pos {
            HeadScan::Done(acc, e + 2)
        } else {
            match header_line(s, pos, e) {
                None => HeadScan::Malformed,
                Some(kv) => if valid_utf8(kv.0) && valid_utf8(kv.1) {
                    scan_headers(s, e + 2, absorb(acc, kv.0, kv.1))
                } else {
                    HeadScan::Malformed
                },
            }
        },
    }
}

/// The size on the chunk size line `s[lo..hi)`: hexadecimal, after an
/// optional `0x`.
pub open spec fn chunk_size_of(s: Seq<u8>, lo: int, hi: int) -> Option<nat> {
    let start = if hi - lo >= 2 && s[lo] == 48u8 && s[lo + 1] == 120u8 {
        lo + 2
    } else {
        lo
    };
    bounded_number(s, start, hi, 16, usize::MAX as nat)
}

pub enum BodyScan {
    /// More bytes are needed; the payload of the chunks complete so far.
    Partial(Seq<u8>),
    Malformed,
    Done(Seq<u8>),
}

/// Chunked framing from `pos` on; `body` holds the payload decoded so far.
/// Blank lines between chunks are passed over.
pub open spec fn scan_chunks(s: Seq<u8>, pos: int, body: Seq<u8>) -> BodyScan
    decreases s.len() - pos,
{
    match find_crlf(s, pos) {
        None => BodyScan::Partial(body),
        Some(e) => if e < pos || e + 2 > s.len() {
            BodyScan::Malformed
        } else if e == pos {
            scan_chunks(s, e + 2, body)
        } else {
            match chunk_size_of(s, pos, e) {
                None => BodyScan::Malformed,
                Some(n) => if n == 0 {
                    BodyScan::Done(body)
                } else if s.len() - (e + 2) < n {
                    BodyScan::Partial(body)
                } else {
                    scan_chunks(s, e + 2 + n, body + s.subrange(e + 2, e + 2 + n))
                },
            }
        },
    }
}

/// Where the parse of a response stands after the bytes `s`.
pub enum Progress {
    AwaitStatus,
    AwaitHeaders(u16, HeadAcc),
    AwaitBody(u16, HeadAcc),
    Complete(u16, Seq<Entry>, Seq<u8>),
    Failed(HttpError),
}

/// The parse of the whole byte stream `s` received so far.
pub open spec fn progress(s: Seq<u8>) -> Progress {
    match find_crlf(s, 0) {
        None => Progress::AwaitStatus,
        Some(e) => match status_of(s, e) {
            None => Progress::Failed(HttpError::InvalidStatusLine),
            Some(code) => match scan_headers(s, e + 2, empty_acc()) {
                HeadScan::Partial(acc) => Progress::AwaitHeaders(code, acc),
                HeadScan::Malformed => Progress::Failed(HttpError::InvalidHeader),
                HeadScan::Done(acc, b) => if acc.chunked {
                    match scan_chunks(s, b, Seq::empty()) {
                        BodyScan::Partial(_) => Progress::AwaitBody(code, acc),
                        BodyScan::Malformed => Progress::Failed(HttpError::InvalidChunkSize),
                        BodyScan::Done(body) => Progress::Complete(code, acc.headers, body),
                    }
                } else if s.len() - b >= acc.length {
                    Progress::Complete(code, acc.headers, s.subrange(b, b + acc.length))
                } else {
                    Progress::AwaitBody(code, acc)
                },
            },
        },
    }
}

pub open spec fn state_of(p: Progress) -> State {
    match p {
        Progress::AwaitStatus => State::Init,
        Progress::AwaitHeaders(_, _) => State::Headers,
        Progress::AwaitBody(_, _) => State::Body,
        Progress::Complete(_, _, _) => State::Finish,
        Progress::Failed(_) => State::Init,
    }
}

fn same_bytes(a: &Vec<u8>, b: &Vec<u8>) -> (r: bool)
    ensures
        r == (a@ == b@),
{
    if a.len() != b.len() {
        return false;
    }
    let mut i: usize = 0;
    while i < a.len()
        invariant
            i <= a@.len() == b@.len(),
            forall|j: int| 0 <= j < i ==> a@[j] == b@[j],
        decreases a@.len() - i,
    {
        if a[i] != b[i] {
            return false;
        }
        i = i + 1;
    }
    assert(a@ =~= b@);
    true
}

fn parse_status_line(s: &Vec<u8>, e: usize) -> (r: Option<HttpStatus>)
    requires
        e <= s@.len(),
    ensures
        match r {
            Some(st) => status_of(s@, e as int) == Some(st.code()) && st.wf(),
            None => status_of(s@, e as int) is None,
        },
{
    let a = skip_space_exec(s, 0, e);
    let b = skip_token_exec(s, a, e);
    let c = skip_space_exec(s, b, e);
    let d = skip_token_exec(s, c, e);
    let f = skip_space_exec(s, d, e);
    if f >= e {
        return None;
    }
    match parse_number(s, c, d, 10, 65535) {
        Some(v) => match HttpStatus::from_u16(v as u16) {
            Ok(st) => Some(st),
            Err(_) => None,
        },
        None => None,
    }
}

fn colon_exec(s: &Vec<u8>, i: usize, hi: usize) -> (r: usize)
    requires
        i <= hi <= s@.len(),
    ensures
        r == colon_pos(s@, i as int, hi as int),
        i <= r <= hi,
{
    let mut k = i;
    while k < hi && s[k] != 58u8
        invariant
            i <= k <= hi <= s@.len(),
            colon_pos(s@, k as int, hi as int) == colon_pos(s@, i as int, hi as int),
        decreases hi - k,
    {
        k = k + 1;
    }
    k
}

/// The raw key and value bytes of the header line `s[lo..hi)`.
fn split_header_line(s: &Vec<u8>, lo: usize, hi: usize) -> (r: Option<(Vec<u8>, Vec<u8>)>)
    requires
        lo <= hi <= s@.len(),
    ensures
        match r {
            Some(kv) => header_line(s@, lo as int, hi as int) == Some((kv.0@, kv.1@)),
            None => header_line(s@, lo as int, hi as int) is None,
        },
{
    let c = colon_exec(s, lo, hi);
    if c >= hi {
        return None;
    }
    let ks = skip_space_exec(s, lo, c);
    let ke = back_space_exec(s, ks, c);
    let vs = skip_space_exec(s, c + 1, hi);
    let ve = back_space_exec(s, vs, hi);
    let key = lower_range(s, ks, ke);
    let value = copy_range(s, vs, ve);
    Some((key, value))
}

fn content_length_lit() -> (r: Vec<u8>)
    ensures
        r@ == content_length_name(),
{
    let r = vec![99u8, 111u8, 110u8, 116u8, 101u8, 110u8, 116u8, 45u8, 108u8, 101u8, 110u8, 103u8, 116u8, 104u8];
    assert(r@ =~= content_length_name());
    r
}

fn transfer_encoding_lit() -> (r: Vec<u8>)
    ensures
        r@ == transfer_encoding_name(),
{
    let r = vec![116u8, 114u8, 97u8, 110u8, 115u8, 102u8, 101u8, 114u8, 45u8, 101u8, 110u8, 99u8, 111u8, 100u8, 105u8, 110u8, 103u8];
    assert(r@ =~= transfer_encoding_name());
    r
}

fn chunked_lit() -> (r: Vec<u8>)
    ensures
        r@ == chunked_name(),
{
    let r = vec![99u8, 104u8, 117u8, 110u8, 107u8, 101u8, 100u8];
    assert(r@ =~= chunked_name());
    r
}

/// The header block as read so far.
struct HeadState {
    headers: HttpHeaders,
    length: usize,
    chunked: bool,
}

impl HeadState {
    spec fn acc(&self) -> HeadAcc {
        HeadAcc { headers: self.headers@, length: self.length as nat, chunked: self.chunked }
    }
}

enum HeadEnd {
    Open,
    Bad,
    Closed(usize),
}

/// Reads header lines from `start` until the blank line, the end of the bytes
/// or a malformed line.
fn read_headers(s: &Vec<u8>, start: usize) -> (r: (HeadState, HeadEnd))
    requires
        start <= s@.len(),
    ensures
        match scan_headers(s@, start as int, empty_acc()) {
            HeadScan::Partial(acc) => r.1 is Open && r.0.acc() == acc,
            HeadScan::Malformed => r.1 is Bad,
            HeadScan::Done(acc, b) => r.1 == HeadEnd::Closed(b as usize) && r.0.acc() == acc && b
                <= s@.len(),
        },
        r.1 matches HeadEnd::Closed(b) ==> b <= s@.len() && scan_headers(
            s@,
            start as int,
            empty_acc(),
        ) == HeadScan::Done(r.0.acc(), b as int),
        r.1 is Open ==> scan_headers(s@, start as int, empty_acc()) == HeadScan::Partial(r.0.acc()),
        r.1 is Bad ==> scan_headers(s@, start as int, empty_acc()) is Malformed,
{
    let mut st = HeadState { headers: HttpHeaders::new(), length: 0, chunked: false };
    let mut pos = start;
    assert(st.acc() == empty_acc());
    let cl = content_length_lit();
    let te = transfer_encoding_lit();
    let ch = chunked_lit();
    loop
        invariant
            pos <= s@.len(),
            cl@ == content_length_name(),
            te@ == transfer_encoding_name(),
            ch@ == chunked_name(),
            scan_headers(s@, pos as int, st.acc()) == scan_headers(s@, start as int, empty_acc()),
        decreases s@.len() - pos,
    {
        proof {
            lemma_find_crlf_bounds(s@, pos as int);
        }
        let e = match get_line(s, pos) {
            None => return (st, HeadEnd::Open),
            Some(e) => e,
        };
        if e == pos {
            return (st, HeadEnd::Closed(e + 2));
        }
        let (key, value) = match split_header_line(s, pos, e) {
            None => return (st, HeadEnd::Bad),
            Some(kv) => kv,
        };
        let ghost acc0 = st.acc();
        let ghost kb = key@;
        let ghost vb = value@;
        let mut length = st.length;
        if same_bytes(&key, &cl) {
            length = match parse_number(&value, 0, value.len(), 10, usize::MAX) {
                Some(n) => n,
                None => 0,
            };
        }
        let mut chunked = st.chunked;
        if same_bytes(&key, &te) {
            let lv = lower_range(&value, 0, value.len());
            assert(value@.subrange(0, value@.len() as int) =~= value@);
            if same_bytes(&lv, &ch) {
                chunked = true;
                length = 0;
            }
        }
        let k = match text_of(key) {
            Some(k) => k,
            None => return (st, HeadEnd::Bad),
        };
        let v = match text_of(value) {
            Some(v) => v,
            None => return (st, HeadEnd::Bad),
        };
        st.headers.insert_owned(k, v);
        st.length = length;
        st.chunked = chunked;
        assert(st.acc() == absorb(acc0, kb, vb));
        pos = e + 2;
    }
}

} // verus!

verus! {

/// The bytes that the parser holds after `append(chunk)` on the bytes `s`:
/// none are taken once the response is complete, nor on a malformed one.
pub open spec fn feed(s: Seq<u8>, chunk: Seq<u8>) -> Seq<u8> {
    if progress(s) is Complete {
        s
    } else if progress(s + chunk) is Failed {
        s
    } else {
        s + chunk
    }
}

/// The bytes held after appending each of `parts` in turn.
pub open spec fn feed_all(s: Seq<u8>, parts: Seq<Seq<u8>>) -> Seq<u8>
    decreases parts.len(),
{
    if parts.len() == 0 {
        s
    } else {
        feed(feed_all(s, parts.drop_last()), parts.last())
    }
}

/// The pieces one after the other.
pub open spec fn joined(parts: Seq<Seq<u8>>) -> Seq<u8>
    decreases parts.len(),
{
    if parts.len() == 0 {
        Seq::empty()
    } else {
        joined(parts.drop_last()) + parts.last()
    }
}

/// A stream fed in pieces leaves the parser where one feed of the whole does,
/// wherever the pieces are cut, so long as no cut falls after the end of the
/// response and no piece brings a malformed line.
pub proof fn lemma_pieces_equal_whole(parts: Seq<Seq<u8>>)
    requires
        forall|k: int|
            0 <= k < parts.len() ==> !(progress(#[trigger] joined(parts.take(k))) is Complete),
        forall|k: int|
            0 < k <= parts.len() ==> !(progress(#[trigger] joined(parts.take(k))) is Failed),
    ensures
        feed_all(Seq::empty(), parts) == feed(Seq::empty(), joined(parts)),
        feed_all(Seq::empty(), parts) == joined(parts),
    decreases parts.len(),
{
    assert(find_crlf(Seq::<u8>::empty(), 0) is None);
    if parts.len() == 0 {
        assert(parts.take(0) =~= parts);
    } else {
        let front = parts.drop_last();
        assert forall|k: int| 0 <= k < front.len() implies !(progress(
            #[trigger] joined(front.take(k)),
        ) is Complete) by {
            assert(front.take(k) =~= parts.take(k));
        }
        assert forall|k: int| 0 < k <= front.len() implies !(progress(
            #[trigger] joined(front.take(k)),
        ) is Failed) by {
            assert(front.take(k) =~= parts.take(k));
        }
        lemma_pieces_equal_whole(front);
        let n = parts.len() - 1;
        assert(parts.take(n) =~= front);
        assert(parts.take(n + 1) =~= parts);
        assert(Seq::<u8>::empty() + joined(parts) =~= joined(parts));
    }
}

/// The parser fields agree with the parse `p` of the bytes taken so far.
pub open spec fn agrees(
    p: Progress,
    state: State,
    status: HttpStatus,
    headers: Seq<Entry>,
    body: Seq<u8>,
) -> bool {
    match p {
        Progress::AwaitStatus => state == State::Init && status.code() == 418 && headers.len()
            == 0,
        Progress::AwaitHeaders(code, acc) => state == State::Headers && status.code() == code
            && headers == acc.headers,
        Progress::AwaitBody(code, acc) => state == State::Body && status.code() == code && headers
            == acc.headers,
        Progress::Complete(code, h, b) => state == State::Finish && status.code() == code && headers
            == h && body == b,
        Progress::Failed(_) => false,
    }
}

/// The body as far as it has arrived: the content once the response is
/// complete; before that, the bytes after the header block, or under chunked
/// framing the payload of the chunks that are complete.
pub open spec fn body_so_far(s: Seq<u8>) -> Seq<u8> {
    match progress(s) {
        Progress::Complete(_, _, b) => b,
        Progress::AwaitBody(_, acc) => {
            let b = scan_headers(s, find_crlf(s, 0)->0 + 2, empty_acc())->Done_1;
            if acc.chunked {
                scan_chunks(s, b, Seq::empty())->Partial_0
            } else {
                s.subrange(b, s.len() as int)
            }
        },
        _ => Seq::empty(),
    }
}

/// Chunked framing from `b` may be taken up again at `pos` with the payload
/// `body`, whatever bytes follow `s`.
pub open spec fn chunks_resume(s: Seq<u8>, b: int, pos: int, body: Seq<u8>) -> bool {
    forall|u: Seq<u8>|
        #[trigger] scan_chunks(s + u, b, Seq::empty()) == scan_chunks(s + u, pos, body)
}

proof fn lemma_resume_here(s: Seq<u8>, b: int, pos: int, body: Seq<u8>)
    requires
        chunks_resume(s, b, pos, body),
    ensures
        scan_chunks(s, b, Seq::empty()) == scan_chunks(s, pos, body),
{
    assert(s + Seq::<u8>::empty() =~= s);
    assert(scan_chunks(s + Seq::<u8>::empty(), b, Seq::empty()) == scan_chunks(
        s + Seq::<u8>::empty(),
        pos,
        body,
    ));
}

enum HeadOutcome {
    NoStatus,
    Open(HttpStatus, HttpHeaders),
    Ready(HttpStatus, HeadState, usize),
}

/// Reads the status line and the header block of `s`.
fn read_head(s: &Vec<u8>) -> (r: Result<HeadOutcome, HttpError>)
    ensures
        match r {
            Err(e) => progress(s@) == Progress::Failed(e),
            Ok(HeadOutcome::NoStatus) => progress(s@) == Progress::AwaitStatus,
            Ok(HeadOutcome::Open(st, h)) => st.wf() && (progress(s@) matches Progress::AwaitHeaders(
                code,
                acc,
            ) && code == st.code() && acc.headers == h@),
            Ok(HeadOutcome::Ready(st, hs, b)) => st.wf() && b <= s@.len() && find_crlf(s@, 0) is Some
                && status_of(s@, find_crlf(s@, 0)->0) == Some(st.code()) && scan_headers(
                s@,
                find_crlf(s@, 0)->0 + 2,
                empty_acc(),
            ) == HeadScan::Done(hs.acc(), b as int),
        },
{
    let e = match get_line(s, 0) {
        None => return Ok(HeadOutcome::NoStatus),
        Some(e) => e,
    };
    let status = match parse_status_line(s, e) {
        None => return Err(HttpError::InvalidStatusLine),
        Some(st) => st,
    };
    let (head, end) = read_headers(s, e + 2);
    match end {
        HeadEnd::Open => Ok(HeadOutcome::Open(status, head.headers)),
        HeadEnd::Bad => Err(HttpError::InvalidHeader),
        HeadEnd::Closed(b) => Ok(HeadOutcome::Ready(status, head, b)),
    }
}

/// Takes in the body bytes that have arrived, up to the declared length.
fn advance_length(s: &Vec<u8>, b: usize, length: usize, body: &mut Vec<u8>) -> (done: bool)
    requires
        b + old(body)@.len() <= s@.len(),
        old(body)@ == s@.subrange(b as int, b + old(body)@.len()),
        old(body)@.len() <= length,
    ensures
        done == (s@.len() - b >= length),
        done ==> final(body)@ == s@.subrange(b as int, b + length),
        !done ==> final(body)@ == s@.subrange(b as int, s@.len() as int),
{
    let have = body.len();
    let done = s.len() - b >= length;
    let end = if done {
        b + length
    } else {
        s.len()
    };
    extend_range(body, s, b + have, end);
    assert(body@ =~= s@.subrange(b as int, end as int));
    done
}

/// Follows chunked framing from `pos` as far as the bytes go, adding the
/// payload of each complete chunk to `body`.
fn advance_chunks(s: &Vec<u8>, b: usize, pos: usize, body: &mut Vec<u8>) -> (r: Result<
    (bool, usize),
    HttpError,
>)
    requires
        b <= pos <= s@.len(),
        chunks_resume(s@, b as int, pos as int, old(body)@),
    ensures
        old(body)@.len() <= final(body)@.len(),
        final(body)@.subrange(0, old(body)@.len() as int) == old(body)@,
        match r {
            Err(e) => e == HttpError::InvalidChunkSize && scan_chunks(
                s@,
                b as int,
                Seq::empty(),
            ) is Malformed,
            Ok((true, _)) => scan_chunks(s@, b as int, Seq::empty()) == BodyScan::Done(
                final(body)@,
            ),
            Ok((false, p)) => scan_chunks(s@, b as int, Seq::empty()) == BodyScan::Partial(
                final(body)@,
            ) && b <= p <= s@.len() && chunks_resume(s@, b as int, p as int, final(body)@),
        },
{
    let mut p = pos;
    loop
        invariant
            b <= p <= s@.len(),
            chunks_resume(s@, b as int, p as int, body@),
            old(body)@.len() <= body@.len(),
            body@.subrange(0, old(body)@.len() as int) == old(body)@,
        decreases s@.len() - p,
    {
        proof {
            lemma_find_crlf_bounds(s@, p as int);
            lemma_resume_here(s@, b as int, p as int, body@);
        }
        let e = match get_line(s, p) {
            None => return Ok((false, p)),
            Some(e) => e,
        };
        proof {
            assert forall|u: Seq<u8>| true implies #[trigger] scan_chunks(
                s@ + u,
                b as int,
                Seq::empty(),
            ) == scan_chunks(s@ + u, b as int, Seq::empty()) by {
                lemma_chunk_step(s@, u, p as int, body@);
            }
        }
        if e == p {
            proof {
                assert forall|u: Seq<u8>| #[trigger] scan_chunks(s@ + u, b as int, Seq::empty())
                    == scan_chunks(s@ + u, e + 2, body@) by {
                    lemma_chunk_step(s@, u, p as int, body@);
                }
            }
            p = e + 2;
        } else {
            let from = if e - p >= 2 && s[p] == 48u8 && s[p + 1] == 120u8 {
                p + 2
            } else {
                p
            };
            let n = match parse_number(s, from, e, 16, usize::MAX) {
                None => return Err(HttpError::InvalidChunkSize),
                Some(n) => n,
            };
            if n == 0 {
                return Ok((true, p));
            }
            if s.len() - (e + 2) < n {
                return Ok((false, p));
            }
            let ghost before = body@;
            extend_range(body, s, e + 2, e + 2 + n);
            proof {
                assert forall|u: Seq<u8>| #[trigger] scan_chunks(s@ + u, b as int, Seq::empty())
                    == scan_chunks(s@ + u, e + 2 + n, body@) by {
                    lemma_chunk_step(s@, u, p as int, before);
                }
                assert(body@.subrange(0, old(body)@.len() as int) =~= before.subrange(
                    0,
                    old(body)@.len() as int,
                ));
            }
            p = e + 2 + n;
        }
    }
}

/// Consumes a response in pieces of any size, as they come off the socket.
/// Until the header block is complete, each call reads the status and header
/// lines from the start; once it is, the block is kept, and each body byte is
/// looked at once, save a chunk size line that a piece cuts in two.
pub struct HttpResponseBuilder {
    received: Vec<u8>,
    state: State,
    status: HttpStatus,
    headers: HttpHeaders,
    body: Vec<u8>,
    body_start: usize,
    length: usize,
    chunked: bool,
    chunk_pos: usize,
}

impl View for HttpResponseBuilder {
    type V = Seq<u8>;

    /// The bytes taken so far.
    closed spec fn view(&self) -> Seq<u8> {
        self.received@
    }
}

impl HttpResponseBuilder {
    pub closed spec fn wf(&self) -> bool {
        let s = self.received@;
        &&& agrees(progress(s), self.state, self.status, self.headers@, self.body@)
        &&& self.status.wf()
        &&& self.body@ == body_so_far(s)
        &&& (self.state == State::Body || self.state == State::Finish) ==> head_done(
            s,
            self.body_start as int,
            self.length as nat,
            self.chunked,
        ) && self.body_start <= s.len()
        &&& (self.state == State::Body && self.chunked) ==> self.body_start <= self.chunk_pos
            <= s.len() && chunks_resume(s, self.body_start as int, self.chunk_pos as int, self.body@)
    }

    /// A parser in use never holds bytes that its parse rejects.
    pub proof fn lemma_never_failed(&self)
        requires
            self.wf(),
        ensures
            !(progress(self@) is Failed),
    {
    }

    /// The phase that the bytes taken so far put the parser in.
    pub open spec fn phase(&self) -> State {
        state_of(progress(self@))
    }

    pub fn new() -> (r: HttpResponseBuilder)
        ensures
            r.wf(),
            r@ == Seq::<u8>::empty(),
            r.phase() == State::Init,
    {
        let r = HttpResponseBuilder {
            received: Vec::new(),
            state: State::Init,
            status: HttpStatus::teapot(),
            headers: HttpHeaders::new(),
            body: Vec::new(),
            body_start: 0,
            length: 0,
            chunked: false,
            chunk_pos: 0,
        };
        assert(find_crlf(r.received@, 0) is None);
        r
    }

    /// The response, once it is complete.
    pub fn get(&self) -> (r: Option<HttpResponse>)
        requires
            self.wf(),
        ensures
            match progress(self@) {
                Progress::Complete(code, h, b) => r matches Some(resp) && resp.status.code() == code
                    && resp.headers@ == h && resp.content@ == b,
                _ => r is None,
            },
    {
        if self.state == State::Finish {
            let content = copy_range(&self.body, 0, self.body.len());
            assert(self.body@.subrange(0, self.body@.len() as int) =~= self.body@);
            Some(HttpResponse { status: self.status, headers: self.headers.clone(), content })
        } else {
            None
        }
    }

    /// The phase of the parser.
    pub fn state(&self) -> (r: State)
        requires
            self.wf(),
        ensures
            r == self.phase(),
    {
        self.state
    }

    /// The status read so far (the teapot status before the status line).
    pub fn status(&self) -> (r: HttpStatus)
        requires
            self.wf(),
        ensures
            match progress(self@) {
                Progress::AwaitHeaders(code, _) => r.code() == code,
                Progress::AwaitBody(code, _) => r.code() == code,
                Progress::Complete(code, _, _) => r.code() == code,
                _ => r.code() == 418,
            },
    {
        self.status
    }

    /// The header fields read so far.
    pub fn headers(&self) -> (r: &HttpHeaders)
        requires
            self.wf(),
        ensures
            match progress(self@) {
                Progress::AwaitHeaders(_, acc) => r@ == acc.headers,
                Progress::AwaitBody(_, acc) => r@ == acc.headers,
                Progress::Complete(_, h, _) => r@ == h,
                _ => r@.len() == 0,
            },
    {
        &self.headers
    }

    /// The body as far as it has arrived.
    pub fn body(&self) -> (r: &Vec<u8>)
        requires
            self.wf(),
        ensures
            r@ == body_so_far(self@),
    {
        &self.body
    }

    /// Takes the next bytes of the response and reports whether it is complete.
    /// Once complete, the parser takes no more bytes. On a malformed status
    /// line, header or chunk size it returns the error and keeps its state.
    #[verifier::rlimit(60)]
    pub fn append(&mut self, chunk: &[u8]) -> (r: Result<bool, HttpError>)
        requires
            old(self).wf(),
        ensures
            final(self).wf(),
            final(self)@ == feed(old(self)@, chunk@),
            progress(old(self)@) is Complete ==> r == Ok::<bool, HttpError>(true) && final(self)@
                == old(self)@,
            !(progress(old(self)@) is Complete) ==> match progress(old(self)@ + chunk@) {
                Progress::Failed(e) => r == Err::<bool, HttpError>(e) && final(self)@ == old(
                    self,
                )@,
                p => r == Ok::<bool, HttpError>(p is Complete) && final(self)@ == old(self)@
                    + chunk@,
            },
    {
        if self.state == State::Finish {
            return Ok(true);
        }
        let ghost s0 = self.received@;
        let old_len = self.received.len();
        push_all(&mut self.received, chunk);
        assert(self.received@.subrange(0, old_len as int) =~= s0);
        assert(self.received@.subrange(old_len as int, self.received@.len() as int) =~= chunk@);
        if self.state == State::Body {
            self.append_body(Ghost(s0), old_len)
        } else {
            self.append_head(Ghost(s0), old_len)
        }
    }

    /// `append` while the header block is still open.
    #[verifier::rlimit(60)]
    fn append_head(&mut self, s0: Ghost<Seq<u8>>, old_len: usize) -> (r: Result<bool, HttpError>)
        requires
            old(self).state == State::Init || old(self).state == State::Headers,
            s0@.len() == old_len,
            old(self).received@.subrange(0, old_len as int) == s0@,
            old_len <= old(self).received@.len(),
            agrees(progress(s0@), old(self).state, old(self).status, old(self).headers@, old(self).body@),
            old(self).body@ == body_so_far(s0@),
            old(self).status.wf(),
        ensures
            final(self).wf(),
            match progress(old(self).received@) {
                Progress::Failed(e) => r == Err::<bool, HttpError>(e) && final(self)@ == s0@,
                p => r == Ok::<bool, HttpError>(p is Complete) && final(self)@ == old(self).received@,
            },
    {
        match read_head(&self.received) {
            Err(e) => {
                self.received.truncate(old_len);
                assert(self.received@ =~= s0@);
                Err(e)
            },
            Ok(HeadOutcome::NoStatus) => {
                self.state = State::Init;
                self.status = HttpStatus::teapot();
                self.headers = HttpHeaders::new();
                self.body = Vec::new();
                Ok(false)
            },
            Ok(HeadOutcome::Open(st, h)) => {
                self.state = State::Headers;
                self.status = st;
                self.headers = h;
                self.body = Vec::new();
                Ok(false)
            },
            Ok(HeadOutcome::Ready(st, hs, b)) => {
                let mut body: Vec<u8> = Vec::new();
                if hs.chunked {
                    proof {
                        assert(chunks_resume(self.received@, b as int, b as int, body@));
                    }
                    match advance_chunks(&self.received, b, b, &mut body) {
                        Err(e) => {
                            self.received.truncate(old_len);
                            assert(self.received@ =~= s0@);
                            Err(e)
                        },
                        Ok((done, p)) => {
                            self.state = if done { State::Finish } else { State::Body };
                            self.status = st;
                            self.headers = hs.headers;
                            self.body = body;
                            self.body_start = b;
                            self.length = hs.length;
                            self.chunked = true;
                            self.chunk_pos = p;
                            Ok(done)
                        },
                    }
                } else {
                    assert(body@ =~= self.received@.subrange(b as int, b as int));
                    let done = advance_length(&self.received, b, hs.length, &mut body);
                    self.state = if done { State::Finish } else { State::Body };
                    self.status = st;
                    self.headers = hs.headers;
                    self.body = body;
                    self.body_start = b;
                    self.length = hs.length;
                    self.chunked = false;
                    Ok(done)
                }
            },
        }
    }

    /// `append` once the header block is complete.
    #[verifier::rlimit(60)]
    fn append_body(&mut self, s0: Ghost<Seq<u8>>, old_len: usize) -> (r: Result<bool, HttpError>)
        requires
            old(self).state == State::Body,
            s0@.len() == old_len,
            old_len <= old(self).received@.len(),
            old(self).received@ == s0@ + old(self).received@.subrange(old_len as int, old(self).received@.len() as int),
            agrees(progress(s0@), old(self).state, old(self).status, old(self).headers@, old(self).body@),
            old(self).body@ == body_so_far(s0@),
            old(self).status.wf(),
            head_done(s0@, old(self).body_start as int, old(self).length as nat, old(self).chunked),
            old(self).body_start <= s0@.len(),
            old(self).chunked ==> old(self).body_start <= old(self).chunk_pos <= s0@.len()
                && chunks_resume(s0@, old(self).body_start as int, old(self).chunk_pos as int, old(self).body@),
        ensures
            final(self).wf(),
            match progress(old(self).received@) {
                Progress::Failed(e) => r == Err::<bool, HttpError>(e) && final(self)@ == s0@,
                p => r == Ok::<bool, HttpError>(p is Complete) && final(self)@ == old(self).received@,
            },
    {
        let ghost t = self.received@.subrange(old_len as int, self.received@.len() as int);
        proof {
            lemma_head_extend(s0@, t);
        }
        if self.chunked {
            proof {
                assert forall|u: Seq<u8>| #[trigger] scan_chunks(self.received@ + u, self.body_start as int, Seq::empty())
                    == scan_chunks(self.received@ + u, self.chunk_pos as int, self.body@) by {
                    assert(self.received@ + u =~= s0@ + (t + u));
                    assert(scan_chunks(s0@ + (t + u), self.body_start as int, Seq::empty())
                        == scan_chunks(s0@ + (t + u), self.chunk_pos as int, self.body@));
                }
            }
            let body_len = self.body.len();
            let ghost body0 = self.body@;
            match advance_chunks(&self.received, self.body_start, self.chunk_pos, &mut self.body) {
                Err(e) => {
                    self.received.truncate(old_len);
                    self.body.truncate(body_len);
                    assert(self.received@ =~= s0@);
                    assert(self.body@ =~= body0);
                    Err(e)
                },
                Ok((done, p)) => {
                    self.chunk_pos = p;
                    if done {
                        self.state = State::Finish;
                    }
                    Ok(done)
                },
            }
        } else {
            assert(s0@.subrange(self.body_start as int, s0@.len() as int) =~= self.received@.subrange(
                self.body_start as int,
                self.body_start + self.body@.len(),
            ));
            let done = advance_length(&self.received, self.body_start, self.length, &mut self.body);
            if done {
                self.state = State::Finish;
            }
            Ok(done)
        }
    }
}
} // verus!

verus! {

proof fn lemma_colon_agree(s1: Seq<u8>, s2: Seq<u8>, i: int, hi: int)
    requires
        agree(s1, s2, hi),
        0 <= i,
    ensures
        colon_pos(s1, i, hi) == colon_pos(s2, i, hi),
        i <= hi ==> i <= colon_pos(s1, i, hi) <= hi,
    decreases hi - i,
{
    if i < hi {
        lemma_colon_agree(s1, s2, i + 1, hi);
    }
}

proof fn lemma_status_agree(s1: Seq<u8>, s2: Seq<u8>, e: int)
    requires
        agree(s1, s2, e),
        0 <= e,
    ensures
        status_of(s1, e) == status_of(s2, e),
{
    lemma_skip_space_agree(s1, s2, 0, e);
    let a = skip_space(s1, 0, e);
    lemma_skip_token_agree(s1, s2, a, e);
    let b = skip_token(s1, a, e);
    lemma_skip_space_agree(s1, s2, b, e);
    let c = skip_space(s1, b, e);
    lemma_skip_token_agree(s1, s2, c, e);
    let d = skip_token(s1, c, e);
    lemma_skip_space_agree(s1, s2, d, e);
    assert(agree(s1, s2, d));
    lemma_digits_agree(s1, s2, c, d, 10);
    lemma_digits_agree(s1, s2, c + 1, d, 10);
}

proof fn lemma_header_line_agree(s1: Seq<u8>, s2: Seq<u8>, lo: int, hi: int)
    requires
        agree(s1, s2, hi),
        0 <= lo <= hi,
    ensures
        header_line(s1, lo, hi) == header_line(s2, lo, hi),
{
    lemma_colon_agree(s1, s2, lo, hi);
    let c = colon_pos(s1, lo, hi);
    if c < hi {
        assert(agree(s1, s2, c));
        lemma_skip_space_agree(s1, s2, lo, c);
        let ks = skip_space(s1, lo, c);
        lemma_back_space_agree(s1, s2, ks, c);
        let ke = back_space(s1, ks, c);
        lemma_skip_space_agree(s1, s2, c + 1, hi);
        let vs = skip_space(s1, c + 1, hi);
        lemma_back_space_agree(s1, s2, vs, hi);
        let ve = back_space(s1, vs, hi);
        assert(s1.subrange(ks, ke) =~= s2.subrange(ks, ke));
        assert(s1.subrange(vs, ve) =~= s2.subrange(vs, ve));
    }
}

/// The header scan of a prefix follows that of the whole: it ends where the
/// whole ends if the prefix reaches that far, and waits for more otherwise.
proof fn lemma_scan_headers_prefix(m: Seq<u8>, k: int, pos: int, acc: HeadAcc)
    requires
        0 <= pos,
        0 <= k <= m.len(),
        scan_headers(m, pos, acc) is Done,
    ensures
        scan_headers(m, pos, acc) matches HeadScan::Done(a, b) ==> b >= pos + 2 && (k >= b
            ==> scan_headers(m.take(k), pos, acc) == HeadScan::Done(a, b)) && (k < b
            ==> scan_headers(m.take(k), pos, acc) is Partial),
    decreases m.len() - pos,
{
    let p = m.take(k);
    lemma_find_crlf_prefix(m, k, pos);
    lemma_find_crlf_bounds(m, pos);
    let e = find_crlf(m, pos)->0;
    if e + 2 <= k {
        assert(agree(m, p, e));
        if e != pos {
            lemma_header_line_agree(m, p, pos, e);
            let kv = header_line(m, pos, e)->0;
            lemma_scan_headers_prefix(m, k, e + 2, absorb(acc, kv.0, kv.1));
        }
    } else if e != pos {
        let kv = header_line(m, pos, e)->0;
        lemma_scan_headers_prefix(m, k, e + 2, absorb(acc, kv.0, kv.1));
    }
}

/// A response framed by its content length: the parser holds no response on
/// any proper prefix and never fails on one, and on the whole it holds the
/// response whose content is exactly the declared number of bytes.
#[verifier::rlimit(50)]
pub proof fn lemma_content_length_prefixes(m: Seq<u8>, k: int)
    requires
        find_crlf(m, 0) is Some,
        status_of(m, find_crlf(m, 0)->0) is Some,
        scan_headers(m, find_crlf(m, 0)->0 + 2, empty_acc()) matches HeadScan::Done(acc, b)
            && !acc.chunked && m.len() == b + acc.length,
        0 <= k <= m.len(),
    ensures
        !(progress(m.take(k)) is Failed),
        progress(m.take(k)) is Complete <==> k == m.len(),
        scan_headers(m, find_crlf(m, 0)->0 + 2, empty_acc()) matches HeadScan::Done(acc, b)
            && progress(m) matches Progress::Complete(_, _, body) && body.len() == acc.length
            && body == m.skip(b),
{
    let e0 = find_crlf(m, 0)->0;
    let p = m.take(k);
    lemma_find_crlf_prefix(m, k, 0);
    lemma_find_crlf_bounds(m, 0);
    lemma_scan_headers_prefix(m, k, e0 + 2, empty_acc());
    lemma_scan_headers_prefix(m, m.len() as int, e0 + 2, empty_acc());
    assert(m.take(m.len() as int) =~= m);
    if e0 + 2 <= k {
        assert(agree(m, p, e0));
        lemma_status_agree(m, p, e0);
    }
    assert(m.subrange(
        scan_headers(m, e0 + 2, empty_acc())->Done_1,
        m.len() as int,
    ) =~= m.skip(scan_headers(m, e0 + 2, empty_acc())->Done_1));
}

} // verus!

verus! {

proof fn lemma_joined_prefix(parts: Seq<Seq<u8>>, k: int)
    requires
        0 <= k <= parts.len(),
    ensures
        joined(parts.take(k)) == joined(parts).take(joined(parts.take(k)).len() as int),
        joined(parts.take(k)).len() <= joined(parts).len(),
        k < parts.len() ==> joined(parts.take(k)).len() + parts.last().len() <= joined(parts).len(),
    decreases parts.len(),
{
    if k == parts.len() {
        assert(parts.take(k) =~= parts);
        assert(joined(parts).take(joined(parts).len() as int) =~= joined(parts));
    } else {
        let front = parts.drop_last();
        assert(parts.take(k) =~= front.take(k));
        lemma_joined_prefix(front, k);
        let l = joined(front.take(k)).len() as int;
        assert(joined(parts) == joined(front) + parts.last());
        assert(joined(parts).take(l) =~= joined(front).take(l));
    }
}

/// A response framed by its content length, cut into pieces in any way with a
/// non-empty last piece: appending the pieces one by one leaves the parser
/// holding what one append of the whole does; it has no response before the
/// last piece, and after it the response whose content is the declared number
/// of bytes.
pub proof fn lemma_framed_response_in_pieces(parts: Seq<Seq<u8>>, m: Seq<u8>)
    requires
        m == joined(parts),
        parts.len() > 0,
        parts.last().len() > 0,
        find_crlf(m, 0) is Some,
        status_of(m, find_crlf(m, 0)->0) is Some,
        scan_headers(m, find_crlf(m, 0)->0 + 2, empty_acc()) matches HeadScan::Done(acc, b)
            && !acc.chunked && m.len() == b + acc.length,
    ensures
        feed_all(Seq::empty(), parts) == feed(Seq::empty(), m),
        feed_all(Seq::empty(), parts) == m,
        forall|k: int|
            0 <= k < parts.len() ==> !(progress(
                #[trigger] feed_all(Seq::empty(), parts.take(k)),
            ) is Complete),
        scan_headers(m, find_crlf(m, 0)->0 + 2, empty_acc()) matches HeadScan::Done(acc, b)
            && progress(m) matches Progress::Complete(_, _, body) && body.len() == acc.length,
{
    assert forall|k: int| 0 <= k <= parts.len() implies !(progress(
        #[trigger] joined(parts.take(k)),
    ) is Failed) && (k < parts.len() ==> !(progress(joined(parts.take(k))) is Complete)) by {
        lemma_joined_prefix(parts, k);
        let l = joined(parts.take(k)).len() as int;
        lemma_content_length_prefixes(m, l);
    }
    lemma_pieces_equal_whole(parts);
    assert forall|k: int| 0 <= k < parts.len() implies !(progress(
        #[trigger] feed_all(Seq::empty(), parts.take(k)),
    ) is Complete) by {
        let front = parts.take(k);
        assert forall|j: int| 0 <= j < front.len() implies !(progress(
            #[trigger] joined(front.take(j)),
        ) is Complete) by {
            assert(front.take(j) =~= parts.take(j));
        }
        assert forall|j: int| 0 < j <= front.len() implies !(progress(
            #[trigger] joined(front.take(j)),
        ) is Failed) by {
            assert(front.take(j) =~= parts.take(j));
        }
        lemma_pieces_equal_whole(front);
    }
    lemma_content_length_prefixes(m, m.len() as int);
}

} // verus!

verus! {

/// A header scan that has ended stays ended, at the same place, however many
/// bytes follow.
proof fn lemma_scan_headers_extend(s: Seq<u8>, u: Seq<u8>, pos: int, acc: HeadAcc)
    requires
        0 <= pos,
        scan_headers(s, pos, acc) is Done,
    ensures
        scan_headers(s + u, pos, acc) == scan_headers(s, pos, acc),
    decreases s.len() - pos,
{
    let m = s + u;
    assert(m.take(s.len() as int) =~= s);
    lemma_find_crlf_prefix(m, s.len() as int, pos);
    lemma_find_crlf_bounds(s, pos);
    let e = find_crlf(s, pos)->0;
    if e != pos {
        assert(agree(s, m, e));
        lemma_header_line_agree(s, m, pos, e);
        let kv = header_line(s, pos, e)->0;
        lemma_scan_headers_extend(s, u, e + 2, absorb(acc, kv.0, kv.1));
    }
}

/// The header block is complete in `s`, ends at `b`, and declares `length`
/// and `chunked`.
pub open spec fn head_done(s: Seq<u8>, b: int, length: nat, chunked: bool) -> bool {
    &&& find_crlf(s, 0) is Some
    &&& status_of(s, find_crlf(s, 0)->0) is Some
    &&& scan_headers(s, find_crlf(s, 0)->0 + 2, empty_acc()) matches HeadScan::Done(acc, bb) && bb
        == b && acc.length == length && acc.chunked == chunked
}

proof fn lemma_head_extend(s: Seq<u8>, u: Seq<u8>)
    requires
        find_crlf(s, 0) is Some,
        status_of(s, find_crlf(s, 0)->0) is Some,
        scan_headers(s, find_crlf(s, 0)->0 + 2, empty_acc()) is Done,
    ensures
        find_crlf(s + u, 0) == find_crlf(s, 0),
        status_of(s + u, find_crlf(s, 0)->0) == status_of(s, find_crlf(s, 0)->0),
        scan_headers(s + u, find_crlf(s, 0)->0 + 2, empty_acc()) == scan_headers(
            s,
            find_crlf(s, 0)->0 + 2,
            empty_acc(),
        ),
{
    let m = s + u;
    assert(m.take(s.len() as int) =~= s);
    lemma_find_crlf_prefix(m, s.len() as int, 0);
    lemma_find_crlf_bounds(s, 0);
    let e0 = find_crlf(s, 0)->0;
    assert(agree(s, m, e0));
    lemma_status_agree(s, m, e0);
    lemma_scan_headers_extend(s, u, e0 + 2, empty_acc());
}

proof fn lemma_chunk_size_agree(s1: Seq<u8>, s2: Seq<u8>, lo: int, hi: int)
    requires
        agree(s1, s2, hi),
        0 <= lo <= hi,
    ensures
        chunk_size_of(s1, lo, hi) == chunk_size_of(s2, lo, hi),
{
    lemma_digits_agree(s1, s2, lo, hi, 16);
    lemma_digits_agree(s1, s2, lo + 1, hi, 16);
    lemma_digits_agree(s1, s2, lo + 2, hi, 16);
    lemma_digits_agree(s1, s2, lo + 3, hi, 16);
}

/// A blank line, or a chunk whose payload has fully arrived, is passed the
/// same way whatever bytes follow.
proof fn lemma_chunk_step(s: Seq<u8>, u: Seq<u8>, pos: int, body: Seq<u8>)
    requires
        0 <= pos,
        find_crlf(s, pos) is Some,
    ensures
        ({
            let e = find_crlf(s, pos)->0;
            e == pos ==> scan_chunks(s + u, pos, body) == scan_chunks(s + u, e + 2, body)
        }),
        ({
            let e = find_crlf(s, pos)->0;
            e != pos ==> chunk_size_of(s + u, pos, e) == chunk_size_of(s, pos, e)
        }),
        ({
            let e = find_crlf(s, pos)->0;
            let n = chunk_size_of(s, pos, e)->0;
            e != pos && chunk_size_of(s, pos, e) is Some && n > 0 && e + 2 + n <= s.len()
                ==> scan_chunks(s + u, pos, body) == scan_chunks(
                s + u,
                e + 2 + n,
                body + s.subrange(e + 2, e + 2 + n),
            )
        }),
        ({
            let e = find_crlf(s, pos)->0;
            e != pos && chunk_size_of(s, pos, e) == Some(0nat) ==> scan_chunks(
                s + u,
                pos,
                body,
            ) == BodyScan::Done(body)
        }),
        ({
            let e = find_crlf(s, pos)->0;
            e != pos && chunk_size_of(s, pos, e) is None ==> scan_chunks(s + u, pos, body)
                is Malformed
        }),
{
    let m = s + u;
    assert(m.take(s.len() as int) =~= s);
    lemma_find_crlf_prefix(m, s.len() as int, pos);
    lemma_find_crlf_bounds(s, pos);
    let e = find_crlf(s, pos)->0;
    assert(agree(s, m, e));
    lemma_chunk_size_agree(s, m, pos, e);
    if e != pos {
        if let Some(n) = chunk_size_of(s, pos, e) {
            if n > 0 && e + 2 + n <= s.len() {
                assert(m.subrange(e + 2, e + 2 + n) =~= s.subrange(e + 2, e + 2 + n));
            }
        }
    }
}

} // verus!
