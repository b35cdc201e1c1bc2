//! The decisions of a connection: which authority to resolve, which address to
//! use, whether to speak TLS, and when the read loop ends. The socket work itself
//! is done by the caller, which hands each outcome back.
use vstd::prelude::*;
use vstd::string::*;
use crate::error::HttpError;
use crate::headers::Entry;
use crate::response::{feed, progress, HttpResponse, HttpResponseBuilder, Progress};

verus! {

pub open spec fn has_prefix(s: Seq<char>, p: Seq<char>) -> bool {
    p.len() <= s.len() && s.subrange(0, p.len() as int) == p
}

/// The first position of `c` in `s` at or after `i`, or the length of `s`.
pub open spec fn index_of(s: Seq<char>, c: char, i: int) -> int
    decreases s.len() - i,
{
    if i < 0 || i >= s.len() {
        s.len() as int
    } else if s[i] == c {
        i
    } else {
        index_of(s, c, i + 1)
    }
}

/// The host without its scheme, and whether the scheme was `https://`.
pub open spec fn strip_scheme(h: Seq<char>) -> (Seq<char>, bool) {
    if has_prefix(h, "https://"@) {
        (h.skip(8), true)
    } else if has_prefix(h, "http://"@) {
        (h.skip(7), false)
    } else {
        (h, false)
    }
}

/// Where to connect for `host`: the authority to resolve (with a port, and the
/// host `localhost` written as the loopback address), the name for TLS, and whether
/// TLS is used before resolution.
pub open spec fn endpoint_of(host: Seq<char>, ssl: bool) -> (Seq<char>, Seq<char>, bool) {
    let (rest, https) = strip_scheme(host);
    let tls = ssl || https;
    let hostport = rest.take(index_of(rest, '/', 0));
    let colon = index_of(hostport, ':', 0);
    let server = hostport.take(colon);
    let with_port = if colon < hostport.len() {
        hostport
    } else if tls {
        hostport + ":443"@
    } else {
        hostport + ":80"@
    };
    let authority = if server == "localhost"@ {
        "127.0.0.1"@ + with_port.skip(9)
    } else {
        with_port
    };
    (authority, server, tls)
}

/// Where to connect, as `resolve_target` decides it.
pub struct Endpoint {
    /// `host:port` to resolve.
    pub authority: String,
    /// The host name that TLS verifies.
    pub server_name: String,
    pub tls: bool,
}

pub(crate) fn starts_with(s: &str, p: &str) -> (r: bool)
    ensures
        r == has_prefix(s@, p@),
{
    let n = s.unicode_len();
    let m = p.unicode_len();
    if m > n {
        return false;
    }
    let mut i: usize = 0;
    while i < m
        invariant
            i <= m <= n,
            n == s@.len(),
            m == p@.len(),
            forall|j: int| 0 <= j < i ==> s@[j] == p@[j],
        decreases m - i,
    {
        if s.get_char(i) != p.get_char(i) {
            return false;
        }
        i = i + 1;
    }
    assert(s@.subrange(0, m as int) =~= p@);
    true
}

/// The first position of `c` in `s` at or after `from`, or the length of `s`.
pub(crate) fn find_from(s: &str, c: char, from: usize) -> (r: usize)
    requires
        from <= s@.len(),
    ensures
        r == index_of(s@, c, from as int),
        from <= r <= s@.len(),
{
    let n = s.unicode_len();
    let mut i = from;
    while i < n
        invariant
            from <= i <= n == s@.len(),
            index_of(s@, c, i as int) == index_of(s@, c, from as int),
        decreases n - i,
    {
        if s.get_char(i) == c {
            return i;
        }
        i = i + 1;
    }
    i
}

/// Decides where to connect for `host`. An `https://` scheme turns TLS on; a
/// missing port becomes 443 under TLS and 80 otherwise; a path after the
/// authority is dropped; `localhost` is written as `127.0.0.1`.
pub fn resolve_target(host: &str, ssl: bool) -> (r: Endpoint)
    ensures
        (r.authority@, r.server_name@, r.tls) == endpoint_of(host@, ssl),
{
    proof {
        reveal_strlit("https://");
        reveal_strlit("http://");
        reveal_strlit("localhost");
    }
    let (rest, https): (&str, bool) = if starts_with(host, "https://") {
        (host.substring_char(8, host.unicode_len()), true)
    } else if starts_with(host, "http://") {
        (host.substring_char(7, host.unicode_len()), false)
    } else {
        (host, false)
    };
    assert(host@.skip(8) =~= host@.subrange(8, host@.len() as int));
    assert(host@.skip(7) =~= host@.subrange(7, host@.len() as int));
    assert(rest@ == strip_scheme(host@).0);
    let tls = ssl || https;
    let slash = find_from(rest, '/', 0);
    let hostport = rest.substring_char(0, slash);
    assert(hostport@ =~= rest@.take(slash as int));
    let colon = find_from(hostport, ':', 0);
    let server = hostport.substring_char(0, colon);
    assert(server@ =~= hostport@.take(colon as int));
    let with_port: String = if colon < hostport.unicode_len() {
        hostport.to_owned()
    } else if tls {
        StringExecFns::concat(hostport.to_owned(), ":443")
    } else {
        StringExecFns::concat(hostport.to_owned(), ":80")
    };
    let server_name = server.to_owned();
    let authority: String = if server_name == "localhost".to_owned() {
        let tail = with_port.as_str().substring_char(9, with_port.as_str().unicode_len());
        assert(with_port@.skip(9) =~= tail@);
        StringExecFns::concat("127.0.0.1".to_owned(), tail)
    } else {
        with_port
    };
    Endpoint { authority, server_name, tls }
}

/// A socket address that resolution offered, as far as the choice reads it.
#[derive(Debug, Clone, Copy, PartialEq, Eq, Structural)]
pub struct Candidate {
    pub port: u16,
    /// The address is the unspecified wildcard.
    pub unspecified: bool,
}

pub open spec fn usable(c: Candidate) -> bool {
    c.port != 0 && !c.unspecified
}

/// The first usable candidate: one with a port other than zero and an address
/// other than the wildcard.
pub fn choose_address(cands: &Vec<Candidate>) -> (r: Result<usize, HttpError>)
    ensures
        match r {
            Ok(i) => i < cands@.len() && usable(cands@[i as int]) && forall|j: int|
                0 <= j < i ==> !usable(#[trigger] cands@[j]),
            Err(e) => e == HttpError::AddressResolution && forall|j: int|
                0 <= j < cands@.len() ==> !usable(#[trigger] cands@[j]),
        },
{
    let mut i: usize = 0;
    while i < cands.len()
        invariant
            i <= cands@.len(),
            forall|j: int| 0 <= j < i ==> !usable(#[trigger] cands@[j]),
        decreases cands@.len() - i,
    {
        let c = cands[i];
        if c.port != 0 && !c.unspecified {
            return Ok(i);
        }
        i = i + 1;
    }
    Err(HttpError::AddressResolution)
}

/// Whether to speak TLS once the port is known: port 443 forces it.
pub fn tls_after_resolution(tls: bool, port: u16) -> (r: bool)
    ensures
        r == (tls || port == 443),
{
    tls || port == 443
}

/// What the read loop does after one read.
pub enum ReadStep {
    /// Read again.
    Continue,
    /// The response is complete.
    Done(HttpResponse),
    /// The exchange failed.
    Failed(HttpError),
}

/// An empty read on an incomplete response, with `left` empty reads still
/// allowed: how many remain, and whether the connection now counts as closed.
pub open spec fn empty_read(left: nat) -> (nat, bool) {
    if left == 0 {
        (0, true)
    } else {
        ((left - 1) as nat, left - 1 == 0)
    }
}

/// The count and the verdict after `k` empty reads in a row.
pub open spec fn empty_reads(left: nat, k: nat) -> (nat, bool)
    decreases k,
{
    if k == 0 {
        (left, false)
    } else {
        let prev = empty_reads(left, (k - 1) as nat);
        if prev.1 {
            prev
        } else {
            empty_read(prev.0)
        }
    }
}

/// From a full count of `threshold`, the empty reads before the
/// `threshold`-th one in a row let the loop go on, and that one ends it.
pub proof fn lemma_empty_reads_close(threshold: nat)
    requires
        threshold > 0,
    ensures
        forall|k: nat| 0 < k < threshold ==> !(#[trigger] empty_reads(threshold, k)).1,
        empty_reads(threshold, threshold).1,
{
    assert forall|k: nat| k <= threshold implies (#[trigger] empty_reads(threshold, k)).0 == threshold
        - k && (empty_reads(threshold, k).1 <==> k == threshold) by {
        lemma_empty_reads_count(threshold, k);
    }
    assert(empty_reads(threshold, threshold).0 == 0);
}

proof fn lemma_empty_reads_count(threshold: nat, k: nat)
    requires
        k <= threshold,
        threshold > 0,
    ensures
        empty_reads(threshold, k).0 == threshold - k,
        empty_reads(threshold, k).1 <==> k == threshold,
    decreases k,
{
    if k > 0 {
        lemma_empty_reads_count(threshold, (k - 1) as nat);
    }
}

/// The read loop of one exchange: it feeds the parser and counts reads in a
/// row that brought no bytes.
pub struct ReadDriver {
    builder: HttpResponseBuilder,
    zero_left: usize,
    threshold: usize,
}

/// The response that a complete parse `p` describes.
pub open spec fn response_is(resp: HttpResponse, p: Progress) -> bool {
    match p {
        Progress::Complete(code, h, b) => resp.status.code() == code && resp.headers@ == h
            && resp.content@ == b,
        _ => false,
    }
}

impl ReadDriver {
    pub closed spec fn wf(&self) -> bool {
        self.builder.wf() && self.zero_left <= self.threshold
    }

    /// The bytes taken so far.
    pub closed spec fn received(&self) -> Seq<u8> {
        self.builder@
    }

    /// How many more reads in a row may bring no bytes.
    pub closed spec fn zero_left(&self) -> nat {
        self.zero_left as nat
    }

    pub closed spec fn threshold(&self) -> nat {
        self.threshold as nat
    }

    /// A driver that gives up after `threshold` empty reads in a row.
    pub fn new(threshold: usize) -> (r: ReadDriver)
        ensures
            r.wf(),
            r.received() == Seq::<u8>::empty(),
            r.zero_left() == threshold,
            r.threshold() == threshold,
    {
        ReadDriver { builder: HttpResponseBuilder::new(), zero_left: threshold, threshold }
    }

    /// Takes the bytes of one read (none for an empty read). A read with bytes
    /// resets the count of empty reads and feeds the parser; an empty read
    /// uses up one of them, and the last one ends the exchange unless the
    /// response is already complete.
    pub fn on_read(&mut self, data: &[u8]) -> (r: ReadStep)
        requires
            old(self).wf(),
        ensures
            final(self).wf(),
            final(self).threshold() == old(self).threshold(),
            old(self).zero_left() == 0 ==> r == ReadStep::Failed(HttpError::ConnectionClosed)
                && final(self).received() == old(self).received(),
            data@.len() == 0 && !(progress(old(self).received()) is Complete) ==> (
            final(self).zero_left(),
            r is Failed,
            ) == empty_read(old(self).zero_left()),
            old(self).zero_left() > 0 && data@.len() == 0 ==> final(self).received() == old(self).received() && final(self).zero_left() == old(self).zero_left() - 1 && match r {
                ReadStep::Done(resp) => response_is(resp, progress(old(self).received())),
                ReadStep::Failed(e) => e == HttpError::ConnectionClosed && final(self).zero_left()
                    == 0 && !(progress(old(self).received()) is Complete),
                ReadStep::Continue => final(self).zero_left() > 0 && !(progress(
                    old(self).received(),
                ) is Complete),
            },
            old(self).zero_left() > 0 ==> final(self).received() == feed(
                old(self).received(),
                data@,
            ),
            old(self).zero_left() > 0 && data@.len() > 0 ==> final(self).zero_left()
                == old(self).threshold() && match r {
                ReadStep::Done(resp) => response_is(resp, progress(final(self).received())),
                ReadStep::Failed(e) => progress(old(self).received() + data@) == Progress::Failed(
                    e,
                ) && !(progress(old(self).received()) is Complete),
                ReadStep::Continue => !(progress(final(self).received()) is Complete) && final(self).received() == old(self).received() + data@,
            },
    {
        proof {
            self.builder.lemma_never_failed();
        }
        if self.zero_left == 0 {
            return ReadStep::Failed(HttpError::ConnectionClosed);
        }
        if data.len() == 0 {
            self.zero_left = self.zero_left - 1;
            assert(self.builder@ + data@ =~= self.builder@);
        } else {
            self.zero_left = self.threshold;
        }
        match self.builder.append(data) {
            Err(e) => ReadStep::Failed(e),
            Ok(true) => match self.builder.get() {
                Some(resp) => ReadStep::Done(resp),
                None => ReadStep::Continue,
            },
            Ok(false) => {
                if self.zero_left == 0 {
                    ReadStep::Failed(HttpError::ConnectionClosed)
                } else {
                    ReadStep::Continue
                }
            },
        }
    }

    /// What the exchange yields when a read times out: the response if it is
    /// complete, none where it was cut short.
    pub fn on_timeout(&self) -> (r: Option<HttpResponse>)
        requires
            self.wf(),
        ensures
            match r {
                Some(resp) => response_is(resp, progress(self.received())),
                None => !(progress(self.received()) is Complete),
            },
    {
        self.builder.get()
    }
}

} // verus!
