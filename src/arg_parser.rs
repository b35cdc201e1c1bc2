//! Command-line words to a request: a method, a URL, then `key:value` header
//! words and body text, with `-k value` options anywhere.
use vstd::prelude::*;
use vstd::string::*;
use vstd::utf8::encode_utf8;
use crate::connect::{has_prefix, index_of, strip_scheme};
use crate::error::HttpError;
use crate::headers::{with_entry, Entry, QueryArgs};
use crate::methods::{is_standard_name, method_name, upper_of, HttpMethod};
use crate::request::HttpRequest;

verus! {

/// The parts of a request as given on the command line.
pub struct RequestArgs {
    pub method: String,
    pub url: String,
    pub body: String,
    pub headers: QueryArgs,
    pub args: QueryArgs,
}

/// What the next word on the command line is taken as.
pub enum ArgState {
    Method,
    Url,
    Body,
    /// The value of the option with this key.
    Arg(String),
}

pub struct ArgsView {
    pub method: Seq<char>,
    pub url: Seq<char>,
    pub body: Seq<char>,
    pub headers: Seq<Entry>,
    pub args: Seq<Entry>,
}

pub enum StateView {
    Method,
    Url,
    Body,
    Arg(Seq<char>),
}

pub open spec fn state_view(s: ArgState) -> StateView {
    match s {
        ArgState::Method => StateView::Method,
        ArgState::Url => StateView::Url,
        ArgState::Body => StateView::Body,
        ArgState::Arg(k) => StateView::Arg(k@),
    }
}

/// What is missing first: the method, then the URL; else body words.
pub open spec fn next_state(a: ArgsView) -> StateView {
    if a.method.len() == 0 {
        StateView::Method
    } else if a.url.len() == 0 {
        StateView::Url
    } else {
        StateView::Body
    }
}

/// The option key of a word that starts with `-`: one `-` dropped, and a
/// second one if there is one.
pub open spec fn option_key(w: Seq<char>) -> Seq<char> {
    let k = w.skip(1);
    if has_prefix(k, "-"@) {
        k.skip(1)
    } else {
        k
    }
}

/// The arguments and the state after one more word.
pub open spec fn arg_step(a: ArgsView, s: StateView, w: Seq<char>) -> (ArgsView, StateView) {
    if has_prefix(w, "-"@) {
        (a, StateView::Arg(option_key(w)))
    } else {
        match s {
            StateView::Method => (ArgsView { method: w, ..a }, StateView::Url),
            StateView::Url => (ArgsView { url: w, ..a }, StateView::Body),
            StateView::Body => {
                let c = index_of(w, ':', 0);
                if c < w.len() {
                    (
                        ArgsView { headers: with_entry(a.headers, w.take(c), w.skip(c + 1)), ..a },
                        StateView::Body,
                    )
                } else {
                    (ArgsView { body: a.body + w, ..a }, StateView::Body)
                }
            },
            StateView::Arg(k) => {
                let a2 = ArgsView { args: with_entry(a.args, k, w), ..a };
                (a2, next_state(a2))
            },
        }
    }
}

pub open spec fn empty_args() -> ArgsView {
    ArgsView {
        method: Seq::empty(),
        url: Seq::empty(),
        body: Seq::empty(),
        headers: Seq::empty(),
        args: Seq::empty(),
    }
}

/// The arguments and state after the words `ws`.
pub open spec fn args_after(ws: Seq<Seq<char>>) -> (ArgsView, StateView)
    decreases ws.len(),
{
    if ws.len() == 0 {
        (empty_args(), StateView::Method)
    } else {
        let prev = args_after(ws.drop_last());
        arg_step(prev.0, prev.1, ws.last())
    }
}

fn starts_with_dash(s: &str) -> (r: bool)
    ensures
        r == has_prefix(s@, "-"@),
{
    crate::connect::starts_with(s, "-")
}

impl RequestArgs {
    pub open spec fn view_of(&self) -> ArgsView {
        ArgsView {
            method: self.method@,
            url: self.url@,
            body: self.body@,
            headers: self.headers@,
            args: self.args@,
        }
    }

    pub fn new() -> (r: RequestArgs)
        ensures
            r.view_of() == empty_args(),
    {
        RequestArgs {
            method: String::new(),
            url: String::new(),
            body: String::new(),
            headers: QueryArgs::new(),
            args: QueryArgs::new(),
        }
    }

    /// What the next word is taken as, once an option's value has been read.
    pub fn get_state(&self) -> (r: ArgState)
        ensures
            state_view(r) == next_state(self.view_of()),
    {
        if self.method.unicode_len() == 0 {
            ArgState::Method
        } else if self.url.unicode_len() == 0 {
            ArgState::Url
        } else {
            ArgState::Body
        }
    }

    /// Builds the arguments from the command-line words, in order.
    pub fn parse(words: &Vec<String>) -> (r: RequestArgs)
        ensures
            r.view_of() == args_after(words@.map_values(|w: String| w@)).0,
    {
        let ghost ws = words@.map_values(|w: String| w@);
        let mut a = RequestArgs::new();
        let mut state = ArgState::Method;
        let mut i: usize = 0;
        while i < words.len()
            invariant
                i <= words@.len(),
                ws == words@.map_values(|w: String| w@),
                (a.view_of(), state_view(state)) == args_after(ws.take(i as int)),
            decreases words@.len() - i,
        {
            proof {
                assert(ws.take(i + 1).drop_last() =~= ws.take(i as int));
                assert(ws.take(i + 1).last() == words@[i as int]@);
                reveal_strlit("-");
            }
            let w = words[i].as_str();
            if starts_with_dash(w) {
                let k = w.substring_char(1, w.unicode_len());
                assert(k@ =~= w@.skip(1));
                let key = if starts_with_dash(k) {
                    let k2 = k.substring_char(1, k.unicode_len());
                    assert(k2@ =~= k@.skip(1));
                    k2.to_owned()
                } else {
                    k.to_owned()
                };
                state = ArgState::Arg(key);
            } else {
                match state {
                    ArgState::Method => {
                        a.method = w.to_owned();
                        state = ArgState::Url;
                    },
                    ArgState::Url => {
                        a.url = w.to_owned();
                        state = ArgState::Body;
                    },
                    ArgState::Body => {
                        let c = crate::connect::find_from(w, ':', 0);
                        if c < w.unicode_len() {
                            let k = w.substring_char(0, c);
                            let v = w.substring_char(c + 1, w.unicode_len());
                            assert(k@ =~= w@.take(c as int));
                            assert(v@ =~= w@.skip(c + 1));
                            a.headers.insert(k.to_owned(), v.to_owned());
                        } else {
                            let body = a.body.clone();
                            a.body = StringExecFns::concat(body, w);
                        }
                        state = ArgState::Body;
                    },
                    ArgState::Arg(k) => {
                        a.args.insert(k, w.to_owned());
                        state = a.get_state();
                    },
                }
            }
            i = i + 1;
        }
        assert(ws.take(words@.len() as int) =~= ws);
        a
    }

    /// The request that the arguments describe: an `https://` URL turns TLS
    /// on; the URL's scheme is dropped, its authority becomes the host and the
    /// rest, after a `/`, the path.
    pub fn to_request(&self) -> (r: Result<HttpRequest, HttpError>)
        ensures
            r matches Ok(req) && request_from(self.view_of(), req),
    {
        proof {
            reveal_strlit("https://");
            reveal_strlit("http://");
            reveal_strlit("/");
        }
        let method = HttpMethod::from_str(self.method.as_str());
        let url = self.url.as_str();
        let ssl = crate::connect::starts_with(url, "https://");
        let rest: &str = if ssl {
            url.substring_char(8, url.unicode_len())
        } else if crate::connect::starts_with(url, "http://") {
            url.substring_char(7, url.unicode_len())
        } else {
            url
        };
        assert(url@.skip(8) =~= url@.subrange(8, url@.len() as int));
        assert(url@.skip(7) =~= url@.subrange(7, url@.len() as int));
        let slash = crate::connect::find_from(rest, '/', 0);
        let host = rest.substring_char(0, slash);
        assert(host@ =~= rest@.take(slash as int));
        let path: String = if slash < rest.unicode_len() {
            let tail = rest.substring_char(slash + 1, rest.unicode_len());
            assert(tail@ =~= rest@.skip(slash + 1));
            StringExecFns::concat("/".to_owned(), tail)
        } else {
            "/".to_owned()
        };
        let mut request = HttpRequest::new(method, host, path.as_str());
        request.ssl = ssl;
        let bytes = self.body.as_str().as_bytes();
        let mut body: Vec<u8> = Vec::new();
        crate::bytes::push_all(&mut body, bytes);
        request.body = body;
        let mut i: usize = 0;
        while i < self.headers.len()
            invariant
                i <= self.headers@.len(),
                request.headers@ == fold_entries(Seq::empty(), self.headers@.take(i as int)),
                request.method == method,
                request.ssl == ssl,
                request.host@ == host@,
                request.path@ == path@,
                request.args@.len() == 0,
                request.body@ == encode_utf8(self.body@),
            decreases self.headers@.len() - i,
        {
            let (k, v) = self.headers.entry(i);
            request.headers.insert(k.as_str(), v.as_str());
            assert(self.headers@.take(i + 1).drop_last() =~= self.headers@.take(i as int));
            i = i + 1;
        }
        assert(self.headers@.take(self.headers@.len() as int) =~= self.headers@);
        Ok(request)
    }
}

/// `h` after inserting each entry of `es` in turn.
pub open spec fn fold_entries(h: Seq<Entry>, es: Seq<Entry>) -> Seq<Entry>
    decreases es.len(),
{
    if es.len() == 0 {
        h
    } else {
        let prev = fold_entries(h, es.drop_last());
        with_entry(prev, es.last().0, es.last().1)
    }
}

/// `req` is the request that the arguments `a` describe.
pub open spec fn request_from(a: ArgsView, req: HttpRequest) -> bool {
    let (rest, https) = strip_scheme(a.url);
    let slash = index_of(rest, '/', 0);
    &&& method_name(req.method) == upper_of(a.method)
    &&& (req.method is Other <==> !is_standard_name(upper_of(a.method)))
    &&& req.ssl == https
    &&& req.host@ == rest.take(slash)
    &&& req.path@ == (if slash < rest.len() {
        "/"@ + rest.skip(slash + 1)
    } else {
        "/"@
    })
    &&& req.args@.len() == 0
    &&& req.headers@ == fold_entries(Seq::empty(), a.headers)
    &&& req.body@ == encode_utf8(a.body)
}

} // verus!
