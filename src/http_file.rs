//! Request files: blocks of request text separated by `###` lines, with
//! `@name = value` lines that define variables written `{name}` in the blocks.
use vstd::prelude::*;
use vstd::string::*;
use crate::connect::{find_from, has_prefix, index_of};
use crate::headers::{with_entry, Entry, HttpHeaders};
use crate::request::HttpRequest;
use crate::request_text::{first_line, request_of_text, trim_of, trim_text};

verus! {

/// `s` with every `from` replaced by `to`, as `str::replace` gives it: the
/// matches are taken from the left without overlap, and an empty `from`
/// matches before each character and at the end.
pub open spec fn replaced(s: Seq<char>, from: Seq<char>, to: Seq<char>) -> Seq<char>
    decreases s.len(),
{
    if from.len() == 0 {
        if s.len() == 0 {
            to
        } else {
            to + seq![s[0]] + replaced(s.skip(1), from, to)
        }
    } else if s.len() == 0 {
        s
    } else if has_prefix(s, from) {
        to + replaced(s.skip(from.len() as int), from, to)
    } else {
        seq![s[0]] + replaced(s.skip(1), from, to)
    }
}

/// Relies on str::replace: every match of `from`, left to right without
/// overlap, becomes `to`.
#[verifier::external_body]
fn replace_text(s: &str, from: &str, to: &str) -> (r: String)
    ensures
        r@ == replaced(s@, from@, to@),
{
    s.replace(from, to)
}

/// `raw` with each variable of `vars`, in order, written in for `{name}`.
pub open spec fn substitute(raw: Seq<char>, vars: Seq<Entry>) -> Seq<char>
    decreases vars.len(),
{
    if vars.len() == 0 {
        raw
    } else {
        let prev = substitute(raw, vars.drop_last());
        replaced(prev, "{"@ + vars.last().0 + "}"@, vars.last().1)
    }
}

/// What reading a request file has gathered: the variables, the text of the
/// current block, and the finished blocks.
pub struct FileState {
    pub vars: Seq<Entry>,
    pub raw: Seq<char>,
    pub blocks: Seq<Seq<char>>,
}

/// The state after one more line.
pub open spec fn file_step(st: FileState, line: Seq<char>) -> FileState {
    if has_prefix(line, "###"@) && st.raw.len() > 0 {
        FileState {
            vars: st.vars,
            raw: Seq::empty(),
            blocks: st.blocks.push(substitute(st.raw, st.vars)),
        }
    } else if has_prefix(line, "#"@) {
        st
    } else if has_prefix(line, "@"@) {
        let l = line.skip(1);
        let e = index_of(l, '=', 0);
        if e < l.len() {
            FileState { vars: with_entry(st.vars, trim_of(l.take(e)), trim_of(l.skip(e + 1))), ..st }
        } else {
            st
        }
    } else {
        FileState { raw: st.raw + line + "\n"@, ..st }
    }
}

/// The state after the lines of `content` from the one that starts at `pos`.
pub open spec fn file_from(content: Seq<char>, pos: int, st: FileState) -> FileState
    decreases content.len() + 1 - pos,
{
    if pos < 0 || pos > content.len() {
        st
    } else {
        let e = index_of(content, '\n', pos);
        if e < pos || e > content.len() {
            st
        } else {
            file_from(content, e + 1, file_step(st, content.subrange(pos, e)))
        }
    }
}

pub open spec fn empty_file_state() -> FileState {
    FileState { vars: Seq::empty(), raw: Seq::empty(), blocks: Seq::empty() }
}

/// The blocks whose first line holds a space, the ones that read as requests.
pub open spec fn request_blocks(blocks: Seq<Seq<char>>) -> Seq<Seq<char>>
    decreases blocks.len(),
{
    if blocks.len() == 0 {
        Seq::empty()
    } else {
        let prev = request_blocks(blocks.drop_last());
        let b = blocks.last();
        if index_of(first_line(b), ' ', 0) < first_line(b).len() {
            prev.push(b)
        } else {
            prev
        }
    }
}

/// Writes the variables into a block.
fn fill_in(raw: &String, vars: &HttpHeaders) -> (r: String)
    ensures
        r@ == substitute(raw@, vars@),
{
    let mut out = raw.clone();
    let mut i: usize = 0;
    while i < vars.len()
        invariant
            i <= vars@.len(),
            out@ == substitute(raw@, vars@.take(i as int)),
        decreases vars@.len() - i,
    {
        let (k, v) = vars.entry(i);
        let name = StringExecFns::concat(StringExecFns::concat("{".to_owned(), k.as_str()), "}");
        out = replace_text(out.as_str(), name.as_str(), v.as_str());
        assert(vars@.take(i + 1).drop_last() =~= vars@.take(i as int));
        i = i + 1;
    }
    assert(vars@.take(vars@.len() as int) =~= vars@);
    out
}

/// Reads the requests of a request file. A `###` line closes the current
/// block, which becomes a request with the variables written in (a block
/// that does not read as one is passed over); other `#` lines are comments;
/// `@name = value` defines a variable (a line without `=` is passed over).
/// Text after the last `###` line is not a request.
pub fn parse_http_file(content: &str) -> (r: Vec<(String, HttpRequest)>)
    ensures
        r@.len() == request_blocks(file_from(content@, 0, empty_file_state()).blocks).len(),
        forall|i: int|
            0 <= i < r@.len() ==> (#[trigger] r@[i]).0@.len() == 0 && request_of_text(
                request_blocks(file_from(content@, 0, empty_file_state()).blocks)[i],
                r@[i].1,
            ),
{
    let ghost target = file_from(content@, 0, empty_file_state());
    let mut vars = HttpHeaders::new();
    let mut raw = String::new();
    let mut result: Vec<(String, HttpRequest)> = Vec::new();
    let ghost mut blocks: Seq<Seq<char>> = Seq::empty();
    let n = content.unicode_len();
    let mut pos: usize = 0;
    let mut more = true;
    let ghost mut end: int = 0;
    loop
        invariant
            n == content@.len(),
            pos <= n,
            more ==> end == pos,
            !more ==> end == n + 1,
            file_from(content@, end, FileState { vars: vars@, raw: raw@, blocks }) == target,
            result@.len() == request_blocks(blocks).len(),
            forall|i: int|
                0 <= i < result@.len() ==> (#[trigger] result@[i]).0@.len() == 0
                    && request_of_text(request_blocks(blocks)[i], result@[i].1),
        ensures
            target == (FileState { vars: vars@, raw: raw@, blocks }),
        decreases (n + 1 - pos) * 2 + (if more { 1int } else { 0int }),
    {
        if !more {
            break;
        }
        proof {
            reveal_strlit("###");
            reveal_strlit("#");
            reveal_strlit("@");
            reveal_strlit("\n");
        }
        let e = find_from(content, '\n', pos);
        let line = content.substring_char(pos, e);
        let ghost st = FileState { vars: vars@, raw: raw@, blocks };
        if crate::connect::starts_with(line, "###") && raw.unicode_len() > 0 {
            let block = fill_in(&raw, &vars);
            let ghost b = block@;
            proof {
                blocks = blocks.push(b);
            }
            match HttpRequest::parse(block) {
                Ok(request) => {
                    result.push((String::new(), request));
                },
                Err(_) => {},
            }
            assert(blocks.drop_last() =~= st.blocks);
            raw = String::new();
        } else if crate::connect::starts_with(line, "#") {
        } else if crate::connect::starts_with(line, "@") {
            let l = line.substring_char(1, line.unicode_len());
            assert(l@ =~= line@.skip(1));
            let eq = find_from(l, '=', 0);
            if eq < l.unicode_len() {
                let k = trim_text(l.substring_char(0, eq));
                assert(l@.take(eq as int) =~= l@.subrange(0, eq as int));
                let v = trim_text(l.substring_char(eq + 1, l.unicode_len()));
                assert(l@.skip(eq + 1) =~= l@.subrange(eq + 1, l@.len() as int));
                vars.insert(k, v);
            }
        } else {
            let with_line = StringExecFns::concat(raw, line);
            raw = StringExecFns::concat(with_line, "\n");
        }
        assert(FileState { vars: vars@, raw: raw@, blocks } == file_step(st, line@));
        proof {
            end = e + 1;
        }
        if e < n {
            pos = e + 1;
        } else {
            more = false;
        }
    }
    result
}

} // verus!
