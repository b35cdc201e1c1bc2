use vstd::prelude::*;

verus! {

/// An HTTP method. `Other` carries a verb outside the standard set.
#[derive(Debug, PartialEq, Eq, Hash)]
pub enum HttpMethod {
    Get,
    Post,
    Put,
    Delete,
    Patch,
    Head,
    Options,
    Trace,
    Connect,
    Other(String),
}

/// The text of `s` in upper case, as `str::to_uppercase` gives it.
pub uninterp spec fn upper_of(s: Seq<char>) -> Seq<char>;

/// Relies on str::to_uppercase: the result depends on the characters alone.
#[verifier::external_body]
fn uppercase(s: &str) -> (r: String)
    ensures
        r@ == upper_of(s@),
{
    s.to_uppercase()
}

/// The wire text of a method.
pub open spec fn method_name(m: HttpMethod) -> Seq<char> {
    match m {
        HttpMethod::Get => "GET"@,
        HttpMethod::Post => "POST"@,
        HttpMethod::Put => "PUT"@,
        HttpMethod::Delete => "DELETE"@,
        HttpMethod::Patch => "PATCH"@,
        HttpMethod::Head => "HEAD"@,
        HttpMethod::Options => "OPTIONS"@,
        HttpMethod::Trace => "TRACE"@,
        HttpMethod::Connect => "CONNECT"@,
        HttpMethod::Other(s) => s@,
    }
}

pub open spec fn is_standard_name(s: Seq<char>) -> bool {
    s == "GET"@ || s == "POST"@ || s == "PUT"@ || s == "DELETE"@ || s == "PATCH"@ || s == "HEAD"@
        || s == "OPTIONS"@ || s == "TRACE"@ || s == "CONNECT"@
}

/// The method whose wire text is `name`, if it is a standard one.
pub fn standard_method(name: &String) -> (r: Option<HttpMethod>)
    ensures
        r is Some <==> is_standard_name(name@),
        r matches Some(m) ==> method_name(m) == name@ && !(m is Other),
{
    if *name == "GET".to_owned() {
        Some(HttpMethod::Get)
    } else if *name == "POST".to_owned() {
        Some(HttpMethod::Post)
    } else if *name == "PUT".to_owned() {
        Some(HttpMethod::Put)
    } else if *name == "DELETE".to_owned() {
        Some(HttpMethod::Delete)
    } else if *name == "PATCH".to_owned() {
        Some(HttpMethod::Patch)
    } else if *name == "HEAD".to_owned() {
        Some(HttpMethod::Head)
    } else if *name == "OPTIONS".to_owned() {
        Some(HttpMethod::Options)
    } else if *name == "TRACE".to_owned() {
        Some(HttpMethod::Trace)
    } else if *name == "CONNECT".to_owned() {
        Some(HttpMethod::Connect)
    } else {
        None
    }
}

impl HttpMethod {
    /// The method named by `method`, compared in upper case; a verb outside
    /// the standard set becomes `Other` with the upper-cased text.
    pub fn from_str(method: &str) -> (r: HttpMethod)
        ensures
            method_name(r) == upper_of(method@),
            r is Other <==> !is_standard_name(upper_of(method@)),
    {
        let up = uppercase(method);
        match standard_method(&up) {
            Some(m) => m,
            None => HttpMethod::Other(up),
        }
    }

    /// The wire text of the method.
    pub fn to_str(&self) -> (r: &str)
        ensures
            r@ == method_name(*self),
    {
        match self {
            HttpMethod::Get => "GET",
            HttpMethod::Post => "POST",
            HttpMethod::Put => "PUT",
            HttpMethod::Delete => "DELETE",
            HttpMethod::Patch => "PATCH",
            HttpMethod::Head => "HEAD",
            HttpMethod::Options => "OPTIONS",
            HttpMethod::Trace => "TRACE",
            HttpMethod::Connect => "CONNECT",
            HttpMethod::Other(method) => method.as_str(),
        }
    }

    /// A copy of the method.
    pub fn clone(&self) -> (r: HttpMethod)
        ensures
            r == *self,
    {
        match self {
            HttpMethod::Get => HttpMethod::Get,
            HttpMethod::Post => HttpMethod::Post,
            HttpMethod::Put => HttpMethod::Put,
            HttpMethod::Delete => HttpMethod::Delete,
            HttpMethod::Patch => HttpMethod::Patch,
            HttpMethod::Head => HttpMethod::Head,
            HttpMethod::Options => HttpMethod::Options,
            HttpMethod::Trace => HttpMethod::Trace,
            HttpMethod::Connect => HttpMethod::Connect,
            HttpMethod::Other(method) => HttpMethod::Other(method.clone()),
        }
    }
}

} // verus!
