use vstd::prelude::*;
use crate::error::HttpError;

verus! {

/// A response status code in the range 100 to 599.
#[derive(Debug, Clone, Copy, PartialEq, Eq, Structural)]
pub struct HttpStatus {
    code: u16,
}

pub open spec fn is_status_code(code: int) -> bool {
    100 <= code <= 599
}

/// The standard reason phrase of `code`; empty for a code without one.
pub open spec fn reason_phrase(code: u16) -> Seq<char> {
    match code {
        100 => "Continue"@,
        101 => "Switching Protocols"@,
        200 => "OK"@,
        201 => "Created"@,
        202 => "Accepted"@,
        204 => "No Content"@,
        206 => "Partial Content"@,
        301 => "Moved Permanently"@,
        302 => "Found"@,
        303 => "See Other"@,
        304 => "Not Modified"@,
        307 => "Temporary Redirect"@,
        308 => "Permanent Redirect"@,
        400 => "Bad Request"@,
        401 => "Unauthorized"@,
        403 => "Forbidden"@,
        404 => "Not Found"@,
        405 => "Method Not Allowed"@,
        408 => "Request Timeout"@,
        409 => "Conflict"@,
        410 => "Gone"@,
        413 => "Payload Too Large"@,
        415 => "Unsupported Media Type"@,
        418 => "I'm a teapot"@,
        429 => "Too Many Requests"@,
        500 => "Internal Server Error"@,
        501 => "Not Implemented"@,
        502 => "Bad Gateway"@,
        503 => "Service Unavailable"@,
        504 => "Gateway Timeout"@,
        _ => Seq::empty(),
    }
}

impl HttpStatus {
    pub closed spec fn code(&self) -> u16 {
        self.code
    }

    pub closed spec fn wf(&self) -> bool {
        is_status_code(self.code as int)
    }

    /// The status of a code in 100..=599; any other code is refused.
    pub fn from_u16(code: u16) -> (r: Result<HttpStatus, HttpError>)
        ensures
            is_status_code(code as int) <==> r is Ok,
            r matches Ok(s) ==> s.code() == code && s.wf(),
            r matches Err(e) ==> e == HttpError::InvalidStatusLine,
    {
        if 100 <= code && code <= 599 {
            Ok(HttpStatus { code })
        } else {
            Err(HttpError::InvalidStatusLine)
        }
    }

    /// The teapot status, the value a response holds before its status line is read.
    pub fn teapot() -> (r: HttpStatus)
        ensures
            r.code() == 418,
            r.wf(),
    {
        HttpStatus { code: 418 }
    }

    pub fn as_num(&self) -> (r: u16)
        ensures
            r == self.code(),
    {
        self.code
    }

    /// The standard reason phrase of the code, or an empty text for a code
    /// without one.
    pub fn as_str(&self) -> (r: &'static str)
        ensures
            r@ == reason_phrase(self.code()),
    {
        match self.code {
            100 => "Continue",
            101 => "Switching Protocols",
            200 => "OK",
            201 => "Created",
            202 => "Accepted",
            204 => "No Content",
            206 => "Partial Content",
            301 => "Moved Permanently",
            302 => "Found",
            303 => "See Other",
            304 => "Not Modified",
            307 => "Temporary Redirect",
            308 => "Permanent Redirect",
            400 => "Bad Request",
            401 => "Unauthorized",
            403 => "Forbidden",
            404 => "Not Found",
            405 => "Method Not Allowed",
            408 => "Request Timeout",
            409 => "Conflict",
            410 => "Gone",
            413 => "Payload Too Large",
            415 => "Unsupported Media Type",
            418 => "I'm a teapot",
            429 => "Too Many Requests",
            500 => "Internal Server Error",
            501 => "Not Implemented",
            502 => "Bad Gateway",
            503 => "Service Unavailable",
            504 => "Gateway Timeout",
            _ => {
                proof {
                    reveal_strlit("");
                }
                ""
            },
        }
    }
}

} // verus!
