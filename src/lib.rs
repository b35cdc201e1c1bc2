//! A small HTTP/1.1 client library: request serialization, an incremental
//! response parser, and the decisions of the connection driver.
use vstd::prelude::*;

pub mod arg_parser;
pub mod bytes;
pub mod connect;
pub mod error;
pub mod headers;
pub mod http_file;
pub mod methods;
pub mod request;
pub mod request_text;
pub mod response;
pub mod status;

pub use arg_parser::RequestArgs;
pub use error::HttpError;
pub use headers::{HttpHeaders, QueryArgs};
pub use methods::HttpMethod;
pub use request::HttpRequest;
pub use response::{HttpResponse, HttpResponseBuilder, State};
pub use status::HttpStatus;

verus! {

} // verus!
