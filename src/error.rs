use vstd::prelude::*;

verus! {

/// Why an exchange failed. Every failure ends the exchange: nothing is retried
/// inside the library.
#[derive(Debug, Clone, Copy, PartialEq, Eq, Structural)]
pub enum HttpError {
    /// The host cannot be resolved to a usable socket address.
    AddressResolution,
    /// The TCP connection could not be opened in time.
    Connection,
    /// The TLS handshake failed.
    Tls,
    /// Reading the socket failed with an error other than a timeout.
    TransportRead,
    /// Too many reads in a row returned no bytes.
    ConnectionClosed,
    /// The status line is malformed.
    InvalidStatusLine,
    /// A header line is malformed.
    InvalidHeader,
    /// A chunk size line is malformed.
    InvalidChunkSize,
}

} // verus!
