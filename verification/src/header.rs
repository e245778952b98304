//! The forwarding header as a value, apart from either wire form.

use vstd::prelude::*;
use crate::address::{IpAddress, SocketAddress};

verus! {

/// Why a buffer failed to yield a header.
#[derive(Clone, Copy, Debug, PartialEq, Eq)]
pub enum ProtocolError {
    /// The bytes cannot be the start of any header.
    Malformed,
    /// The bytes end before the header does.
    Truncated,
}

/// Why a header could not be produced for a pair of endpoints.
#[derive(Clone, Copy, Debug, PartialEq, Eq)]
pub enum EncodeError {
    /// Source and destination belong to different address families.
    FamilyMismatch,
}

/// The wire form a header was read from.
#[derive(Clone, Copy, Debug, PartialEq, Eq)]
pub enum Version {
    /// The single-line text form.
    One,
    /// The binary form.
    Two,
}

/// Whether the header speaks for a relayed client or for the sender itself.
#[derive(Clone, Copy, Debug, PartialEq, Eq)]
pub enum Command {
    /// The connection was opened by the sender on its own behalf.
    Local,
    /// The connection is relayed on behalf of the source endpoint.
    Proxy,
}

/// The address family that a header announces.
#[derive(Clone, Copy, Debug, PartialEq, Eq)]
pub enum AddressFamily {
    Unspecified,
    Inet,
    Inet6,
    Unix,
}

/// The transport that a header announces.
#[derive(Clone, Copy, Debug, PartialEq, Eq)]
pub enum Transport {
    Unspecified,
    Stream,
    Datagram,
}

/// One type-length-value record that follows the addresses of a binary header.
#[derive(Clone, Debug, PartialEq, Eq)]
pub struct Extension {
    pub kind: u8,
    pub value: Vec<u8>,
}

/// A decoded forwarding header.
///
/// `source` and `destination` are present exactly when the header relays an
/// IPv4 or IPv6 connection; the paths of a UNIX header are not kept.
#[derive(Clone, Debug, PartialEq, Eq)]
pub struct ForwardHeader {
    pub version: Version,
    pub command: Command,
    pub family: AddressFamily,
    pub transport: Transport,
    pub source: Option<SocketAddress>,
    pub destination: Option<SocketAddress>,
    pub extensions: Vec<Extension>,
}

/// A header with its byte strings as sequences.
pub struct HeaderView {
    pub version: Version,
    pub command: Command,
    pub family: AddressFamily,
    pub transport: Transport,
    pub source: Option<SocketAddress>,
    pub destination: Option<SocketAddress>,
    pub extensions: Seq<(u8, Seq<u8>)>,
}

impl View for Extension {
    type V = (u8, Seq<u8>);

    open spec fn view(&self) -> (u8, Seq<u8>) {
        (self.kind, self.value@)
    }
}

impl View for ForwardHeader {
    type V = HeaderView;

    open spec fn view(&self) -> HeaderView {
        HeaderView {
            version: self.version,
            command: self.command,
            family: self.family,
            transport: self.transport,
            source: self.source,
            destination: self.destination,
            extensions: self.extensions@.map_values(|e: Extension| e@),
        }
    }
}

impl HeaderView {
    /// Tells whether the header carries a pair of endpoints.
    pub open spec fn carries_addresses(self) -> bool {
        self.command is Proxy && (self.family is Inet || self.family is Inet6)
    }

    /// The invariant of a header: the endpoints are there exactly when the
    /// command and family call for them, they belong to the announced family,
    /// and a header without a readable address block has no extensions.
    pub open spec fn valid(self) -> bool {
        &&& self.carries_addresses() <==> self.source is Some
        &&& self.carries_addresses() <==> self.destination is Some
        &&& self.source matches Some(s) ==> ((s.ip is V4) <==> self.family is Inet)
        &&& self.destination matches Some(d) ==> ((d.ip is V4) <==> self.family is Inet)
        &&& (self.command is Local || self.family is Unspecified) ==> self.extensions.len() == 0
        &&& self.version is One ==> {
            &&& self.command is Proxy
            &&& !(self.family is Unix)
            &&& self.extensions.len() == 0
            &&& self.transport == if self.family is Unspecified {
                Transport::Unspecified
            } else {
                Transport::Stream
            }
        }
    }
}

impl ForwardHeader {
    /// Tells whether the header relays a client, as opposed to speaking for
    /// the sender itself.
    pub fn is_proxy(&self) -> (r: bool)
        ensures
            r == (self.command is Proxy),
    {
        match self.command {
            Command::Proxy => true,
            Command::Local => false,
        }
    }
}

} // verus!
