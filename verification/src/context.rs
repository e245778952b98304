//! What one connection knows about itself, and what the backend does with it.
//!
//! Each connection has a context of its own, made when the connection is
//! accepted and dropped with it. Nothing here is shared between connections.

use vstd::prelude::*;
use crate::address::SocketAddress;
use crate::binary::encode_binary_spec;
use crate::codec::{decode, decode_spec, law_round_trip};
use crate::header::{ForwardHeader, HeaderView, ProtocolError};
use crate::display::{endpoint_text, lemma_endpoint_text_injective, push_endpoint};
use crate::text::{push_word, CR, LF};

verus! {

/// What the TLS handshake of a connection settled.
#[derive(Clone, Debug, PartialEq, Eq)]
pub struct TlsInfo {
    /// The identifier of the negotiated protocol.
    pub protocol: Vec<u8>,
    /// A summary of the hello that the client presented, for diagnostics.
    pub client_hello: Option<Vec<u8>>,
}

/// The per-connection values that travel with a connection through its
/// stages.
#[derive(Clone, Debug, PartialEq, Eq)]
pub struct ConnectionContext {
    /// The endpoint of the original client, known once a header that relays
    /// one has been decoded.
    pub client_address: Option<SocketAddress>,
    /// The endpoint at the other end of this hop's TCP connection.
    pub proxy_peer_address: SocketAddress,
    /// What the TLS handshake settled, where this hop terminated TLS.
    pub tls_info: Option<TlsInfo>,
}

/// The client that a header makes known: its source, where it relays one.
pub open spec fn client_of(header: HeaderView) -> Option<SocketAddress> {
    header.source
}

/// What the backend learns from the first bytes of a connection accepted
/// from `peer`: the client's endpoint and how many bytes the header took.
pub open spec fn receive_spec(peer: SocketAddress, buf: Seq<u8>) -> Result<
    (Option<SocketAddress>, SocketAddress, int),
    ProtocolError,
> {
    match decode_spec(buf) {
        Ok((header, n)) => Ok((client_of(header), peer, n)),
        Err(e) => Err(e),
    }
}

impl ConnectionContext {
    /// The context of a connection just accepted from `peer`: no client is
    /// known yet and no handshake has taken place.
    pub fn new(peer: SocketAddress) -> (ctx: ConnectionContext)
        ensures
            ctx.client_address is None,
            ctx.proxy_peer_address == peer,
            ctx.tls_info is None,
    {
        ConnectionContext { client_address: None, proxy_peer_address: peer, tls_info: None }
    }

    /// Records what the TLS handshake settled. The endpoints stay as they
    /// are.
    pub fn record_handshake(&mut self, info: TlsInfo)
        ensures
            final(self).tls_info == Some(info),
            final(self).client_address == old(self).client_address,
            final(self).proxy_peer_address == old(self).proxy_peer_address,
    {
        self.tls_info = Some(info);
    }

    /// Records the client that a decoded header makes known: its source
    /// where it relays one, none otherwise. The peer and the handshake stay
    /// as they are.
    pub fn record_header(&mut self, header: &ForwardHeader)
        ensures
            final(self).client_address == client_of(header@),
            final(self).proxy_peer_address == old(self).proxy_peer_address,
            final(self).tls_info == old(self).tls_info,
    {
        self.client_address = header.source;
    }

    /// The endpoint to relay as the client of this connection: the client
    /// that a header made known, else the peer of this hop.
    pub fn origin(&self) -> (r: SocketAddress)
        ensures
            r == match self.client_address {
                Some(client) => client,
                None => self.proxy_peer_address,
            },
    {
        match self.client_address {
            Some(client) => client,
            None => self.proxy_peer_address,
        }
    }
}

/// Starts the backend side of a connection accepted from `peer`: decodes
/// the header at the start of `buf`, and returns the connection's context
/// with the bytes behind the header, which go to the application unread.
///
/// Fails as `decode` does, and then no context is made.
pub fn receive<'a>(peer: SocketAddress, buf: &'a [u8]) -> (r: Result<
    (ConnectionContext, &'a [u8]),
    ProtocolError,
>)
    ensures
        match r {
            Ok((ctx, rest)) => {
                &&& receive_spec(peer, buf@) matches Ok((client, proxy, n))
                &&& ctx.client_address == client
                &&& ctx.proxy_peer_address == peer
                &&& ctx.tls_info is None
                &&& 0 < n <= buf@.len()
                &&& rest@ == buf@.skip(n)
            },
            Err(e) => receive_spec(peer, buf@) == Err::<
                (Option<SocketAddress>, SocketAddress, int),
                ProtocolError,
            >(e),
        },
{
    match decode(buf) {
        Ok((header, rest)) => {
            let mut ctx = ConnectionContext::new(peer);
            ctx.record_header(&header);
            Ok((ctx, rest))
        },
        Err(e) => Err(e),
    }
}

/// The bytes of `hello client `.
pub open spec fn hello_words() -> Seq<u8> {
    seq![104u8, 101u8, 108u8, 108u8, 111u8, 32u8, 99u8, 108u8, 105u8, 101u8, 110u8, 116u8, 32u8]
}

/// The bytes of `, you were served by tls terminator proxy `.
pub open spec fn served_words() -> Seq<u8> {
    seq![44u8, 32u8, 121u8, 111u8, 117u8, 32u8, 119u8, 101u8, 114u8, 101u8, 32u8, 115u8, 101u8, 114u8, 118u8, 101u8, 100u8, 32u8, 98u8, 121u8, 32u8, 116u8, 108u8, 115u8, 32u8, 116u8, 101u8, 114u8, 109u8, 105u8, 110u8, 97u8, 116u8, 111u8, 114u8, 32u8, 112u8, 114u8, 111u8, 120u8, 121u8, 32u8]
}

/// The body that the backend answers with: it names the client and the
/// proxy that the connection came through.
pub open spec fn response_body_spec(client: SocketAddress, proxy: SocketAddress) -> Seq<u8> {
    hello_words() + endpoint_text(client) + served_words() + endpoint_text(proxy) + seq![CR, LF]
}

/// Writes the body that the backend answers with, naming `client` as the
/// client and `proxy` as the proxy that served it.
pub fn response_body(client: &SocketAddress, proxy: &SocketAddress) -> (body: Vec<u8>)
    ensures
        body@ == response_body_spec(*client, *proxy),
{
    let hello = [104u8, 101u8, 108u8, 108u8, 111u8, 32u8, 99u8, 108u8, 105u8, 101u8, 110u8, 116u8, 32u8];
    let served = [44u8, 32u8, 121u8, 111u8, 117u8, 32u8, 119u8, 101u8, 114u8, 101u8, 32u8, 115u8, 101u8, 114u8, 118u8, 101u8, 100u8, 32u8, 98u8, 121u8, 32u8, 116u8, 108u8, 115u8, 32u8, 116u8, 101u8, 114u8, 109u8, 105u8, 110u8, 97u8, 116u8, 111u8, 114u8, 32u8, 112u8, 114u8, 111u8, 120u8, 121u8, 32u8];
    assert(hello@ =~= hello_words());
    assert(served@ =~= served_words());
    let mut body: Vec<u8> = Vec::new();
    push_word(&mut body, hello.as_slice());
    push_endpoint(&mut body, client);
    push_word(&mut body, served.as_slice());
    push_endpoint(&mut body, proxy);
    body.push(CR);
    body.push(LF);
    assert(body@ =~= response_body_spec(*client, *proxy));
    body
}

/// The answer of the backend for a connection: it names the client that
/// the context holds, and the peer of the hop as the proxy. There is no
/// answer where no client is known.
pub fn respond(ctx: &ConnectionContext) -> (r: Option<Vec<u8>>)
    ensures
        match ctx.client_address {
            Some(client) => r is Some && r->Some_0@ == response_body_spec(client, ctx.proxy_peer_address),
            None => r is None,
        },
{
    match &ctx.client_address {
        Some(client) => Some(response_body(client, &ctx.proxy_peer_address)),
        None => None,
    }
}

/// What the backend learns from each of a number of connections, taken
/// one by one: the `i`-th outcome is that of the `i`-th connection.
pub open spec fn receive_each(connections: Seq<(SocketAddress, Seq<u8>)>) -> Seq<
    Result<(Option<SocketAddress>, SocketAddress, int), ProtocolError>,
> {
    Seq::new(connections.len(), |i: int| receive_spec(connections[i].0, connections[i].1))
}

/// End to end: when the terminating hop encodes the header for `client`
/// and the backend, accepting from `terminator`, decodes what arrives, the
/// backend recovers `client` as the client and `terminator` as the proxy,
/// leaves the payload unread, and answers with a body that names the
/// client's endpoint: not the terminator's, unless the two are the same.
pub proof fn law_end_to_end(
    client: SocketAddress,
    terminator: SocketAddress,
    destination: SocketAddress,
    payload: Seq<u8>,
)
    requires
        (client.ip is V4) == (destination.ip is V4),
    ensures
        receive_spec(terminator, encode_binary_spec(client, destination) + payload) == Ok::<
            (Option<SocketAddress>, SocketAddress, int),
            ProtocolError,
        >((Some(client), terminator, encode_binary_spec(client, destination).len() as int)),
        (encode_binary_spec(client, destination) + payload).skip(
            encode_binary_spec(client, destination).len() as int,
        ) == payload,
        response_body_spec(client, terminator).subrange(13, 13 + endpoint_text(client).len() as int)
            == endpoint_text(client),
        client != terminator ==> endpoint_text(client) != endpoint_text(terminator),
{
    law_round_trip(client, destination, payload);
    let body = response_body_spec(client, terminator);
    assert(hello_words().len() == 13);
    assert(body.subrange(13, 13 + endpoint_text(client).len() as int) =~= endpoint_text(client));
    if endpoint_text(client) == endpoint_text(terminator) {
        lemma_endpoint_text_injective(client, terminator);
    }
}

/// Isolation: what is recovered for one connection depends on the bytes of
/// that connection alone. Where the `i`-th of any number of connections
/// carries the header encoded for `client`, the client recovered for it is
/// `client`, whatever the others carry, malformed or not.
pub proof fn law_isolation(
    connections: Seq<(SocketAddress, Seq<u8>)>,
    i: int,
    client: SocketAddress,
    destination: SocketAddress,
    payload: Seq<u8>,
)
    requires
        0 <= i < connections.len(),
        (client.ip is V4) == (destination.ip is V4),
        connections[i].1 == encode_binary_spec(client, destination) + payload,
    ensures
        receive_each(connections)[i] == Ok::<(Option<SocketAddress>, SocketAddress, int), ProtocolError>(
            (Some(client), connections[i].0, encode_binary_spec(client, destination).len() as int),
        ),
{
    law_round_trip(client, destination, payload);
}

} // verus!
