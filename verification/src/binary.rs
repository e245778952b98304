//! The binary form of the forwarding header.
//!
//! A binary header is a twelve-byte signature, a version and command byte, a
//! family and transport byte, a two-byte big-endian length, and a block of
//! that many bytes: the addresses of the announced family, then extension
//! records up to the end of the block.

use vstd::prelude::*;
use vstd::slice::{slice_subrange, slice_to_vec};
use crate::address::{be16, hi_byte, lo_byte, v4_from, v6_from, IpAddress, SocketAddress};
use crate::address::{lemma_v4_from_octets, lemma_v6_from_octets};
use crate::bytes::agrees;
use crate::header::{AddressFamily, Command, EncodeError, Extension, ForwardHeader, HeaderView};
use crate::header::{ProtocolError, Transport, Version};

verus! {

/// The largest block length that a header may declare. With the preamble a
/// header then takes at most 536 bytes, which a receiver may buffer whole.
pub const MAX_BLOCK_LEN: usize = 520;

/// The twelve bytes that open every binary header.
pub open spec fn signature() -> Seq<u8> {
    seq![0x0Du8, 0x0Au8, 0x0Du8, 0x0Au8, 0x00u8, 0x0Du8, 0x0Au8, 0x51u8, 0x55u8, 0x49u8, 0x54u8, 0x0Au8]
}

/// The family that the high half of the thirteenth byte names.
pub open spec fn family_of(code: int) -> AddressFamily {
    if code == 1 {
        AddressFamily::Inet
    } else if code == 2 {
        AddressFamily::Inet6
    } else if code == 3 {
        AddressFamily::Unix
    } else {
        AddressFamily::Unspecified
    }
}

/// The transport that the low half of the thirteenth byte names.
pub open spec fn transport_of(code: int) -> Transport {
    if code == 1 {
        Transport::Stream
    } else if code == 2 {
        Transport::Datagram
    } else {
        Transport::Unspecified
    }
}

/// The command that the low half of the twelfth byte names.
pub open spec fn command_of(code: int) -> Command {
    if code == 1 {
        Command::Proxy
    } else {
        Command::Local
    }
}

/// The number of bytes that the addresses of a family take in the block.
pub open spec fn address_len(family: AddressFamily) -> int {
    match family {
        AddressFamily::Unspecified => 0,
        AddressFamily::Inet => 12,
        AddressFamily::Inet6 => 36,
        AddressFamily::Unix => 216,
    }
}

/// The extension records that `s` spells, or `None` where `s` ends inside
/// a record.
pub open spec fn extensions_of(s: Seq<u8>) -> Option<Seq<(u8, Seq<u8>)>>
    decreases s.len(),
{
    if s.len() == 0 {
        Some(Seq::empty())
    } else if s.len() < 3 {
        None
    } else {
        let n = be16(s[1], s[2]);
        if s.len() < 3 + n {
            None
        } else {
            match extensions_of(s.skip(3 + n)) {
                Some(rest) => Some(seq![(s[0], s.subrange(3, 3 + n))] + rest),
                None => None,
            }
        }
    }
}

/// Tells whether the two tag bytes of a sixteen-byte preamble hold defined
/// values: version 2, a known command, family and transport.
pub open spec fn tags_defined(buf: Seq<u8>) -> bool {
    &&& buf[12] as int / 16 == 2
    &&& buf[12] as int % 16 <= 1
    &&& buf[13] as int / 16 <= 3
    &&& buf[13] as int % 16 <= 2
}

/// The block length that a sixteen-byte preamble declares.
pub open spec fn declared_len(buf: Seq<u8>) -> int {
    be16(buf[14], buf[15])
}

/// The endpoint that starts at `at`, its port at `port_at`, for a family.
pub open spec fn endpoint_at(buf: Seq<u8>, family: AddressFamily, at: int, port_at: int) -> SocketAddress {
    SocketAddress {
        ip: if family is Inet {
            v4_from(buf.subrange(at, at + 4))
        } else {
            v6_from(buf.subrange(at, at + 16))
        },
        port: be16(buf[port_at], buf[port_at + 1]) as u16,
    }
}

/// The source endpoint of a block that holds addresses of `family`.
pub open spec fn source_at(buf: Seq<u8>, family: AddressFamily) -> SocketAddress {
    if family is Inet {
        endpoint_at(buf, family, 16, 24)
    } else {
        endpoint_at(buf, family, 16, 48)
    }
}

/// The destination endpoint of a block that holds addresses of `family`.
pub open spec fn destination_at(buf: Seq<u8>, family: AddressFamily) -> SocketAddress {
    if family is Inet {
        endpoint_at(buf, family, 20, 26)
    } else {
        endpoint_at(buf, family, 32, 50)
    }
}

/// What a buffer that starts like a binary header decodes to: the header and
/// the number of bytes it takes, or the reason there is none.
///
/// The block of a LOCAL header, and of one with an unspecified family, is
/// skipped unread.
#[verifier::opaque]
pub open spec fn decode_binary_spec(buf: Seq<u8>) -> Result<(HeaderView, int), ProtocolError> {
    if !agrees(buf, signature()) {
        Err(ProtocolError::Malformed)
    } else if buf.len() < 16 {
        Err(ProtocolError::Truncated)
    } else if !tags_defined(buf) || declared_len(buf) > 520 {
        Err(ProtocolError::Malformed)
    } else {
        let command = command_of(buf[12] as int % 16);
        let family = family_of(buf[13] as int / 16);
        let transport = transport_of(buf[13] as int % 16);
        let n = declared_len(buf);
        if command is Local || family is Unspecified {
            if buf.len() < 16 + n {
                Err(ProtocolError::Truncated)
            } else {
                Ok(
                    (
                        HeaderView {
                            version: Version::Two,
                            command,
                            family,
                            transport,
                            source: None,
                            destination: None,
                            extensions: Seq::empty(),
                        },
                        16 + n,
                    ),
                )
            }
        } else if n < address_len(family) {
            Err(ProtocolError::Malformed)
        } else if buf.len() < 16 + n {
            Err(ProtocolError::Truncated)
        } else {
            match extensions_of(buf.subrange(16 + address_len(family), 16 + n)) {
                None => Err(ProtocolError::Malformed),
                Some(extensions) => Ok(
                    (
                        HeaderView {
                            version: Version::Two,
                            command,
                            family,
                            transport,
                            source: if family is Unix {
                                None
                            } else {
                                Some(source_at(buf, family))
                            },
                            destination: if family is Unix {
                                None
                            } else {
                                Some(destination_at(buf, family))
                            },
                            extensions,
                        },
                        16 + n,
                    ),
                ),
            }
        }
    }
}

/// The tag byte for a family of stream connections.
pub open spec fn stream_tag(ip: IpAddress) -> u8 {
    if ip is V4 {
        0x11
    } else {
        0x21
    }
}

/// The binary header that relays a stream from `source` to `destination`,
/// both of one family, with no extension records.
pub open spec fn encode_binary_spec(source: SocketAddress, destination: SocketAddress) -> Seq<u8> {
    signature() + seq![0x21u8, stream_tag(source.ip), 0u8, (2 * source.ip.octets().len() + 4) as u8]
        + source.ip.octets() + destination.ip.octets() + seq![
        hi_byte(source.port),
        lo_byte(source.port),
        hi_byte(destination.port),
        lo_byte(destination.port),
    ]
}

/// The binary header of a connection that the sender opened for itself.
pub open spec fn encode_local_spec() -> Seq<u8> {
    signature() + seq![0x20u8, 0x00u8, 0u8, 0u8]
}

/// The byte of the signature at `i`.
fn signature_at(i: usize) -> (b: u8)
    requires
        i < 12,
    ensures
        b == signature()[i as int],
{
    if i == 4 {
        0x00
    } else if i == 0 || i == 2 || i == 5 {
        0x0D
    } else if i == 7 {
        0x51
    } else if i == 8 {
        0x55
    } else if i == 9 {
        0x49
    } else if i == 10 {
        0x54
    } else {
        0x0A
    }
}

/// Tells whether `buf` can still be, or already starts with, the signature.
pub fn starts_like_binary(buf: &[u8]) -> (r: bool)
    ensures
        r == agrees(buf@, signature()),
{
    let mut i: usize = 0;
    while i < buf.len() && i < 12
        invariant
            i <= buf@.len(),
            i <= 12,
            forall|j: int| 0 <= j < i ==> buf@[j] == signature()[j],
        decreases 12 - i,
    {
        if buf[i] != signature_at(i) {
            return false;
        }
        i += 1;
    }
    true
}

/// Reads the extension records that fill `block`.
fn read_extensions(block: &[u8]) -> (r: Option<Vec<Extension>>)
    ensures
        match r {
            Some(v) => extensions_of(block@) == Some(v@.map_values(|e: Extension| e@)),
            None => extensions_of(block@) is None,
        },
{
    let mut out: Vec<Extension> = Vec::new();
    let mut pos: usize = 0;
    let len = block.len();
    proof {
        assert(block@.skip(0) =~= block@);
        assert(out@.map_values(|e: Extension| e@) =~= Seq::<(u8, Seq<u8>)>::empty());
        assert(forall|rest: Seq<(u8, Seq<u8>)>| Seq::<(u8, Seq<u8>)>::empty() + rest =~= rest);
    }
    while pos < len
        invariant
            len == block@.len(),
            pos <= len,
            extensions_of(block@.skip(pos as int)) is None ==> extensions_of(block@) is None,
            extensions_of(block@.skip(pos as int)) matches Some(rest) ==> extensions_of(block@)
                == Some(out@.map_values(|e: Extension| e@) + rest),
        decreases len - pos,
    {
        let ghost tail = block@.skip(pos as int);
        if len - pos < 3 {
            return None;
        }
        let n: usize = (block[pos + 1] as usize) * 256 + block[pos + 2] as usize;
        assert(n == be16(tail[1], tail[2]));
        if len - pos - 3 < n {
            return None;
        }
        let value = slice_to_vec(slice_subrange(block, pos + 3, pos + 3 + n));
        let record = Extension { kind: block[pos], value };
        proof {
            assert(record@ == (tail[0], tail.subrange(3, 3 + n))) by {
                assert(record.value@ =~= tail.subrange(3, 3 + n));
            }
            assert(tail.skip(3 + n) =~= block@.skip(pos + 3 + n));
            let ghost before = out@.map_values(|e: Extension| e@);
            assert(out@.push(record).map_values(|e: Extension| e@) =~= before + seq![record@]);
            assert forall|rest: Seq<(u8, Seq<u8>)>|
                before + (seq![record@] + rest) == #[trigger] (before + seq![record@] + rest) by {
                assert(before + (seq![record@] + rest) =~= before + seq![record@] + rest);
            }
        }
        out.push(record);
        pos = pos + 3 + n;
    }
    proof {
        assert(block@.skip(pos as int) =~= Seq::<u8>::empty());
        assert(out@.map_values(|e: Extension| e@) + Seq::<(u8, Seq<u8>)>::empty()
            =~= out@.map_values(|e: Extension| e@));
    }
    Some(out)
}

/// Reads the endpoint whose address starts at `at` and whose port starts at
/// `port_at`.
fn read_endpoint(buf: &[u8], v4: bool, at: usize, port_at: usize) -> (r: SocketAddress)
    requires
        at + (if v4 { 4int } else { 16int }) <= buf@.len(),
        port_at + 2 <= buf@.len(),
    ensures
        r == endpoint_at(
            buf@,
            if v4 {
                AddressFamily::Inet
            } else {
                AddressFamily::Inet6
            },
            at as int,
            port_at as int,
        ),
{
    let port: u16 = (buf[port_at] as u16) * 256 + buf[port_at + 1] as u16;
    let ip = if v4 {
        let a = [buf[at], buf[at + 1], buf[at + 2], buf[at + 3]];
        assert(a@ =~= v4_from(buf@.subrange(at as int, at + 4))->V4_0@);
        IpAddress::V4(a)
    } else {
        let a = [
            buf[at],
            buf[at + 1],
            buf[at + 2],
            buf[at + 3],
            buf[at + 4],
            buf[at + 5],
            buf[at + 6],
            buf[at + 7],
            buf[at + 8],
            buf[at + 9],
            buf[at + 10],
            buf[at + 11],
            buf[at + 12],
            buf[at + 13],
            buf[at + 14],
            buf[at + 15],
        ];
        assert(a@ =~= v6_from(buf@.subrange(at as int, at + 16))->V6_0@);
        IpAddress::V6(a)
    };
    SocketAddress { ip, port }
}

/// Decodes the binary header at the start of `buf`.
///
/// Returns the header and the number of bytes it takes, `Truncated` where
/// `buf` ends before the header does, and `Malformed` where no continuation
/// of `buf` is a header: the signature differs, a tag is undefined, the
/// declared length is over the cap or too short for the family, or the
/// extension records do not fill the block.
pub fn decode_binary(buf: &[u8]) -> (r: Result<(ForwardHeader, usize), ProtocolError>)
    ensures
        match r {
            Ok((header, taken)) => {
                &&& decode_binary_spec(buf@) == Ok::<(HeaderView, int), ProtocolError>((header@, taken as int))
                &&& header@.valid()
                &&& taken <= buf@.len()
            },
            Err(e) => decode_binary_spec(buf@) == Err::<(HeaderView, int), ProtocolError>(e),
        },
{
    proof {
        reveal(decode_binary_spec);
    }
    if !starts_like_binary(buf) {
        return Err(ProtocolError::Malformed);
    }
    if buf.len() < 16 {
        return Err(ProtocolError::Truncated);
    }
    let version_code = buf[12] / 16;
    let command_code = buf[12] % 16;
    let family_code = buf[13] / 16;
    let transport_code = buf[13] % 16;
    let n: usize = (buf[14] as usize) * 256 + buf[15] as usize;
    if version_code != 2 || command_code > 1 || family_code > 3 || transport_code > 2 || n > MAX_BLOCK_LEN {
        return Err(ProtocolError::Malformed);
    }
    let command = if command_code == 1 {
        Command::Proxy
    } else {
        Command::Local
    };
    let family = if family_code == 1 {
        AddressFamily::Inet
    } else if family_code == 2 {
        AddressFamily::Inet6
    } else if family_code == 3 {
        AddressFamily::Unix
    } else {
        AddressFamily::Unspecified
    };
    let transport = if transport_code == 1 {
        Transport::Stream
    } else if transport_code == 2 {
        Transport::Datagram
    } else {
        Transport::Unspecified
    };
    if command_code == 0 || family_code == 0 {
        if buf.len() - 16 < n {
            return Err(ProtocolError::Truncated);
        }
        let header = ForwardHeader {
            version: Version::Two,
            command,
            family,
            transport,
            source: None,
            destination: None,
            extensions: Vec::new(),
        };
        assert(header@.extensions =~= Seq::empty());
        return Ok((header, 16 + n));
    }
    let width: usize = if family_code == 1 {
        12
    } else if family_code == 2 {
        36
    } else {
        216
    };
    if n < width {
        return Err(ProtocolError::Malformed);
    }
    if buf.len() - 16 < n {
        return Err(ProtocolError::Truncated);
    }
    let extensions = match read_extensions(slice_subrange(buf, 16 + width, 16 + n)) {
        Some(v) => v,
        None => {
            return Err(ProtocolError::Malformed);
        },
    };
    let (source, destination) = if family_code == 1 {
        (Some(read_endpoint(buf, true, 16, 24)), Some(read_endpoint(buf, true, 20, 26)))
    } else if family_code == 2 {
        (Some(read_endpoint(buf, false, 16, 48)), Some(read_endpoint(buf, false, 32, 50)))
    } else {
        (None, None)
    };
    let header = ForwardHeader {
        version: Version::Two,
        command,
        family,
        transport,
        source,
        destination,
        extensions,
    };
    Ok((header, 16 + n))
}

/// Appends the octets of `ip` to `out`.
fn push_octets(out: &mut Vec<u8>, ip: &IpAddress)
    ensures
        final(out)@ == old(out)@ + ip.octets(),
{
    match ip {
        IpAddress::V4(a) => {
            let mut i: usize = 0;
            while i < 4
                invariant
                    i <= 4,
                    out@ == old(out)@ + a@.subrange(0, i as int),
                decreases 4 - i,
            {
                out.push(a[i]);
                assert(out@ =~= old(out)@ + a@.subrange(0, i + 1));
                i += 1;
            }
            assert(a@.subrange(0, 4) =~= a@);
        },
        IpAddress::V6(a) => {
            let mut i: usize = 0;
            while i < 16
                invariant
                    i <= 16,
                    out@ == old(out)@ + a@.subrange(0, i as int),
                decreases 16 - i,
            {
                out.push(a[i]);
                assert(out@ =~= old(out)@ + a@.subrange(0, i + 1));
                i += 1;
            }
            assert(a@.subrange(0, 16) =~= a@);
        },
    }
}

/// Appends the signature to `out`.
fn push_signature(out: &mut Vec<u8>)
    ensures
        final(out)@ == old(out)@ + signature(),
{
    let mut i: usize = 0;
    while i < 12
        invariant
            i <= 12,
            out@ == old(out)@ + signature().subrange(0, i as int),
        decreases 12 - i,
    {
        out.push(signature_at(i));
        assert(out@ =~= old(out)@ + signature().subrange(0, i + 1));
        i += 1;
    }
    assert(signature().subrange(0, 12) =~= signature());
}

/// Encodes the binary header that relays a stream from `source` to
/// `destination`.
///
/// Fails exactly when the two endpoints belong to different families.
pub fn encode_binary(source: &SocketAddress, destination: &SocketAddress) -> (r: Result<
    Vec<u8>,
    EncodeError,
>)
    ensures
        (source.ip is V4) == (destination.ip is V4) ==> r is Ok && r->Ok_0@ == encode_binary_spec(
            *source,
            *destination,
        ),
        (source.ip is V4) != (destination.ip is V4) ==> r == Err::<Vec<u8>, EncodeError>(
            EncodeError::FamilyMismatch,
        ),
{
    let v4 = source.ip.is_v4();
    if v4 != destination.ip.is_v4() {
        return Err(EncodeError::FamilyMismatch);
    }
    let mut out: Vec<u8> = Vec::new();
    push_signature(&mut out);
    out.push(0x21);
    out.push(if v4 { 0x11 } else { 0x21 });
    out.push(0);
    out.push(if v4 { 12 } else { 36 });
    push_octets(&mut out, &source.ip);
    push_octets(&mut out, &destination.ip);
    out.push((source.port / 256) as u8);
    out.push((source.port % 256) as u8);
    out.push((destination.port / 256) as u8);
    out.push((destination.port % 256) as u8);
    assert(out@ =~= encode_binary_spec(*source, *destination));
    Ok(out)
}

/// Encodes the binary header of a connection that the sender opened for
/// itself: a LOCAL command with an empty block.
pub fn encode_local() -> (out: Vec<u8>)
    ensures
        out@ == encode_local_spec(),
{
    let mut out: Vec<u8> = Vec::new();
    push_signature(&mut out);
    out.push(0x20);
    out.push(0x00);
    out.push(0);
    out.push(0);
    assert(out@ =~= encode_local_spec());
    out
}

/// The header that `encode_binary_spec` spells.
pub open spec fn relayed_stream(source: SocketAddress, destination: SocketAddress) -> HeaderView {
    HeaderView {
        version: Version::Two,
        command: Command::Proxy,
        family: if source.ip is V4 {
            AddressFamily::Inet
        } else {
            AddressFamily::Inet6
        },
        transport: Transport::Stream,
        source: Some(source),
        destination: Some(destination),
        extensions: Seq::empty(),
    }
}

/// The length of an encoded header: 28 bytes for IPv4, 52 for IPv6.
pub proof fn lemma_encoded_binary_len(source: SocketAddress, destination: SocketAddress)
    requires
        (source.ip is V4) == (destination.ip is V4),
    ensures
        encode_binary_spec(source, destination).len() == if source.ip is V4 {
            28int
        } else {
            52int
        },
{
    if source.ip is V4 {
        lemma_v4_from_octets(source.ip);
        lemma_v4_from_octets(destination.ip);
    } else {
        lemma_v6_from_octets(source.ip);
        lemma_v6_from_octets(destination.ip);
    }
}

/// Decoding an encoded header, whatever follows it in the buffer, gives back
/// both endpoints and stops at the end of the header.
pub proof fn lemma_binary_round_trip(source: SocketAddress, destination: SocketAddress, rest: Seq<u8>)
    requires
        (source.ip is V4) == (destination.ip is V4),
    ensures
        decode_binary_spec(encode_binary_spec(source, destination) + rest) == Ok::<
            (HeaderView, int),
            ProtocolError,
        >((relayed_stream(source, destination), encode_binary_spec(source, destination).len() as int)),
        relayed_stream(source, destination).valid(),
{
    reveal(decode_binary_spec);
    let enc = encode_binary_spec(source, destination);
    let buf = enc + rest;
    lemma_encoded_binary_len(source, destination);
    assert(agrees(buf, signature()));
    assert(buf[12] == 0x21u8);
    assert(buf[14] == 0u8);
    let so = source.ip.octets();
    let d = destination.ip.octets();
    assert(hi_byte(source.port) as int * 256 + lo_byte(source.port) as int == source.port);
    assert(hi_byte(destination.port) as int * 256 + lo_byte(destination.port) as int
        == destination.port);
    if source.ip is V4 {
        lemma_v4_from_octets(source.ip);
        lemma_v4_from_octets(destination.ip);
        assert(buf[13] == 0x11u8);
        assert(buf[15] == 12u8);
        assert(buf.subrange(16, 20) =~= so);
        assert(buf.subrange(20, 24) =~= d);
        assert(buf[24] == hi_byte(source.port) && buf[25] == lo_byte(source.port));
        assert(buf[26] == hi_byte(destination.port) && buf[27] == lo_byte(destination.port));
        assert(buf.subrange(28, 28) =~= Seq::<u8>::empty());
        assert(source_at(buf, AddressFamily::Inet) == source);
        assert(destination_at(buf, AddressFamily::Inet) == destination);
    } else {
        lemma_v6_from_octets(source.ip);
        lemma_v6_from_octets(destination.ip);
        assert(buf[13] == 0x21u8);
        assert(buf[15] == 36u8);
        assert(buf.subrange(16, 32) =~= so);
        assert(buf.subrange(32, 48) =~= d);
        assert(buf[48] == hi_byte(source.port) && buf[49] == lo_byte(source.port));
        assert(buf[50] == hi_byte(destination.port) && buf[51] == lo_byte(destination.port));
        assert(buf.subrange(52, 52) =~= Seq::<u8>::empty());
        assert(source_at(buf, AddressFamily::Inet6) == source);
        assert(destination_at(buf, AddressFamily::Inet6) == destination);
    }
}

/// Every strict prefix of an encoded header decodes to `Truncated`.
pub proof fn lemma_binary_prefix_truncated(source: SocketAddress, destination: SocketAddress, k: int)
    requires
        (source.ip is V4) == (destination.ip is V4),
        0 <= k < encode_binary_spec(source, destination).len(),
    ensures
        decode_binary_spec(encode_binary_spec(source, destination).take(k)) == Err::<
            (HeaderView, int),
            ProtocolError,
        >(ProtocolError::Truncated),
{
    reveal(decode_binary_spec);
    let enc = encode_binary_spec(source, destination);
    let buf = enc.take(k);
    lemma_encoded_binary_len(source, destination);
    assert(agrees(buf, signature()));
    if k >= 16 {
        assert(buf[12] == 0x21u8);
        assert(buf[14] == 0u8);
        if source.ip is V4 {
            assert(buf[13] == 0x11u8);
            assert(buf[15] == 12u8);
        } else {
            assert(buf[13] == 0x21u8);
            assert(buf[15] == 36u8);
        }
    }
}

/// A LOCAL header decodes to a header without endpoints, and each strict
/// prefix of it to `Truncated`.
pub proof fn lemma_binary_local(rest: Seq<u8>, k: int)
    requires
        0 <= k < 16,
    ensures
        decode_binary_spec(encode_local_spec() + rest) matches Ok((h, n)) && n == 16 && h.command is Local
            && h.source is None && h.destination is None && h.valid(),
        decode_binary_spec(encode_local_spec().take(k)) == Err::<(HeaderView, int), ProtocolError>(
            ProtocolError::Truncated,
        ),
{
    reveal(decode_binary_spec);
    let buf = encode_local_spec() + rest;
    assert(agrees(buf, signature()));
    assert(buf[12] == 0x20u8 && buf[13] == 0u8 && buf[14] == 0u8 && buf[15] == 0u8);
    assert(agrees(encode_local_spec().take(k), signature()));
}

/// A preamble that declares a block longer than the cap is malformed as soon
/// as its sixteen bytes are there, whether or not the block follows.
pub proof fn lemma_binary_length_cap(buf: Seq<u8>)
    requires
        buf.len() >= 16,
        declared_len(buf) > MAX_BLOCK_LEN,
    ensures
        decode_binary_spec(buf) == Err::<(HeaderView, int), ProtocolError>(ProtocolError::Malformed),
{
    reveal(decode_binary_spec);
}

/// Reading on never turns an outcome around: once a buffer decodes to a
/// header or to `Malformed`, it does so with any bytes added behind it.
pub proof fn lemma_binary_stable(buf: Seq<u8>, more: Seq<u8>)
    ensures
        decode_binary_spec(buf) != Err::<(HeaderView, int), ProtocolError>(ProtocolError::Truncated)
            ==> decode_binary_spec(buf + more) == decode_binary_spec(buf),
{
    reveal(decode_binary_spec);
    let ext = buf + more;
    if !agrees(buf, signature()) {
        let i = choose|i: int| 0 <= i < buf.len() && i < signature().len() && buf[i] != signature()[i];
        assert(ext[i] == buf[i]);
    } else if buf.len() >= 16 {
        assert(agrees(ext, signature())) by {
            assert forall|i: int| 0 <= i < ext.len() && i < signature().len() implies ext[i]
                == signature()[i] by {
                assert(ext[i] == buf[i]);
            }
        }
        assert(ext[12] == buf[12] && ext[13] == buf[13] && ext[14] == buf[14] && ext[15] == buf[15]);
        let n = declared_len(buf);
        let family = family_of(buf[13] as int / 16);
        if tags_defined(buf) && n <= 520 && buf.len() >= 16 + n {
            if n >= address_len(family) {
                assert(ext.subrange(16 + address_len(family), 16 + n) =~= buf.subrange(
                    16 + address_len(family),
                    16 + n,
                ));
                if family is Inet {
                    assert(ext.subrange(16, 20) =~= buf.subrange(16, 20));
                    assert(ext.subrange(20, 24) =~= buf.subrange(20, 24));
                    assert(ext[24] == buf[24] && ext[25] == buf[25] && ext[26] == buf[26] && ext[27]
                        == buf[27]);
                } else if family is Inet6 {
                    assert(ext.subrange(16, 32) =~= buf.subrange(16, 32));
                    assert(ext.subrange(32, 48) =~= buf.subrange(32, 48));
                    assert(ext[48] == buf[48] && ext[49] == buf[49] && ext[50] == buf[50] && ext[51]
                        == buf[51]);
                }
            }
        }
    }
}

/// A decoded binary header takes at most 536 bytes, none of them beyond the
/// buffer.
pub proof fn lemma_binary_len(buf: Seq<u8>)
    ensures
        decode_binary_spec(buf) matches Ok((h, n)) ==> 16 <= n <= buf.len() && n <= 536,
        buf.len() >= 536 ==> decode_binary_spec(buf) != Err::<(HeaderView, int), ProtocolError>(
            ProtocolError::Truncated,
        ),
{
    reveal(decode_binary_spec);
}

} // verus!
