//! Encoding and decoding of the forwarding header in either wire form.
//!
//! A buffer that opens with the first byte of the binary signature is read
//! as a binary header, any other as a text header.

use vstd::prelude::*;
use vstd::slice::slice_subrange;
use crate::address::SocketAddress;
use crate::binary::{decode_binary, decode_binary_spec, declared_len, encode_binary};
use crate::binary::{encode_binary_spec, encode_local, encode_local_spec, signature};
use crate::binary::{lemma_binary_local, lemma_binary_prefix_truncated, lemma_binary_round_trip};
use crate::binary::{lemma_binary_len, lemma_binary_length_cap, lemma_binary_stable};
use crate::binary::lemma_encoded_binary_len;
use crate::bytes::agrees;
use crate::header::{EncodeError, ForwardHeader, HeaderView, ProtocolError};
use crate::text::{decode_text, decode_text_spec, encode_text_spec, encode_unknown_spec};
use crate::text::{lemma_text_len, lemma_text_length_cap, lemma_text_missing_word};
use crate::text::lemma_text_prefix_truncated;
use crate::text::{lemma_text_round_trip, lemma_text_stable, lemma_text_unknown_round_trip};
use crate::text::{lemma_text_unknown_truncated, proxy_word, unknown_header, CR};

verus! {

/// The most bytes that a header can take in either form.
pub const MAX_HEADER_LEN: usize = 536;

/// What a buffer decodes to: the header at its start and the number of
/// bytes the header takes, `Truncated` where the buffer ends before the
/// header does, `Malformed` where no continuation of it is a header.
pub open spec fn decode_spec(buf: Seq<u8>) -> Result<(HeaderView, int), ProtocolError> {
    if buf.len() == 0 {
        Err(ProtocolError::Truncated)
    } else if buf[0] == 0x0D {
        decode_binary_spec(buf)
    } else {
        decode_text_spec(buf)
    }
}

/// What is sent ahead of a forwarded connection: a binary header that
/// relays the client where one is known, the header of a connection of the
/// sender's own where none is.
pub open spec fn encode_for_client_spec(client: Option<SocketAddress>, destination: SocketAddress) -> Seq<
    u8,
> {
    match client {
        Some(source) => encode_binary_spec(source, destination),
        None => encode_local_spec(),
    }
}

/// Decodes the header at the start of `buf` and returns it with the bytes
/// behind it, which belong to the next stage.
///
/// Fails with `Truncated` where `buf` ends before the header does, so that
/// a caller with more bytes to come may read on and one without reports
/// the peer's early close; and with `Malformed` where `buf` cannot be the
/// start of a header, whatever follows.
pub fn decode<'a>(buf: &'a [u8]) -> (r: Result<(ForwardHeader, &'a [u8]), ProtocolError>)
    ensures
        match r {
            Ok((header, rest)) => {
                &&& decode_spec(buf@) matches Ok((h, n))
                &&& h == header@
                &&& 0 < n <= buf@.len()
                &&& rest@ == buf@.skip(n)
                &&& header@.valid()
            },
            Err(e) => decode_spec(buf@) == Err::<(HeaderView, int), ProtocolError>(e),
        },
{
    if buf.len() == 0 {
        return Err(ProtocolError::Truncated);
    }
    let decoded = if buf[0] == 0x0D {
        decode_binary(buf)
    } else {
        decode_text(buf)
    };
    match decoded {
        Ok((header, taken)) => {
            proof {
                lemma_header_len(buf@);
            }
            let rest = slice_subrange(buf, taken, buf.len());
            assert(rest@ =~= buf@.skip(taken as int));
            Ok((header, rest))
        },
        Err(e) => Err(e),
    }
}

/// Encodes the binary header that relays a stream from `source` to
/// `destination`: the PROXY command with both endpoints.
///
/// Fails exactly when the two endpoints belong to different families.
pub fn encode(source: &SocketAddress, destination: &SocketAddress) -> (r: Result<Vec<u8>, EncodeError>)
    ensures
        (source.ip is V4) == (destination.ip is V4) ==> r is Ok && r->Ok_0@ == encode_binary_spec(
            *source,
            *destination,
        ),
        (source.ip is V4) != (destination.ip is V4) ==> r == Err::<Vec<u8>, EncodeError>(
            EncodeError::FamilyMismatch,
        ),
{
    encode_binary(source, destination)
}

/// Encodes what is sent ahead of a forwarded connection: the PROXY command
/// with the client's endpoint where the connection came from a client, the
/// LOCAL command where the sender opened it for itself.
///
/// Fails exactly when a client is given whose family differs from the
/// destination's.
pub fn encode_for_client(client: Option<&SocketAddress>, destination: &SocketAddress) -> (r: Result<
    Vec<u8>,
    EncodeError,
>)
    ensures
        match client {
            Some(source) => {
                &&& (source.ip is V4) == (destination.ip is V4) ==> r is Ok && r->Ok_0@
                    == encode_binary_spec(*source, *destination)
                &&& (source.ip is V4) != (destination.ip is V4) ==> r == Err::<Vec<u8>, EncodeError>(
                    EncodeError::FamilyMismatch,
                )
            },
            None => r is Ok && r->Ok_0@ == encode_local_spec(),
        },
{
    match client {
        Some(source) => encode_binary(source, destination),
        None => Ok(encode_local()),
    }
}

/// A decoded header takes at least one byte and at most 536.
pub proof fn lemma_header_len(buf: Seq<u8>)
    ensures
        decode_spec(buf) matches Ok((h, n)) ==> 0 < n <= buf.len() && n <= MAX_HEADER_LEN,
{
    lemma_binary_len(buf);
    lemma_text_len(buf);
}

/// Round trip: decoding an encoded header gives back the source and the
/// destination that went in, in the binary and in the text form, and leaves
/// whatever followed the header unread.
pub proof fn law_round_trip(source: SocketAddress, destination: SocketAddress, rest: Seq<u8>)
    requires
        (source.ip is V4) == (destination.ip is V4),
    ensures
        decode_spec(encode_binary_spec(source, destination) + rest) matches Ok((h, n)) && h.source
            == Some(source) && h.destination == Some(destination) && n == encode_binary_spec(
            source,
            destination,
        ).len() && (encode_binary_spec(source, destination) + rest).skip(n) == rest,
        decode_spec(encode_text_spec(source, destination) + rest) matches Ok((h, n)) && h.source
            == Some(source) && h.destination == Some(destination) && n == encode_text_spec(
            source,
            destination,
        ).len() && (encode_text_spec(source, destination) + rest).skip(n) == rest,
{
    let b = encode_binary_spec(source, destination);
    lemma_binary_round_trip(source, destination, rest);
    lemma_encoded_binary_len(source, destination);
    assert((b + rest)[0] == signature()[0]);
    assert((b + rest).skip(b.len() as int) =~= rest);
    let t = encode_text_spec(source, destination);
    lemma_text_round_trip(source, destination, rest);
    assert((t + rest)[0] == proxy_word()[0]);
    assert((t + rest).skip(t.len() as int) =~= rest);
}

/// Round trip of the headers without endpoints: the LOCAL header and the
/// UNKNOWN line decode to a header that carries no source and no
/// destination.
pub proof fn law_round_trip_without_endpoints(rest: Seq<u8>)
    ensures
        decode_spec(encode_local_spec() + rest) matches Ok((h, n)) && h.command is Local && h.source is None
            && h.destination is None && n == 16,
        decode_spec(encode_unknown_spec() + rest) == Ok::<(HeaderView, int), ProtocolError>(
            (unknown_header(), 15),
        ),
{
    lemma_binary_local(rest, 0);
    assert((encode_local_spec() + rest)[0] == signature()[0]);
    lemma_text_unknown_round_trip(rest);
    assert((encode_unknown_spec() + rest)[0] == proxy_word()[0]);
}

/// Truncation: every strict prefix of an encoded header, in either form,
/// decodes to `Truncated` and never to a header.
pub proof fn law_prefix_truncated(source: SocketAddress, destination: SocketAddress, k: int)
    requires
        (source.ip is V4) == (destination.ip is V4),
    ensures
        0 <= k < encode_binary_spec(source, destination).len() ==> decode_spec(
            encode_binary_spec(source, destination).take(k),
        ) == Err::<(HeaderView, int), ProtocolError>(ProtocolError::Truncated),
        0 <= k < encode_text_spec(source, destination).len() ==> decode_spec(
            encode_text_spec(source, destination).take(k),
        ) == Err::<(HeaderView, int), ProtocolError>(ProtocolError::Truncated),
        0 <= k < encode_local_spec().len() ==> decode_spec(encode_local_spec().take(k)) == Err::<
            (HeaderView, int),
            ProtocolError,
        >(ProtocolError::Truncated),
        0 <= k < encode_unknown_spec().len() ==> decode_spec(encode_unknown_spec().take(k)) == Err::<
            (HeaderView, int),
            ProtocolError,
        >(ProtocolError::Truncated),
{
    let b = encode_binary_spec(source, destination);
    if 0 < k < b.len() {
        lemma_binary_prefix_truncated(source, destination, k);
        assert(b.take(k)[0] == signature()[0]);
    }
    let t = encode_text_spec(source, destination);
    if 0 < k < t.len() {
        lemma_text_prefix_truncated(source, destination, k);
        lemma_text_round_trip(source, destination, Seq::empty());
        assert(t.take(k)[0] == proxy_word()[0]);
    }
    if 0 < k < encode_local_spec().len() {
        lemma_binary_local(Seq::empty(), k);
        assert(encode_local_spec().take(k)[0] == signature()[0]);
    }
    if 0 < k < encode_unknown_spec().len() {
        lemma_text_unknown_truncated(k);
        assert(encode_unknown_spec().take(k)[0] == proxy_word()[0]);
    }
}

/// Malformed rejection, binary: a buffer that starts with the signature
/// decodes to `Malformed` once its first byte is changed to any other.
pub proof fn law_flipped_signature(buf: Seq<u8>, b: u8)
    requires
        buf.len() >= 12,
        agrees(buf, signature()),
        b != buf[0],
    ensures
        decode_spec(buf.update(0, b)) == Err::<(HeaderView, int), ProtocolError>(
            ProtocolError::Malformed,
        ),
{
    let flipped = buf.update(0, b);
    lemma_text_missing_word(flipped);
    assert(buf[0] == signature()[0]);
    assert(buf[1] == signature()[1]);
    assert(flipped[1] == 0x0A);
    assert(proxy_word()[1] == 82u8);
}

/// Malformed rejection, text: a buffer that is not binary and does not open
/// with the word PROXY and a space, as far as it goes, decodes to
/// `Malformed`.
pub proof fn law_missing_word(buf: Seq<u8>)
    requires
        buf.len() > 0,
        buf[0] != 0x0D,
        !agrees(buf, proxy_word()),
    ensures
        decode_spec(buf) == Err::<(HeaderView, int), ProtocolError>(ProtocolError::Malformed),
{
    lemma_text_missing_word(buf);
}

/// Length cap: a binary preamble that declares a block of more than 520
/// bytes decodes to `Malformed` as soon as its sixteen bytes are there,
/// whether or not any of the block has arrived.
pub proof fn law_length_cap(buf: Seq<u8>)
    requires
        buf.len() >= 16,
        buf[0] == 0x0D,
        declared_len(buf) > 520,
    ensures
        decode_spec(buf) == Err::<(HeaderView, int), ProtocolError>(ProtocolError::Malformed),
{
    lemma_binary_length_cap(buf);
}

/// Length cap, text: a buffer that is not binary and holds no CR among its
/// first 106 bytes decodes to `Malformed`, however long the line goes on.
pub proof fn law_line_cap(buf: Seq<u8>)
    requires
        buf.len() >= 106,
        buf[0] != 0x0D,
        forall|i: int| 0 <= i < 106 ==> buf[i] != CR,
    ensures
        decode_spec(buf) == Err::<(HeaderView, int), ProtocolError>(ProtocolError::Malformed),
{
    lemma_text_length_cap(buf);
}

/// A caller never has to buffer more than 536 bytes to learn the outcome:
/// a buffer that long does not decode to `Truncated`.
pub proof fn law_bounded_buffering(buf: Seq<u8>)
    requires
        buf.len() >= MAX_HEADER_LEN,
    ensures
        decode_spec(buf) != Err::<(HeaderView, int), ProtocolError>(ProtocolError::Truncated),
{
    lemma_binary_len(buf);
    lemma_text_len(buf);
}

/// Reading on never turns an outcome around: once a buffer decodes to a
/// header or to `Malformed`, it does so with any bytes added behind it.
pub proof fn law_outcome_stable(buf: Seq<u8>, more: Seq<u8>)
    ensures
        decode_spec(buf) != Err::<(HeaderView, int), ProtocolError>(ProtocolError::Truncated)
            ==> decode_spec(buf + more) == decode_spec(buf),
{
    let ext = buf + more;
    if buf.len() > 0 {
        assert(ext[0] == buf[0]);
        if buf[0] == 0x0D {
            lemma_binary_stable(buf, more);
        } else {
            lemma_text_stable(buf, more);
        }
    }
}

} // verus!
