use tls_terminator::address::{IpAddress, SocketAddress};
use tls_terminator::binary::{decode_binary, encode_binary, encode_local};
use tls_terminator::codec::{decode, encode, encode_for_client};
use tls_terminator::header::{AddressFamily, Command, EncodeError, Extension, ProtocolError};
use tls_terminator::header::{Transport, Version};
use tls_terminator::text::{decode_text, encode_text, encode_unknown};

const SIGNATURE: [u8; 12] = [0x0D, 0x0A, 0x0D, 0x0A, 0x00, 0x0D, 0x0A, 0x51, 0x55, 0x49, 0x54, 0x0A];

fn v4(a: u8, b: u8, c: u8, d: u8, port: u16) -> SocketAddress {
    SocketAddress { ip: IpAddress::V4([a, b, c, d]), port }
}

fn v6(groups: [u16; 8], port: u16) -> SocketAddress {
    let mut octets = [0u8; 16];
    for (i, g) in groups.iter().enumerate() {
        octets[2 * i] = (g >> 8) as u8;
        octets[2 * i + 1] = (g & 0xff) as u8;
    }
    SocketAddress { ip: IpAddress::V6(octets), port }
}

fn preamble(tag: u8, family: u8, len: u16) -> Vec<u8> {
    let mut out = SIGNATURE.to_vec();
    out.push(tag);
    out.push(family);
    out.push((len >> 8) as u8);
    out.push((len & 0xff) as u8);
    out
}

fn text_outcome(line: &str) -> Result<(Option<SocketAddress>, Option<SocketAddress>, usize), ProtocolError> {
    decode(line.as_bytes()).map(|(h, rest)| (h.source, h.destination, line.len() - rest.len()))
}

#[test]
fn encode_v4_exact_bytes() {
    let bytes = encode(&v4(1, 2, 3, 4, 80), &v4(5, 6, 7, 8, 443)).unwrap();
    let mut want = SIGNATURE.to_vec();
    want.extend_from_slice(&[0x21, 0x11, 0, 12, 1, 2, 3, 4, 5, 6, 7, 8, 0, 80, 1, 187]);
    assert_eq!(bytes, want);
}

#[test]
fn encode_v6_exact_bytes() {
    let source = v6([0x2001, 0xdb8, 0, 0, 0, 0, 0, 1], 65535);
    let destination = v6([0, 0, 0, 0, 0, 0, 0, 1], 1);
    let bytes = encode(&source, &destination).unwrap();
    assert_eq!(bytes.len(), 52);
    assert_eq!(&bytes[..12], &SIGNATURE[..]);
    assert_eq!(&bytes[12..16], &[0x21, 0x21, 0, 36]);
    assert_eq!(&bytes[16..20], &[0x20, 0x01, 0x0d, 0xb8]);
    assert_eq!(bytes[31], 1);
    assert_eq!(bytes[47], 1);
    assert_eq!(&bytes[48..52], &[0xff, 0xff, 0, 1]);
}

#[test]
fn encode_family_mismatch_is_error() {
    let a = v4(1, 2, 3, 4, 1);
    let b = v6([0, 0, 0, 0, 0, 0, 0, 1], 2);
    assert_eq!(encode(&a, &b), Err(EncodeError::FamilyMismatch));
    assert_eq!(encode(&b, &a), Err(EncodeError::FamilyMismatch));
    assert_eq!(encode_binary(&a, &b), Err(EncodeError::FamilyMismatch));
    assert_eq!(encode_text(&a, &b), Err(EncodeError::FamilyMismatch));
    assert_eq!(encode_for_client(Some(&a), &b), Err(EncodeError::FamilyMismatch));
}

#[test]
fn encode_local_exact_bytes() {
    let mut want = SIGNATURE.to_vec();
    want.extend_from_slice(&[0x20, 0x00, 0, 0]);
    assert_eq!(encode_local(), want);
    assert_eq!(encode_for_client(None, &v4(9, 9, 9, 9, 9)).unwrap(), want);
}

#[test]
fn encode_for_client_relays_the_client() {
    let client = v4(203, 0, 113, 7, 51000);
    let destination = v4(127, 0, 0, 1, 62801);
    assert_eq!(
        encode_for_client(Some(&client), &destination).unwrap(),
        encode(&client, &destination).unwrap()
    );
}

#[test]
fn encode_text_exact_bytes() {
    let line = encode_text(&v4(1, 2, 3, 4, 80), &v4(5, 6, 7, 8, 443)).unwrap();
    assert_eq!(line, b"PROXY TCP4 1.2.3.4 5.6.7.8 80 443\r\n".to_vec());
    let line = encode_text(&v4(255, 255, 255, 255, 65535), &v4(0, 0, 0, 0, 0)).unwrap();
    assert_eq!(line, b"PROXY TCP4 255.255.255.255 0.0.0.0 65535 0\r\n".to_vec());
    let line = encode_text(
        &v6([0, 0, 0, 0, 0, 0, 0, 1], 1),
        &v6([0x2001, 0xdb8, 0, 0, 0, 0, 0xabcd, 0x2], 65535),
    )
    .unwrap();
    assert_eq!(line, b"PROXY TCP6 0:0:0:0:0:0:0:1 2001:db8:0:0:0:0:abcd:2 1 65535\r\n".to_vec());
    assert_eq!(encode_unknown(), b"PROXY UNKNOWN\r\n".to_vec());
}

#[test]
fn longest_text_line_fits_the_cap() {
    let all = v6([0xffff; 8], 65535);
    let line = encode_text(&all, &all).unwrap();
    assert_eq!(line.len(), 104);
    let (header, rest) = decode(&line).unwrap();
    assert_eq!(header.source, Some(all));
    assert_eq!(header.destination, Some(all));
    assert!(rest.is_empty());
}

#[test]
fn round_trip_binary_v4() {
    let source = v4(192, 168, 0, 1, 56324);
    let destination = v4(10, 0, 0, 2, 443);
    let bytes = encode(&source, &destination).unwrap();
    let (header, rest) = decode(&bytes).unwrap();
    assert_eq!(header.source, Some(source));
    assert_eq!(header.destination, Some(destination));
    assert_eq!(header.version, Version::Two);
    assert_eq!(header.command, Command::Proxy);
    assert_eq!(header.family, AddressFamily::Inet);
    assert_eq!(header.transport, Transport::Stream);
    assert!(header.extensions.is_empty());
    assert!(header.is_proxy());
    assert!(rest.is_empty());
}

#[test]
fn round_trip_binary_v6() {
    let source = v6([0x2001, 0xdb8, 0x85a3, 0, 0, 0x8a2e, 0x370, 0x7334], 1);
    let destination = v6([0xfe80, 0, 0, 0, 0, 0, 0, 0x1], 65535);
    let bytes = encode(&source, &destination).unwrap();
    let (header, rest) = decode(&bytes).unwrap();
    assert_eq!(header.source, Some(source));
    assert_eq!(header.destination, Some(destination));
    assert_eq!(header.family, AddressFamily::Inet6);
    assert!(rest.is_empty());
}

#[test]
fn round_trip_text_v4() {
    let source = v4(0, 10, 100, 255, 0);
    let destination = v4(9, 99, 199, 200, 10000);
    let line = encode_text(&source, &destination).unwrap();
    let (header, rest) = decode(&line).unwrap();
    assert_eq!(header.source, Some(source));
    assert_eq!(header.destination, Some(destination));
    assert_eq!(header.version, Version::One);
    assert_eq!(header.command, Command::Proxy);
    assert_eq!(header.family, AddressFamily::Inet);
    assert_eq!(header.transport, Transport::Stream);
    assert!(rest.is_empty());
}

#[test]
fn round_trip_text_v6() {
    let source = v6([0, 0x1, 0x10, 0x100, 0x1000, 0xf, 0xff, 0xfff], 9);
    let destination = v6([0xffff, 0, 0xa, 0xab, 0xabc, 0xabcd, 0, 0], 99);
    let line = encode_text(&source, &destination).unwrap();
    let (header, rest) = decode(&line).unwrap();
    assert_eq!(header.source, Some(source));
    assert_eq!(header.destination, Some(destination));
    assert_eq!(header.family, AddressFamily::Inet6);
    assert!(rest.is_empty());
}

#[test]
fn round_trip_over_many_ports_and_octets() {
    let mut port: u32 = 0;
    while port <= 65535 {
        let p = port as u16;
        let o = (port % 256) as u8;
        let source = v4(o, 255 - o, o / 2, 1, p);
        let destination = v4(1, o, 2, 255 - o, 65535 - p);
        for bytes in [encode(&source, &destination).unwrap(), encode_text(&source, &destination).unwrap()] {
            let (header, rest) = decode(&bytes).unwrap();
            assert_eq!(header.source, Some(source));
            assert_eq!(header.destination, Some(destination));
            assert!(rest.is_empty());
        }
        port += 251;
    }
}

#[test]
fn decode_leaves_payload_unread() {
    let source = v4(1, 2, 3, 4, 5);
    let destination = v4(6, 7, 8, 9, 10);
    let payload = b"GET / HTTP/1.1\r\nHost: example\r\n\r\n";
    let mut bytes = encode(&source, &destination).unwrap();
    bytes.extend_from_slice(payload);
    let (header, rest) = decode(&bytes).unwrap();
    assert_eq!(header.source, Some(source));
    assert_eq!(rest, &payload[..]);
    let mut line = encode_text(&source, &destination).unwrap();
    line.extend_from_slice(payload);
    let (header, rest) = decode(&line).unwrap();
    assert_eq!(header.destination, Some(destination));
    assert_eq!(rest, &payload[..]);
}

#[test]
fn every_strict_prefix_is_truncated() {
    let pairs = [
        (v4(1, 2, 3, 4, 80), v4(5, 6, 7, 8, 443)),
        (v6([1, 2, 3, 4, 5, 6, 7, 8], 1), v6([0xffff; 8], 65535)),
    ];
    for (source, destination) in pairs {
        for bytes in [encode(&source, &destination).unwrap(), encode_text(&source, &destination).unwrap()] {
            for k in 0..bytes.len() {
                assert_eq!(decode(&bytes[..k]).map(|r| r.0), Err(ProtocolError::Truncated), "prefix {}", k);
            }
            assert!(decode(&bytes).is_ok());
        }
    }
    for bytes in [encode_local(), encode_unknown()] {
        for k in 0..bytes.len() {
            assert_eq!(decode(&bytes[..k]).map(|r| r.0), Err(ProtocolError::Truncated));
        }
        assert!(decode(&bytes).is_ok());
    }
}

#[test]
fn empty_buffer_is_truncated() {
    assert_eq!(decode(&[]).map(|r| r.0), Err(ProtocolError::Truncated));
    assert_eq!(decode_binary(&[]).map(|r| r.0), Err(ProtocolError::Truncated));
    assert_eq!(decode_text(&[]).map(|r| r.0), Err(ProtocolError::Truncated));
}

#[test]
fn flipped_signature_is_malformed() {
    let bytes = encode(&v4(1, 2, 3, 4, 80), &v4(5, 6, 7, 8, 443)).unwrap();
    for b in 0..=255u8 {
        if b == bytes[0] {
            continue;
        }
        let mut flipped = bytes.clone();
        flipped[0] = b;
        assert_eq!(decode(&flipped).map(|r| r.0), Err(ProtocolError::Malformed), "byte {}", b);
    }
    for i in 1..12 {
        let mut flipped = bytes.clone();
        flipped[i] ^= 0x01;
        assert_eq!(decode(&flipped).map(|r| r.0), Err(ProtocolError::Malformed), "index {}", i);
    }
}

#[test]
fn missing_proxy_word_is_malformed() {
    assert_eq!(text_outcome("TCP4 1.2.3.4 5.6.7.8 80 443\r\n"), Err(ProtocolError::Malformed));
    assert_eq!(text_outcome("PROXI TCP4 1.2.3.4 5.6.7.8 80 443\r\n"), Err(ProtocolError::Malformed));
    assert_eq!(text_outcome("proxy TCP4 1.2.3.4 5.6.7.8 80 443\r\n"), Err(ProtocolError::Malformed));
    assert_eq!(text_outcome("PROXY\r\n"), Err(ProtocolError::Malformed));
    assert_eq!(text_outcome("PROXYTCP4 1.2.3.4 5.6.7.8 80 443\r\n"), Err(ProtocolError::Malformed));
    assert_eq!(text_outcome("GET / HTTP/1.1\r\n"), Err(ProtocolError::Malformed));
    assert_eq!(text_outcome("G"), Err(ProtocolError::Malformed));
    assert_eq!(text_outcome("PROX"), Err(ProtocolError::Truncated));
    assert_eq!(text_outcome("PROXY "), Err(ProtocolError::Truncated));
}

#[test]
fn declared_length_over_cap_is_malformed() {
    let buf = preamble(0x21, 0x11, 521);
    assert_eq!(buf.len(), 16);
    assert_eq!(decode(&buf).map(|r| r.0), Err(ProtocolError::Malformed));
    let buf = preamble(0x21, 0x11, 65535);
    assert_eq!(decode(&buf).map(|r| r.0), Err(ProtocolError::Malformed));
    let buf = preamble(0x20, 0x00, 521);
    assert_eq!(decode(&buf).map(|r| r.0), Err(ProtocolError::Malformed));
    let buf = preamble(0x21, 0x11, 520);
    assert_eq!(decode(&buf).map(|r| r.0), Err(ProtocolError::Truncated));
}

#[test]
fn largest_block_is_read() {
    let mut buf = preamble(0x21, 0x11, 520);
    buf.extend_from_slice(&[1, 2, 3, 4, 5, 6, 7, 8, 0, 80, 1, 187]);
    let value_len = 520 - 12 - 3;
    buf.push(0x04);
    buf.push((value_len >> 8) as u8);
    buf.push((value_len & 0xff) as u8);
    buf.extend(std::iter::repeat(0u8).take(value_len));
    assert_eq!(buf.len(), 536);
    let (header, rest) = decode(&buf).unwrap();
    assert_eq!(header.source, Some(v4(1, 2, 3, 4, 80)));
    assert_eq!(header.extensions.len(), 1);
    assert_eq!(header.extensions[0].kind, 0x04);
    assert_eq!(header.extensions[0].value.len(), value_len);
    assert!(rest.is_empty());
}

#[test]
fn undefined_tags_are_malformed() {
    for (tag, family) in [(0x11u8, 0x11u8), (0x31, 0x11), (0x22, 0x11), (0x2f, 0x11), (0x21, 0x41), (0x21, 0x13), (0x21, 0xff)] {
        let mut buf = preamble(tag, family, 12);
        buf.extend_from_slice(&[1, 2, 3, 4, 5, 6, 7, 8, 0, 80, 1, 187]);
        assert_eq!(decode(&buf).map(|r| r.0), Err(ProtocolError::Malformed), "{:x} {:x}", tag, family);
    }
}

#[test]
fn block_too_short_for_family_is_malformed() {
    let mut buf = preamble(0x21, 0x11, 11);
    buf.extend_from_slice(&[0; 11]);
    assert_eq!(decode(&buf).map(|r| r.0), Err(ProtocolError::Malformed));
    let buf = preamble(0x21, 0x21, 35);
    assert_eq!(decode(&buf).map(|r| r.0), Err(ProtocolError::Malformed));
    let buf = preamble(0x21, 0x31, 215);
    assert_eq!(decode(&buf).map(|r| r.0), Err(ProtocolError::Malformed));
}

#[test]
fn datagram_transport_is_read() {
    let mut buf = preamble(0x21, 0x12, 12);
    buf.extend_from_slice(&[127, 0, 0, 1, 127, 0, 0, 2, 0, 80, 1, 187]);
    let (header, _) = decode(&buf).unwrap();
    assert_eq!(header.transport, Transport::Datagram);
    assert_eq!(header.source, Some(v4(127, 0, 0, 1, 80)));
    assert_eq!(header.destination, Some(v4(127, 0, 0, 2, 443)));
}

#[test]
fn extension_records_are_read_in_order() {
    let mut buf = preamble(0x21, 0x11, 12 + 3 + 2 + 3 + 0 + 3 + 5);
    buf.extend_from_slice(&[127, 0, 0, 1, 127, 0, 0, 2, 0, 80, 1, 187]);
    buf.extend_from_slice(&[0x01, 0, 2, b'h', b'2']);
    buf.extend_from_slice(&[0x04, 0, 0]);
    buf.extend_from_slice(&[0x02, 0, 5, b'h', b'e', b'l', b'l', b'o']);
    buf.extend_from_slice(b"rest");
    let (header, rest) = decode(&buf).unwrap();
    assert_eq!(
        header.extensions,
        vec![
            Extension { kind: 0x01, value: b"h2".to_vec() },
            Extension { kind: 0x04, value: vec![] },
            Extension { kind: 0x02, value: b"hello".to_vec() },
        ]
    );
    assert_eq!(rest, b"rest");
}

#[test]
fn extension_record_past_the_block_is_malformed() {
    let mut buf = preamble(0x21, 0x11, 12 + 5);
    buf.extend_from_slice(&[127, 0, 0, 1, 127, 0, 0, 2, 0, 80, 1, 187]);
    buf.extend_from_slice(&[0x01, 0, 3, b'h', b'2']);
    assert_eq!(decode(&buf).map(|r| r.0), Err(ProtocolError::Malformed));
    let mut buf = preamble(0x21, 0x11, 12 + 2);
    buf.extend_from_slice(&[127, 0, 0, 1, 127, 0, 0, 2, 0, 80, 1, 187]);
    buf.extend_from_slice(&[0x01, 0]);
    assert_eq!(decode(&buf).map(|r| r.0), Err(ProtocolError::Malformed));
}

#[test]
fn local_header_carries_no_endpoints() {
    let local = encode_local();
    let (header, rest) = decode(&local).unwrap();
    assert_eq!(header.command, Command::Local);
    assert_eq!(header.version, Version::Two);
    assert_eq!(header.family, AddressFamily::Unspecified);
    assert_eq!(header.source, None);
    assert_eq!(header.destination, None);
    assert!(!header.is_proxy());
    assert!(rest.is_empty());
    let mut buf = preamble(0x20, 0x11, 12);
    buf.extend_from_slice(&[127, 0, 0, 1, 127, 0, 0, 2, 0, 80, 1, 187]);
    buf.extend_from_slice(b"x");
    let (header, rest) = decode(&buf).unwrap();
    assert_eq!(header.command, Command::Local);
    assert_eq!(header.family, AddressFamily::Inet);
    assert_eq!(header.source, None);
    assert_eq!(header.destination, None);
    assert!(header.extensions.is_empty());
    assert_eq!(rest, b"x");
    let mut buf = preamble(0x20, 0x11, 3);
    buf.extend_from_slice(&[9, 9, 9]);
    let (header, rest) = decode(&buf).unwrap();
    assert_eq!(header.source, None);
    assert!(rest.is_empty());
}

#[test]
fn unspecified_family_block_is_skipped() {
    let mut buf = preamble(0x21, 0x00, 12);
    buf.extend_from_slice(&[127, 0, 0, 1, 127, 0, 0, 2, 0, 80, 1, 187]);
    buf.extend_from_slice(b"tail");
    let (header, rest) = decode(&buf).unwrap();
    assert_eq!(header.command, Command::Proxy);
    assert_eq!(header.family, AddressFamily::Unspecified);
    assert_eq!(header.source, None);
    assert!(header.extensions.is_empty());
    assert_eq!(rest, b"tail");
}

#[test]
fn unix_family_paths_are_skipped() {
    let mut buf = preamble(0x21, 0x31, 216 + 4);
    buf.extend(std::iter::repeat(b'/').take(216));
    buf.extend_from_slice(&[0x30, 0, 1, b'n']);
    let (header, rest) = decode(&buf).unwrap();
    assert_eq!(header.family, AddressFamily::Unix);
    assert_eq!(header.source, None);
    assert_eq!(header.destination, None);
    assert_eq!(header.extensions, vec![Extension { kind: 0x30, value: b"n".to_vec() }]);
    assert!(rest.is_empty());
}

#[test]
fn text_lines_are_read() {
    let full = v4(255, 255, 255, 255, 65535);
    assert_eq!(
        text_outcome("PROXY TCP4 255.255.255.255 255.255.255.255 65535 65535\r\n"),
        Ok((Some(full), Some(full), 56))
    );
    assert_eq!(
        text_outcome("PROXY TCP4 255.255.255.255 255.255.255.255 65535 65535\r\nFoobar"),
        Ok((Some(full), Some(full), 56))
    );
    assert_eq!(
        text_outcome("PROXY TCP4 0.0.0.0 127.0.0.1 0 8080\r\n"),
        Ok((Some(v4(0, 0, 0, 0, 0)), Some(v4(127, 0, 0, 1, 8080)), 37))
    );
    let all = v6([0xffff; 8], 65535);
    let one = v6([0, 0, 0, 0, 0, 0, 0, 1], 65535);
    assert_eq!(
        text_outcome("PROXY TCP6 ::1 ffff:ffff:ffff:ffff:ffff:ffff:ffff:ffff 65535 65535\r\nHi!"),
        Ok((Some(one), Some(all), 68))
    );
    assert_eq!(
        text_outcome("PROXY TCP6 FFFF:ffff:FFFF:ffff:ffff:ffff:ffff:ffff ::1 65535 65535\r\n"),
        Ok((Some(all), Some(one), 68))
    );
}

#[test]
fn unknown_lines_are_read() {
    assert_eq!(text_outcome("PROXY UNKNOWN\r\n"), Ok((None, None, 15)));
    assert_eq!(text_outcome("PROXY UNKNOWN\r\nTwo"), Ok((None, None, 15)));
    assert_eq!(
        text_outcome("PROXY UNKNOWN ffff::1 ffff::2 65535 65535\r\n"),
        Ok((None, None, 43))
    );
    assert_eq!(text_outcome("PROXY UNKNOWNS\r\n"), Err(ProtocolError::Malformed));
    assert_eq!(text_outcome("PROXY UNKNOW\r\n"), Err(ProtocolError::Malformed));
    let (header, _) = decode(b"PROXY UNKNOWN\r\n").unwrap();
    assert_eq!(header.version, Version::One);
    assert_eq!(header.family, AddressFamily::Unspecified);
    assert_eq!(header.transport, Transport::Unspecified);
    assert_eq!(header.command, Command::Proxy);
}

#[test]
fn compressed_ipv6_forms_are_read() {
    let cases: [(&str, [u16; 8]); 9] = [
        ("::", [0, 0, 0, 0, 0, 0, 0, 0]),
        ("::1", [0, 0, 0, 0, 0, 0, 0, 1]),
        ("1::", [1, 0, 0, 0, 0, 0, 0, 0]),
        ("1::2", [1, 0, 0, 0, 0, 0, 0, 2]),
        ("1:2::3:4", [1, 2, 0, 0, 0, 0, 3, 4]),
        ("1:2:3:4:5:6:7::", [1, 2, 3, 4, 5, 6, 7, 0]),
        ("::2:3:4:5:6:7:8", [0, 2, 3, 4, 5, 6, 7, 8]),
        ("2001:db8::ff00:42:8329", [0x2001, 0xdb8, 0, 0, 0, 0xff00, 0x42, 0x8329]),
        ("0001:002:03:4:a:B:cD:EF01", [1, 2, 3, 4, 0xa, 0xb, 0xcd, 0xef01]),
    ];
    for (text, groups) in cases {
        let line = format!("PROXY TCP6 {} ::1 7 8\r\n", text);
        assert_eq!(
            text_outcome(&line),
            Ok((Some(v6(groups, 7)), Some(v6([0, 0, 0, 0, 0, 0, 0, 1], 8)), line.len())),
            "{}",
            text
        );
    }
}

#[test]
fn ipv6_with_dotted_tail_is_read() {
    let cases: [(&str, [u16; 8]); 7] = [
        ("::ffff:1.2.3.4", [0, 0, 0, 0, 0, 0xffff, 0x0102, 0x0304]),
        ("::1.2.3.4", [0, 0, 0, 0, 0, 0, 0x0102, 0x0304]),
        ("::255.255.255.255", [0, 0, 0, 0, 0, 0, 0xffff, 0xffff]),
        ("1:2:3:4:5:6:1.2.3.4", [1, 2, 3, 4, 5, 6, 0x0102, 0x0304]),
        ("64:ff9b::192.0.2.33", [0x64, 0xff9b, 0, 0, 0, 0, 0xc000, 0x0221]),
        ("1::0.0.0.0", [1, 0, 0, 0, 0, 0, 0, 0]),
        ("1:2:3:4:5::1.2.3.4", [1, 2, 3, 4, 5, 0, 0x0102, 0x0304]),
    ];
    for (text, groups) in cases {
        let line = format!("PROXY TCP6 {} {} 7 8\r\n", text, text);
        assert_eq!(
            text_outcome(&line),
            Ok((Some(v6(groups, 7)), Some(v6(groups, 8)), line.len())),
            "{}",
            text
        );
    }
}

#[test]
fn ill_formed_ipv6_is_malformed() {
    for text in [
        "", ":", ":::", "1", "1:2:3:4:5:6:7", "1:2:3:4:5:6:7:8:9", "1:2:3:4:5:6:7:8::", "::1:2:3:4:5:6:7:8",
        "1::2::3", "12345::", "g::", "1:2:3:4:5:6:7:", ":1:2:3:4:5:6:7", "1.2.3.4", "::1%eth0",
        "1:2:3:4:5:6:7:1.2.3.4", "1:2:3:4:5:1.2.3.4", "::1.2.3", "::1.2.3.4.5", "::01.2.3.4", "::256.2.3.4",
        "1.2.3.4::", "::1.2.3.4:5", ":1.2.3.4", "1:2:3:4:5:6::1.2.3.4", "::1.2.3.4 ",
    ] {
        let line = format!("PROXY TCP6 {} ::1 7 8\r\n", text);
        assert_eq!(text_outcome(&line), Err(ProtocolError::Malformed), "{:?}", text);
    }
}

#[test]
fn ill_formed_ipv4_is_malformed() {
    for text in [
        "", "1", "1.2.3", "1.2.3.4.5", "256.0.0.1", "1.2.3.256", "01.2.3.4", "1.2.3.04", "255.0255.255.255",
        "1..3.4", ".1.2.3", "1.2.3.", "a.b.c.d", "1.2.3.4x", "::1", "1.2.3.1000", "+1.2.3.4",
    ] {
        let line = format!("PROXY TCP4 {} 5.6.7.8 80 443\r\n", text);
        assert_eq!(text_outcome(&line), Err(ProtocolError::Malformed), "{:?}", text);
        let line = format!("PROXY TCP4 5.6.7.8 {} 80 443\r\n", text);
        assert_eq!(text_outcome(&line), Err(ProtocolError::Malformed), "{:?}", text);
    }
}

#[test]
fn ill_formed_ports_are_malformed() {
    for text in ["", "065535", "00", "01", "65536", "99999", "100000", "-1", "+1", "1a", "0x10", " 1"] {
        let line = format!("PROXY TCP4 1.2.3.4 5.6.7.8 {} 443\r\n", text);
        assert_eq!(text_outcome(&line), Err(ProtocolError::Malformed), "{:?}", text);
        let line = format!("PROXY TCP4 1.2.3.4 5.6.7.8 80 {}\r\n", text);
        assert_eq!(text_outcome(&line), Err(ProtocolError::Malformed), "{:?}", text);
    }
    assert_eq!(
        text_outcome("PROXY TCP4 1.2.3.4 5.6.7.8 0 65535\r\n"),
        Ok((Some(v4(1, 2, 3, 4, 0)), Some(v4(5, 6, 7, 8, 65535)), 36))
    );
}

#[test]
fn wrong_field_count_or_family_is_malformed() {
    for line in [
        "PROXY TCP4 1.2.3.4 5.6.7.8 80\r\n",
        "PROXY TCP4 1.2.3.4 5.6.7.8 80 443 1\r\n",
        "PROXY TCP4 1.2.3.4 5.6.7.8 80 443 \r\n",
        "PROXY TCP4  1.2.3.4 5.6.7.8 80 443\r\n",
        "PROXY TCP4 1.2.3.4\r\n",
        "PROXY TCP4\r\n",
        "PROXY TCP4 \r\n",
        "PROXY TCP4 ::1 ::2 80 443\r\n",
        "PROXY TCP6 1.2.3.4 5.6.7.8 80 443\r\n",
        "PROXY TCP4 1.2.3.4 ::1 80 443\r\n",
        "PROXY TCP5 1.2.3.4 5.6.7.8 80 443\r\n",
        "PROXY UDP4 1.2.3.4 5.6.7.8 80 443\r\n",
        "PROXY tcp4 1.2.3.4 5.6.7.8 80 443\r\n",
        "PROXY TCP4 1.2.3.4 5.6.7.8 80 443\r\r\n",
        "PROXY TCP4 1.2.3.4 5.6.7.8 80 443\rx",
        "PROXY TCP4 1.2.3.4 5.6.7.8 80 443\n\r\n",
    ] {
        assert_eq!(text_outcome(line), Err(ProtocolError::Malformed), "{:?}", line);
    }
}

#[test]
fn line_without_terminator_within_cap_is_malformed() {
    let mut long = b"PROXY UNKNOWN ".to_vec();
    while long.len() < 105 {
        long.push(b'a');
    }
    assert_eq!(decode(&long).map(|r| r.0), Err(ProtocolError::Truncated));
    long.push(b'a');
    assert_eq!(long.len(), 106);
    assert_eq!(decode(&long).map(|r| r.0), Err(ProtocolError::Malformed));
    long.extend_from_slice(b"\r\n");
    assert_eq!(decode(&long).map(|r| r.0), Err(ProtocolError::Malformed));
    let mut fits = b"PROXY UNKNOWN ".to_vec();
    while fits.len() < 105 {
        fits.push(b'a');
    }
    fits.extend_from_slice(b"\r\n");
    assert_eq!(fits.len(), 107);
    let (header, rest) = decode(&fits).unwrap();
    assert_eq!(header.source, None);
    assert!(rest.is_empty());
}

#[test]
fn carriage_return_awaits_its_line_feed() {
    assert_eq!(text_outcome("PROXY UNKNOWN\r"), Err(ProtocolError::Truncated));
    assert_eq!(text_outcome("PROXY UNKNOWN\rX"), Err(ProtocolError::Malformed));
    assert_eq!(text_outcome("PROXY UNKNOWN\n"), Err(ProtocolError::Truncated));
}

#[test]
fn outcome_is_stable_under_more_bytes() {
    let source = v4(1, 2, 3, 4, 80);
    let destination = v4(5, 6, 7, 8, 443);
    for bytes in [encode(&source, &destination).unwrap(), encode_text(&source, &destination).unwrap()] {
        let mut longer = bytes.clone();
        for extra in 0..40u8 {
            longer.push(extra.wrapping_mul(37));
            let (header, rest) = decode(&longer).unwrap();
            assert_eq!(header.source, Some(source));
            assert_eq!(header.destination, Some(destination));
            assert_eq!(rest, &longer[bytes.len()..]);
        }
    }
    let mut bad = b"HELLO".to_vec();
    for _ in 0..200 {
        bad.push(b'\n');
        assert_eq!(decode(&bad).map(|r| r.0), Err(ProtocolError::Malformed));
    }
}

#[test]
fn no_header_needs_more_than_the_cap() {
    let mut buf = preamble(0x21, 0x11, 520);
    while buf.len() < 535 {
        buf.push(0);
        assert_eq!(decode(&buf).map(|r| r.0), Err(ProtocolError::Truncated));
    }
    buf.push(0);
    assert_ne!(decode(&buf).map(|r| r.0), Err(ProtocolError::Truncated));
}

#[test]
fn binary_and_text_decoders_agree_with_decode() {
    let source = v4(1, 2, 3, 4, 80);
    let destination = v4(5, 6, 7, 8, 443);
    let bytes = encode(&source, &destination).unwrap();
    let (header, taken) = decode_binary(&bytes).unwrap();
    assert_eq!(taken, 28);
    assert_eq!(header, decode(&bytes).unwrap().0);
    assert_eq!(decode_text(&bytes).map(|r| r.1), Err(ProtocolError::Malformed));
    let line = encode_text(&source, &destination).unwrap();
    let (header, taken) = decode_text(&line).unwrap();
    assert_eq!(taken, line.len());
    assert_eq!(header, decode(&line).unwrap().0);
    assert_eq!(decode_binary(&line).map(|r| r.1), Err(ProtocolError::Malformed));
}
