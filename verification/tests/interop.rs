use rama_haproxy::protocol::{v1, v2, HeaderResult};
use tls_terminator::address::{IpAddress, SocketAddress};
use tls_terminator::codec::{decode, encode};
use tls_terminator::header::{AddressFamily, Command, Extension, Transport, Version};
use tls_terminator::text::encode_text;

fn v4(octets: [u8; 4], port: u16) -> SocketAddress {
    SocketAddress { ip: IpAddress::V4(octets), port }
}

fn v6(octets: [u8; 16], port: u16) -> SocketAddress {
    SocketAddress { ip: IpAddress::V6(octets), port }
}

const A6: [u8; 16] = [0x20, 0x01, 0x0d, 0xb8, 0, 0, 0, 0, 0, 0, 0xff, 0, 0, 0x42, 0x83, 0x29];
const B6: [u8; 16] = [0, 0, 0, 0, 0, 0, 0, 0, 0, 0, 0, 0, 0, 0, 0, 1];

#[test]
fn binary_header_matches_the_reference_builder() {
    let ours = encode(&v4([192, 168, 1, 9], 51234), &v4([10, 0, 0, 1], 443)).unwrap();
    let theirs = v2::Builder::with_addresses(
        v2::Version::Two | v2::Command::Proxy,
        v2::Protocol::Stream,
        v2::IPv4::new([192, 168, 1, 9], [10, 0, 0, 1], 51234, 443),
    )
    .build()
    .unwrap();
    assert_eq!(ours, theirs);
    let ours = encode(&v6(A6, 1), &v6(B6, 65535)).unwrap();
    let theirs = v2::Builder::with_addresses(
        v2::Version::Two | v2::Command::Proxy,
        v2::Protocol::Stream,
        v2::IPv6::new(A6, B6, 1, 65535),
    )
    .build()
    .unwrap();
    assert_eq!(ours, theirs);
}

#[test]
fn binary_header_is_read_by_the_reference_parser() {
    let bytes = encode(&v4([203, 0, 113, 7], 40000), &v4([127, 0, 0, 1], 62801)).unwrap();
    let header = v2::Header::try_from(bytes.as_slice()).unwrap();
    assert_eq!(header.command, v2::Command::Proxy);
    assert_eq!(header.protocol, v2::Protocol::Stream);
    match header.addresses {
        v2::Addresses::IPv4(info) => {
            assert_eq!(info.source_address.octets(), [203, 0, 113, 7]);
            assert_eq!(info.destination_address.octets(), [127, 0, 0, 1]);
            assert_eq!(info.source_port, 40000);
            assert_eq!(info.destination_port, 62801);
        }
        other => panic!("unexpected addresses {:?}", other),
    }
    assert_eq!(header.len(), bytes.len());
    let bytes = encode(&v6(A6, 9), &v6(B6, 10)).unwrap();
    match HeaderResult::parse(bytes.as_slice()) {
        HeaderResult::V2(Ok(header)) => match header.addresses {
            v2::Addresses::IPv6(info) => {
                assert_eq!(info.source_address.octets(), A6);
                assert_eq!(info.destination_address.octets(), B6);
                assert_eq!(info.source_port, 9);
                assert_eq!(info.destination_port, 10);
            }
            other => panic!("unexpected addresses {:?}", other),
        },
        other => panic!("unexpected result {:?}", other),
    }
}

#[test]
fn reference_binary_header_with_records_is_read() {
    let bytes = v2::Builder::with_addresses(
        v2::Version::Two | v2::Command::Proxy,
        v2::Protocol::Datagram,
        v2::IPv6::new(A6, B6, 80, 443),
    )
    .write_tlv(v2::Type::ALPN, b"h2")
    .unwrap()
    .write_tlv(v2::Type::NoOp, b"")
    .unwrap()
    .write_tlv(v2::Type::Authority, b"example.org")
    .unwrap()
    .build()
    .unwrap();
    let (header, rest) = decode(&bytes).unwrap();
    assert_eq!(header.version, Version::Two);
    assert_eq!(header.command, Command::Proxy);
    assert_eq!(header.family, AddressFamily::Inet6);
    assert_eq!(header.transport, Transport::Datagram);
    assert_eq!(header.source, Some(v6(A6, 80)));
    assert_eq!(header.destination, Some(v6(B6, 443)));
    assert_eq!(
        header.extensions,
        vec![
            Extension { kind: 0x01, value: b"h2".to_vec() },
            Extension { kind: 0x04, value: vec![] },
            Extension { kind: 0x02, value: b"example.org".to_vec() },
        ]
    );
    assert!(rest.is_empty());
}

#[test]
fn reference_local_header_is_read() {
    let bytes = v2::Builder::new(v2::Version::Two | v2::Command::Local, v2::AddressFamily::Unspecified | v2::Protocol::Unspecified)
        .build()
        .unwrap();
    let (header, rest) = decode(&bytes).unwrap();
    assert_eq!(header.command, Command::Local);
    assert_eq!(header.source, None);
    assert_eq!(header.destination, None);
    assert!(rest.is_empty());
    assert_eq!(bytes, tls_terminator::binary::encode_local());
}

#[test]
fn text_line_is_read_by_the_reference_parser() {
    let line = encode_text(&v4([1, 20, 255, 0], 0), &v4([10, 0, 0, 200], 65535)).unwrap();
    let header = v1::Header::try_from(line.as_slice()).unwrap();
    assert_eq!(header.addresses, v1::Addresses::new_tcp4([1, 20, 255, 0], [10, 0, 0, 200], 0, 65535));
    assert_eq!(header.header.len(), line.len());
    let line = encode_text(&v6(A6, 1234), &v6(B6, 4321)).unwrap();
    let header = v1::Header::try_from(line.as_slice()).unwrap();
    assert_eq!(header.addresses, v1::Addresses::new_tcp6(A6, B6, 1234, 4321));
}

#[test]
fn reference_text_line_is_read() {
    let line = v1::Addresses::new_tcp4([1, 20, 255, 0], [10, 0, 0, 200], 0, 65535).to_string();
    let (header, rest) = decode(line.as_bytes()).unwrap();
    assert_eq!(header.version, Version::One);
    assert_eq!(header.source, Some(v4([1, 20, 255, 0], 0)));
    assert_eq!(header.destination, Some(v4([10, 0, 0, 200], 65535)));
    assert!(rest.is_empty());
    let line = v1::Addresses::new_tcp6(A6, B6, 1234, 4321).to_string();
    let (header, rest) = decode(line.as_bytes()).unwrap();
    assert_eq!(header.source, Some(v6(A6, 1234)));
    assert_eq!(header.destination, Some(v6(B6, 4321)));
    assert!(rest.is_empty());
    let line = v1::Addresses::Unknown.to_string();
    let (header, _) = decode(line.as_bytes()).unwrap();
    assert_eq!(header.family, AddressFamily::Unspecified);
    assert_eq!(header.source, None);
}

#[test]
fn both_parsers_agree_on_prefixes() {
    let bytes = encode(&v4([1, 2, 3, 4], 5), &v4([6, 7, 8, 9], 10)).unwrap();
    for k in 0..bytes.len() {
        let theirs = v2::Header::try_from(&bytes[..k]);
        assert!(matches!(theirs, Err(v2::ParseError::Incomplete(_)) | Err(v2::ParseError::Partial(_, _))), "prefix {}", k);
        assert_eq!(
            decode(&bytes[..k]).map(|r| r.0),
            Err(tls_terminator::header::ProtocolError::Truncated)
        );
    }
}

#[test]
fn reference_text_lines_of_many_addresses_are_read() {
    let mut seed: u64 = 0x2545f4914f6cdd1d;
    let mut next = move || {
        seed ^= seed << 13;
        seed ^= seed >> 7;
        seed ^= seed << 17;
        seed
    };
    for round in 0..5000u32 {
        let mut source = [0u8; 16];
        let mut destination = [0u8; 16];
        let mask = next();
        for k in 0..16 {
            source[k] = if (mask >> k) & 1 == 0 { 0 } else { next() as u8 };
            destination[k] = if (mask >> (16 + k)) & 1 == 0 { 0 } else { next() as u8 };
        }
        if round % 5 == 0 {
            source[..10].copy_from_slice(&[0; 10]);
            source[10] = 0xff;
            source[11] = 0xff;
        }
        let (p, q) = (next() as u16, next() as u16);
        let line = v1::Addresses::new_tcp6(source, destination, p, q).to_string();
        let (header, rest) = decode(line.as_bytes()).unwrap();
        assert_eq!(header.source, Some(v6(source, p)), "{}", line);
        assert_eq!(header.destination, Some(v6(destination, q)), "{}", line);
        assert!(rest.is_empty());
        let ours = encode_text(&v6(source, p), &v6(destination, q)).unwrap();
        let theirs = v1::Header::try_from(ours.as_slice()).unwrap();
        assert_eq!(theirs.addresses, v1::Addresses::new_tcp6(source, destination, p, q));
    }
}
