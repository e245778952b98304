use rama_haproxy::protocol::v1;
use tls_terminator::address::{IpAddress, SocketAddress};
use tls_terminator::display::{push_address, push_endpoint};

fn shown(addr: &SocketAddress) -> String {
    let mut out = b"<".to_vec();
    push_endpoint(&mut out, addr);
    out.push(b'>');
    String::from_utf8(out).unwrap()
}

fn shown_ip(ip: &IpAddress) -> String {
    let mut out = Vec::new();
    push_address(&mut out, ip);
    String::from_utf8(out).unwrap()
}

fn v6(groups: [u16; 8]) -> IpAddress {
    let mut octets = [0u8; 16];
    for (i, g) in groups.iter().enumerate() {
        octets[2 * i] = (g >> 8) as u8;
        octets[2 * i + 1] = (g & 0xff) as u8;
    }
    IpAddress::V6(octets)
}

#[test]
fn ipv6_addresses_are_shown_in_short_form() {
    let cases: [([u16; 8], &str); 20] = [
        ([0, 0, 0, 0, 0, 0, 0, 0], "::"),
        ([0, 0, 0, 0, 0, 0, 0, 1], "::1"),
        ([1, 0, 0, 0, 0, 0, 0, 0], "1::"),
        ([0x2001, 0xdb8, 0, 0, 0, 0, 0, 1], "2001:db8::1"),
        ([0x2001, 0xdb8, 0, 0, 1, 0, 0, 1], "2001:db8::1:0:0:1"),
        ([1, 0, 0, 2, 0, 0, 0, 3], "1:0:0:2::3"),
        ([1, 0, 0, 0, 2, 0, 0, 3], "1::2:0:0:3"),
        ([1, 0, 2, 3, 4, 5, 6, 7], "1:0:2:3:4:5:6:7"),
        ([0, 1, 2, 3, 4, 5, 6, 7], "0:1:2:3:4:5:6:7"),
        ([1, 2, 3, 4, 5, 6, 7, 0], "1:2:3:4:5:6:7:0"),
        ([1, 2, 3, 4, 5, 6, 0, 0], "1:2:3:4:5:6::"),
        ([0, 0, 3, 4, 5, 6, 7, 8], "::3:4:5:6:7:8"),
        ([0, 0, 3, 0, 0, 6, 0, 0], "::3:0:0:6:0:0"),
        ([1, 2, 3, 4, 5, 6, 7, 8], "1:2:3:4:5:6:7:8"),
        ([0xffff, 0xffff, 0xffff, 0xffff, 0xffff, 0xffff, 0xffff, 0xffff], "ffff:ffff:ffff:ffff:ffff:ffff:ffff:ffff"),
        ([0xabcd, 0xef, 0xa, 0x100, 0x10, 0x1000, 0xf00d, 0x1], "abcd:ef:a:100:10:1000:f00d:1"),
        ([0, 0, 0, 0, 0, 0xffff, 0x0102, 0x0304], "::ffff:1.2.3.4"),
        ([0, 0, 0, 0, 0, 0xffff, 0, 0], "::ffff:0.0.0.0"),
        ([0, 0, 0, 0, 0, 0xfffe, 0x0102, 0x0304], "::fffe:102:304"),
        ([0, 0, 0, 0, 0, 0, 0x0102, 0x0304], "::102:304"),
    ];
    for (groups, text) in cases {
        assert_eq!(shown_ip(&v6(groups)), text);
        let endpoint = SocketAddress { ip: v6(groups), port: 8080 };
        assert_eq!(shown(&endpoint), format!("<[{}]:8080>", text));
    }
}

#[test]
fn ipv4_endpoints_are_shown_in_dotted_form() {
    let endpoint = SocketAddress { ip: IpAddress::V4([0, 10, 100, 255]), port: 0 };
    assert_eq!(shown(&endpoint), "<0.10.100.255:0>");
    let endpoint = SocketAddress { ip: IpAddress::V4([255, 255, 255, 255]), port: 65535 };
    assert_eq!(shown(&endpoint), "<255.255.255.255:65535>");
    assert_eq!(shown_ip(&IpAddress::V4([1, 2, 3, 4])), "1.2.3.4");
}

#[test]
fn addresses_are_shown_as_the_standard_library_shows_them() {
    let mut seed: u64 = 0x9e3779b97f4a7c15;
    let mut next = move || {
        seed ^= seed << 13;
        seed ^= seed >> 7;
        seed ^= seed << 17;
        seed
    };
    for round in 0..20000u32 {
        let mut groups = [0u16; 8];
        let zero_mask = next();
        for (i, g) in groups.iter_mut().enumerate() {
            let r = next();
            *g = match (zero_mask >> (2 * i)) & 3 {
                0 | 1 => 0,
                2 => (r & 0xff) as u16,
                _ => r as u16,
            };
        }
        if round % 7 == 0 {
            groups[0] = 0;
            groups[1] = 0;
            groups[2] = 0;
            groups[3] = 0;
            groups[4] = 0;
            groups[5] = 0xffff;
        }
        let line = v1::Addresses::new_tcp6(groups, groups, 1, 2).to_string();
        let theirs = line.split(' ').nth(2).unwrap().to_string();
        assert_eq!(shown_ip(&v6(groups)), theirs);
        let octets = (next() as u32).to_be_bytes();
        let line = v1::Addresses::new_tcp4(octets, octets, 1, 2).to_string();
        let theirs = line.split(' ').nth(2).unwrap().to_string();
        assert_eq!(shown_ip(&IpAddress::V4(octets)), theirs);
    }
}

#[test]
fn different_endpoints_are_shown_differently() {
    let mut seen = std::collections::HashMap::new();
    for a in 0..3u16 {
        for b in 0..3u16 {
            for c in 0..3u16 {
                for d in 0..3u16 {
                    for port in [0u16, 1, 65535] {
                        let groups = [a, b, 0, c, 0, if d == 2 { 0xffff } else { d }, a, b];
                        let endpoint = SocketAddress { ip: v6(groups), port };
                        if let Some(other) = seen.insert(shown(&endpoint), endpoint) {
                            assert_eq!(other, endpoint);
                        }
                    }
                }
            }
        }
    }
    for a in [0u8, 1, 255] {
        for port in [0u16, 1, 65535] {
            let endpoint = SocketAddress { ip: IpAddress::V4([a, 0, a, 1]), port };
            if let Some(other) = seen.insert(shown(&endpoint), endpoint) {
                assert_eq!(other, endpoint);
            }
        }
    }
}
