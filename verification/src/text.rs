//! The text form of the forwarding header.
//!
//! A text header is one line of at most 107 bytes that ends in CR LF:
//! the word PROXY, then either UNKNOWN, or TCP4 or TCP6 followed by the
//! source address, the destination address, the source port and the
//! destination port, each set off by a single space.

use vstd::prelude::*;
use vstd::slice::{slice_subrange, slice_to_vec};
use crate::address::{be16, lemma_v4_from_octets, lemma_v6_from_octets, IpAddress, SocketAddress};
use crate::bytes::{agrees, agrees_with, find_byte, find_pair, first_index, first_pair, has_word};
use crate::bytes::{is_first, is_first_pair, lemma_first_index, lemma_first_index_is_first};
use crate::bytes::{lemma_first_pair, starts_with};
use crate::header::{AddressFamily, Command, EncodeError, ForwardHeader, HeaderView};
use crate::header::{ProtocolError, Transport, Version};

verus! {

/// The longest line, CR LF included.
pub const MAX_LINE_LEN: usize = 107;

pub const CR: u8 = 13;

pub const LF: u8 = 10;

pub const SPACE: u8 = 32;

pub const DOT: u8 = 46;

pub const COLON: u8 = 58;

/// The bytes of `PROXY` and the space behind it.
pub open spec fn proxy_word() -> Seq<u8> {
    seq![80u8, 82u8, 79u8, 88u8, 89u8, 32u8]
}

/// The bytes of `UNKNOWN`.
pub open spec fn unknown_word() -> Seq<u8> {
    seq![85u8, 78u8, 75u8, 78u8, 79u8, 87u8, 78u8]
}

/// The bytes of `TCP4` and the space behind it.
pub open spec fn tcp4_word() -> Seq<u8> {
    seq![84u8, 67u8, 80u8, 52u8, 32u8]
}

/// The bytes of `TCP6` and the space behind it.
pub open spec fn tcp6_word() -> Seq<u8> {
    seq![84u8, 67u8, 80u8, 54u8, 32u8]
}

pub open spec fn is_digit(b: u8) -> bool {
    48 <= b <= 57
}

pub open spec fn is_hex(b: u8) -> bool {
    is_digit(b) || 97 <= b <= 102 || 65 <= b <= 70
}

/// The value of a hexadecimal digit, in either case.
pub open spec fn hex_digit(b: u8) -> int {
    if is_digit(b) {
        b - 48
    } else if b >= 97 {
        b - 87
    } else {
        b - 55
    }
}

/// The number that a string of decimal digits spells.
pub open spec fn decimal_value(s: Seq<u8>) -> int
    decreases s.len(),
{
    if s.len() == 0 {
        0
    } else {
        decimal_value(s.drop_last()) * 10 + (s.last() - 48)
    }
}

/// The number that a string of hexadecimal digits spells.
pub open spec fn hex_value(s: Seq<u8>) -> int
    decreases s.len(),
{
    if s.len() == 0 {
        0
    } else {
        hex_value(s.drop_last()) * 16 + hex_digit(s.last())
    }
}

/// The number up to `max` that `s` spells in decimal: one to five digits,
/// the first of them a zero only where it is the only one.
pub open spec fn parse_decimal(s: Seq<u8>, max: int) -> Option<int> {
    if 1 <= s.len() <= 5 && (forall|i: int| 0 <= i < s.len() ==> is_digit(s[i])) && (s.len() > 1
        ==> s[0] != 48) && decimal_value(s) <= max {
        Some(decimal_value(s))
    } else {
        None
    }
}

/// The sixteen-bit group that `s` spells: one to four hexadecimal digits.
pub open spec fn parse_group(s: Seq<u8>) -> Option<u16> {
    if 1 <= s.len() <= 4 && (forall|i: int| 0 <= i < s.len() ==> is_hex(s[i])) {
        Some(hex_value(s) as u16)
    } else {
        None
    }
}

/// The IPv4 address that `s` spells: four decimal numbers up to 255 with a
/// dot between each two.
#[verifier::opaque]
pub open spec fn parse_ipv4(s: Seq<u8>) -> Option<IpAddress> {
    let i1 = first_index(s, DOT);
    let r1 = s.skip(i1 + 1);
    let i2 = first_index(r1, DOT);
    let r2 = r1.skip(i2 + 1);
    let i3 = first_index(r2, DOT);
    let r3 = r2.skip(i3 + 1);
    if i1 < s.len() && i2 < r1.len() && i3 < r2.len() {
        match (
            parse_decimal(s.take(i1), 255),
            parse_decimal(r1.take(i2), 255),
            parse_decimal(r2.take(i3), 255),
            parse_decimal(r3, 255),
        ) {
            (Some(a), Some(b), Some(c), Some(d)) => Some(
                IpAddress::V4([a as u8, b as u8, c as u8, d as u8]),
            ),
            _ => None,
        }
    } else {
        None
    }
}

/// The groups that `s` spells: one or more, with a colon between each two.
pub open spec fn parse_groups(s: Seq<u8>) -> Option<Seq<u16>>
    decreases s.len(),
{
    let i = first_index(s, COLON);
    if 0 <= i < s.len() {
        match (parse_group(s.take(i)), parse_groups(s.skip(i + 1))) {
            (Some(g), Some(rest)) => Some(seq![g] + rest),
            _ => None,
        }
    } else {
        match parse_group(s) {
            Some(g) => Some(seq![g]),
            None => None,
        }
    }
}

/// The groups that `s` spells, none where `s` is empty.
pub open spec fn parse_groups_or_none(s: Seq<u8>) -> Option<Seq<u16>> {
    if s.len() == 0 {
        Some(Seq::empty())
    } else {
        parse_groups(s)
    }
}

/// The IPv6 address with the eight groups `g`.
pub open spec fn v6_of_groups(g: Seq<u16>) -> IpAddress {
    IpAddress::V6(
        [
            (g[0] / 256) as u8,
            (g[0] % 256) as u8,
            (g[1] / 256) as u8,
            (g[1] % 256) as u8,
            (g[2] / 256) as u8,
            (g[2] % 256) as u8,
            (g[3] / 256) as u8,
            (g[3] % 256) as u8,
            (g[4] / 256) as u8,
            (g[4] % 256) as u8,
            (g[5] / 256) as u8,
            (g[5] % 256) as u8,
            (g[6] / 256) as u8,
            (g[6] % 256) as u8,
            (g[7] / 256) as u8,
            (g[7] % 256) as u8,
        ],
    )
}

/// The IPv6 address that `s` spells in groups alone: eight groups, or
/// fewer around one double colon that stands for the groups of zero left
/// out.
#[verifier::opaque]
pub open spec fn parse_ipv6_plain(s: Seq<u8>) -> Option<IpAddress> {
    let i = first_pair(s, COLON);
    if 0 <= i < s.len() {
        match (parse_groups_or_none(s.take(i)), parse_groups_or_none(s.skip(i + 2))) {
            (Some(left), Some(right)) => if left.len() + right.len() <= 7 {
                Some(
                    v6_of_groups(
                        left + Seq::new((8 - left.len() - right.len()) as nat, |k: int| 0u16) + right,
                    ),
                )
            } else {
                None
            },
            _ => None,
        }
    } else {
        match parse_groups(s) {
            Some(g) => if g.len() == 8 {
                Some(v6_of_groups(g))
            } else {
                None
            },
            None => None,
        }
    }
}

/// Tells whether `i` is where the last field of `s` starts: behind its
/// last colon, or at the start where it has none.
pub open spec fn is_tail_start(s: Seq<u8>, i: int) -> bool {
    &&& 0 <= i <= s.len()
    &&& i > 0 ==> s[i - 1] == COLON
    &&& forall|j: int| i <= j < s.len() ==> s[j] != COLON
}

/// Where the last field of `s` starts.
pub open spec fn tail_start(s: Seq<u8>) -> int {
    choose|i: int| is_tail_start(s, i)
}

/// The two groups that the four octets of an IPv4 address make, as text.
pub open spec fn dotted_as_groups(ip: IpAddress) -> Seq<u8> {
    hex_text(be16(ip.octets()[0], ip.octets()[1])) + seq![COLON] + hex_text(
        be16(ip.octets()[2], ip.octets()[3]),
    )
}

/// The IPv6 address that `s` spells: eight groups, or fewer around one
/// double colon that stands for the groups of zero left out. The last two
/// groups may be written as an IPv4 address in dotted form, which stands
/// for the two groups that its octets make.
#[verifier::opaque]
pub open spec fn parse_ipv6(s: Seq<u8>) -> Option<IpAddress> {
    let k = tail_start(s);
    let tail = s.skip(k);
    if first_index(tail, DOT) < tail.len() {
        match parse_ipv4(tail) {
            Some(v4) => if k > 0 {
                parse_ipv6_plain(s.take(k) + dotted_as_groups(v4))
            } else {
                None
            },
            None => None,
        }
    } else {
        parse_ipv6_plain(s)
    }
}

/// The address of the given family that `s` spells.
pub open spec fn parse_ip(s: Seq<u8>, v4: bool) -> Option<IpAddress> {
    if v4 {
        parse_ipv4(s)
    } else {
        parse_ipv6(s)
    }
}

/// The header of a line that announces no addresses.
pub open spec fn unknown_header() -> HeaderView {
    HeaderView {
        version: Version::One,
        command: Command::Proxy,
        family: AddressFamily::Unspecified,
        transport: Transport::Unspecified,
        source: None,
        destination: None,
        extensions: Seq::empty(),
    }
}

/// The header of a line that relays a TCP connection.
pub open spec fn tcp_header(source: SocketAddress, destination: SocketAddress) -> HeaderView {
    HeaderView {
        version: Version::One,
        command: Command::Proxy,
        family: if source.ip is V4 {
            AddressFamily::Inet
        } else {
            AddressFamily::Inet6
        },
        transport: Transport::Stream,
        source: Some(source),
        destination: Some(destination),
        extensions: Seq::empty(),
    }
}

/// The header that the four fields in `s` spell for the given family:
/// source address, destination address, source port, destination port.
#[verifier::opaque]
pub open spec fn parse_fields(s: Seq<u8>, v4: bool) -> Option<HeaderView> {
    let i1 = first_index(s, SPACE);
    let r1 = s.skip(i1 + 1);
    let i2 = first_index(r1, SPACE);
    let r2 = r1.skip(i2 + 1);
    let i3 = first_index(r2, SPACE);
    let r3 = r2.skip(i3 + 1);
    if i1 < s.len() && i2 < r1.len() && i3 < r2.len() {
        match (
            parse_ip(s.take(i1), v4),
            parse_ip(r1.take(i2), v4),
            parse_decimal(r2.take(i3), 65535),
            parse_decimal(r3, 65535),
        ) {
            (Some(a), Some(b), Some(p), Some(q)) => Some(
                tcp_header(
                    SocketAddress { ip: a, port: p as u16 },
                    SocketAddress { ip: b, port: q as u16 },
                ),
            ),
            _ => None,
        }
    } else {
        None
    }
}

/// The header that a line spells, given what stands between `PROXY ` and
/// CR LF. After UNKNOWN anything may follow a space and is not read.
pub open spec fn parse_line(body: Seq<u8>) -> Option<HeaderView> {
    if starts_with(body, unknown_word()) && (body.len() == 7 || body[7] == SPACE) {
        Some(unknown_header())
    } else if starts_with(body, tcp4_word()) {
        parse_fields(body.skip(5), true)
    } else if starts_with(body, tcp6_word()) {
        parse_fields(body.skip(5), false)
    } else {
        None
    }
}

/// The part of a buffer in which the CR of a line must stand.
pub open spec fn line_window(buf: Seq<u8>) -> Seq<u8> {
    if buf.len() < 106 {
        buf
    } else {
        buf.take(106)
    }
}

/// What a buffer that starts like a text header decodes to: the header and
/// the number of bytes it takes, or the reason there is none.
///
/// The line ends at the first CR, which must stand among the first 106
/// bytes and have LF behind it.
#[verifier::opaque]
pub open spec fn decode_text_spec(buf: Seq<u8>) -> Result<(HeaderView, int), ProtocolError> {
    let cr = first_index(line_window(buf), CR);
    if !agrees(buf, proxy_word()) {
        Err(ProtocolError::Malformed)
    } else if cr >= line_window(buf).len() {
        if buf.len() >= 106 {
            Err(ProtocolError::Malformed)
        } else {
            Err(ProtocolError::Truncated)
        }
    } else if cr + 1 >= buf.len() {
        Err(ProtocolError::Truncated)
    } else if buf[cr + 1] != LF || cr < 6 {
        Err(ProtocolError::Malformed)
    } else {
        match parse_line(buf.subrange(6, cr)) {
            Some(header) => Ok((header, cr + 2)),
            None => Err(ProtocolError::Malformed),
        }
    }
}

/// Reads the decimal number up to `max` that stands in `buf` from `from` up
/// to `to`.
fn read_decimal(buf: &[u8], from: usize, to: usize, max: u32) -> (r: Option<u32>)
    requires
        from <= to <= buf@.len(),
        max <= 65535,
    ensures
        match r {
            Some(v) => parse_decimal(buf@.subrange(from as int, to as int), max as int) == Some(v as int),
            None => parse_decimal(buf@.subrange(from as int, to as int), max as int) is None,
        },
{
    let ghost s = buf@.subrange(from as int, to as int);
    let n = to - from;
    if n == 0 || n > 5 {
        return None;
    }
    if n > 1 && buf[from] == 48 {
        assert(s[0] == 48);
        return None;
    }
    let mut acc: u32 = 0;
    let mut i: usize = from;
    assert(s.take(0) =~= Seq::<u8>::empty());
    while i < to
        invariant
            from <= i <= to <= buf@.len(),
            to - from <= 5,
            s == buf@.subrange(from as int, to as int),
            forall|j: int| 0 <= j < i - from ==> is_digit(s[j]),
            acc == decimal_value(s.take(i - from)),
            i - from == 0 ==> acc == 0,
            i - from == 1 ==> acc <= 9,
            i - from == 2 ==> acc <= 99,
            i - from == 3 ==> acc <= 999,
            i - from == 4 ==> acc <= 9999,
            i - from == 5 ==> acc <= 99999,
        decreases to - i,
    {
        let b = buf[i];
        if b < 48 || b > 57 {
            assert(!is_digit(s[i - from]));
            return None;
        }
        proof {
            let t = s.take(i - from + 1);
            assert(t.drop_last() =~= s.take(i - from));
            assert(t.last() == b);
        }
        acc = acc * 10 + (b - 48) as u32;
        i += 1;
    }
    assert(s.take(to - from) =~= s);
    if acc > max {
        return None;
    }
    Some(acc)
}

/// Reads the group that stands in `buf` from `from` up to `to`.
fn read_group(buf: &[u8], from: usize, to: usize) -> (r: Option<u16>)
    requires
        from <= to <= buf@.len(),
    ensures
        r == parse_group(buf@.subrange(from as int, to as int)),
{
    let ghost s = buf@.subrange(from as int, to as int);
    let n = to - from;
    if n == 0 || n > 4 {
        return None;
    }
    let mut acc: u32 = 0;
    let mut i: usize = from;
    assert(s.take(0) =~= Seq::<u8>::empty());
    while i < to
        invariant
            from <= i <= to <= buf@.len(),
            to - from <= 4,
            s == buf@.subrange(from as int, to as int),
            forall|j: int| 0 <= j < i - from ==> is_hex(s[j]),
            acc == hex_value(s.take(i - from)),
            i - from == 0 ==> acc == 0,
            i - from == 1 ==> acc <= 0xF,
            i - from == 2 ==> acc <= 0xFF,
            i - from == 3 ==> acc <= 0xFFF,
            i - from == 4 ==> acc <= 0xFFFF,
        decreases to - i,
    {
        let b = buf[i];
        let d: u32 = if 48 <= b && b <= 57 {
            (b - 48) as u32
        } else if 97 <= b && b <= 102 {
            (b - 87) as u32
        } else if 65 <= b && b <= 70 {
            (b - 55) as u32
        } else {
            assert(!is_hex(s[i - from]));
            return None;
        };
        proof {
            let t = s.take(i - from + 1);
            assert(t.drop_last() =~= s.take(i - from));
            assert(t.last() == b);
            assert(d == hex_digit(b));
        }
        acc = acc * 16 + d;
        i += 1;
    }
    assert(s.take(to - from) =~= s);
    Some(acc as u16)
}

/// Reads the IPv4 address that stands in `buf` from `from` up to `to`.
fn read_ipv4(buf: &[u8], from: usize, to: usize) -> (r: Option<IpAddress>)
    requires
        from <= to <= buf@.len(),
    ensures
        r == parse_ipv4(buf@.subrange(from as int, to as int)),
{
    proof {
        reveal(parse_ipv4);
    }
    let ghost s = buf@.subrange(from as int, to as int);
    let k1 = find_byte(buf, from, to, DOT);
    if k1 >= to {
        return None;
    }
    let ghost r1 = s.skip(k1 - from + 1);
    assert(r1 =~= buf@.subrange(k1 + 1, to as int));
    let k2 = find_byte(buf, k1 + 1, to, DOT);
    if k2 >= to {
        return None;
    }
    let ghost r2 = r1.skip(k2 - k1);
    assert(r2 =~= buf@.subrange(k2 + 1, to as int));
    let k3 = find_byte(buf, k2 + 1, to, DOT);
    if k3 >= to {
        return None;
    }
    let ghost r3 = r2.skip(k3 - k2);
    assert(r3 =~= buf@.subrange(k3 + 1, to as int));
    assert(s.take(k1 - from) =~= buf@.subrange(from as int, k1 as int));
    assert(r1.take(k2 - k1 - 1) =~= buf@.subrange(k1 + 1, k2 as int));
    assert(r2.take(k3 - k2 - 1) =~= buf@.subrange(k2 + 1, k3 as int));
    let a = read_decimal(buf, from, k1, 255);
    let b = read_decimal(buf, k1 + 1, k2, 255);
    let c = read_decimal(buf, k2 + 1, k3, 255);
    let d = read_decimal(buf, k3 + 1, to, 255);
    match (a, b, c, d) {
        (Some(a), Some(b), Some(c), Some(d)) => {
            let octets = [a as u8, b as u8, c as u8, d as u8];
            assert(octets@ =~= parse_ipv4(s)->Some_0->V4_0@);
            Some(IpAddress::V4(octets))
        },
        _ => None,
    }
}

/// Reads the groups that stand in `buf` from `from` up to `to`, or none
/// where more than eight stand there.
fn read_groups(buf: &[u8], from: usize, to: usize) -> (r: Option<Vec<u16>>)
    requires
        from <= to <= buf@.len(),
    ensures
        match r {
            Some(v) => parse_groups(buf@.subrange(from as int, to as int)) == Some(v@) && v@.len() <= 8,
            None => parse_groups(buf@.subrange(from as int, to as int)) matches Some(g) ==> g.len() > 8,
        },
{
    let ghost s = buf@.subrange(from as int, to as int);
    let mut out: Vec<u16> = Vec::new();
    let mut pos: usize = from;
    proof {
        assert(s.skip(0) =~= s);
        assert(forall|rest: Seq<u16>| Seq::<u16>::empty() + rest =~= rest);
    }
    loop
        invariant
            from <= pos <= to <= buf@.len(),
            s == buf@.subrange(from as int, to as int),
            out@.len() <= 8,
            parse_groups(s.skip(pos - from)) is None ==> parse_groups(s) is None,
            parse_groups(s.skip(pos - from)) matches Some(rest) ==> parse_groups(s) == Some(
                out@ + rest,
            ),
        decreases to - pos,
    {
        let ghost tail = s.skip(pos - from);
        assert(tail =~= buf@.subrange(pos as int, to as int));
        let k = find_byte(buf, pos, to, COLON);
        assert(tail.take(k - pos) =~= buf@.subrange(pos as int, k as int));
        let group = read_group(buf, pos, if k < to { k } else { to });
        if out.len() == 8 {
            proof {
                if parse_groups(tail) is Some {
                    assert(parse_groups(tail)->Some_0.len() >= 1);
                }
            }
            return None;
        }
        match group {
            None => {
                assert(tail.take(tail.len() as int) =~= tail);
                return None;
            },
            Some(g) => {
                if k >= to {
                    proof {
                        assert(tail.take(tail.len() as int) =~= tail);
                        assert(parse_groups(tail) == Some(seq![g]));
                        assert(out@.push(g) =~= out@ + seq![g]);
                    }
                    out.push(g);
                    return Some(out);
                }
                proof {
                    assert(tail.skip(k - pos + 1) =~= s.skip(k + 1 - from));
                    let ghost before = out@;
                    assert(before.push(g) =~= before + seq![g]);
                    assert forall|rest: Seq<u16>|
                        before + (seq![g] + rest) == #[trigger] (before + seq![g] + rest) by {
                        assert(before + (seq![g] + rest) =~= before + seq![g] + rest);
                    }
                }
                out.push(g);
                pos = k + 1;
            },
        }
    }
}

/// Reads the groups that stand in `buf` from `from` up to `to`; none where
/// nothing stands there.
fn read_groups_or_none(buf: &[u8], from: usize, to: usize) -> (r: Option<Vec<u16>>)
    requires
        from <= to <= buf@.len(),
    ensures
        match r {
            Some(v) => parse_groups_or_none(buf@.subrange(from as int, to as int)) == Some(v@)
                && v@.len() <= 8,
            None => parse_groups_or_none(buf@.subrange(from as int, to as int)) matches Some(g)
                ==> g.len() > 8,
        },
{
    if from == to {
        let v: Vec<u16> = Vec::new();
        assert(v@ =~= Seq::<u16>::empty());
        Some(v)
    } else {
        read_groups(buf, from, to)
    }
}

/// Builds the address with the eight groups of `g`.
fn address_of_groups(g: &Vec<u16>) -> (ip: IpAddress)
    requires
        g@.len() == 8,
    ensures
        ip == v6_of_groups(g@),
{
    let octets = [
        (g[0] / 256) as u8,
        (g[0] % 256) as u8,
        (g[1] / 256) as u8,
        (g[1] % 256) as u8,
        (g[2] / 256) as u8,
        (g[2] % 256) as u8,
        (g[3] / 256) as u8,
        (g[3] % 256) as u8,
        (g[4] / 256) as u8,
        (g[4] % 256) as u8,
        (g[5] / 256) as u8,
        (g[5] % 256) as u8,
        (g[6] / 256) as u8,
        (g[6] % 256) as u8,
        (g[7] / 256) as u8,
        (g[7] % 256) as u8,
    ];
    assert(octets@ =~= v6_of_groups(g@)->V6_0@);
    IpAddress::V6(octets)
}

/// Reads the IPv6 address that stands in groups alone in `buf` from `from`
/// up to `to`.
fn read_ipv6_plain(buf: &[u8], from: usize, to: usize) -> (r: Option<IpAddress>)
    requires
        from <= to <= buf@.len(),
    ensures
        r == parse_ipv6_plain(buf@.subrange(from as int, to as int)),
{
    proof {
        reveal(parse_ipv6_plain);
    }
    let ghost s = buf@.subrange(from as int, to as int);
    let k = find_pair(buf, from, to, COLON);
    if k >= to {
        return match read_groups(buf, from, to) {
            Some(g) => if g.len() == 8 {
                Some(address_of_groups(&g))
            } else {
                None
            },
            None => None,
        };
    }
    assert(s.take(k - from) =~= buf@.subrange(from as int, k as int));
    assert(s.skip(k - from + 2) =~= buf@.subrange(k + 2, to as int));
    let left = read_groups_or_none(buf, from, k);
    let right = read_groups_or_none(buf, k + 2, to);
    match (left, right) {
        (Some(left), Some(right)) => {
            if left.len() + right.len() > 7 {
                return None;
            }
            let gap = 8 - left.len() - right.len();
            let ghost want = left@ + Seq::new(gap as nat, |k: int| 0u16) + right@;
            let mut all: Vec<u16> = Vec::new();
            let mut i: usize = 0;
            while i < left.len()
                invariant
                    i <= left@.len(),
                    all@ == left@.take(i as int),
                decreases left@.len() - i,
            {
                all.push(left[i]);
                assert(all@ =~= left@.take(i + 1));
                i += 1;
            }
            assert(left@.take(left@.len() as int) =~= left@);
            i = 0;
            while i < gap
                invariant
                    i <= gap,
                    all@ == left@ + Seq::new(i as nat, |k: int| 0u16),
                decreases gap - i,
            {
                all.push(0);
                assert(all@ =~= left@ + Seq::new((i + 1) as nat, |k: int| 0u16));
                i += 1;
            }
            i = 0;
            while i < right.len()
                invariant
                    i <= right@.len(),
                    all@ == left@ + Seq::new(gap as nat, |k: int| 0u16) + right@.take(i as int),
                decreases right@.len() - i,
            {
                all.push(right[i]);
                assert(all@ =~= left@ + Seq::new(gap as nat, |k: int| 0u16) + right@.take(i + 1));
                i += 1;
            }
            assert(right@.take(right@.len() as int) =~= right@);
            assert(all@ == want);
            Some(address_of_groups(&all))
        },
        _ => None,
    }
}

/// There is only one place where the last field starts.
pub proof fn lemma_tail_start(s: Seq<u8>, k: int)
    requires
        is_tail_start(s, k),
    ensures
        tail_start(s) == k,
{
    let i = tail_start(s);
    assert(is_tail_start(s, i));
    if i < k {
        assert(s[k - 1] == COLON);
    } else if k < i {
        assert(s[i - 1] == COLON);
    }
}

/// Every text has a place where its last field starts.
proof fn lemma_tail_exists(s: Seq<u8>, k: int)
    requires
        0 <= k <= s.len(),
        forall|j: int| k <= j < s.len() ==> s[j] != COLON,
    ensures
        is_tail_start(s, tail_start(s)),
    decreases k,
{
    if k == 0 || s[k - 1] == COLON {
        assert(is_tail_start(s, k));
    } else {
        lemma_tail_exists(s, k - 1);
    }
}

/// A text without a dot is read in groups alone.
pub proof fn lemma_plain_when_undotted(s: Seq<u8>)
    requires
        forall|i: int| 0 <= i < s.len() ==> s[i] != DOT,
    ensures
        parse_ipv6(s) == parse_ipv6_plain(s),
{
    reveal(parse_ipv6);
    lemma_tail_exists(s, s.len() as int);
    let k = tail_start(s);
    let tail = s.skip(k);
    assert(is_first(tail, DOT, tail.len() as int)) by {
        assert forall|j: int| 0 <= j < tail.len() implies tail[j] != DOT by {
            assert(tail[j] == s[k + j]);
        }
    }
    lemma_first_index(tail, DOT, tail.len() as int);
}

/// Finds where the last field starts in `buf` from `from` up to `to`.
fn find_tail_start(buf: &[u8], from: usize, to: usize) -> (k: usize)
    requires
        from <= to <= buf@.len(),
    ensures
        from <= k <= to,
        k - from == tail_start(buf@.subrange(from as int, to as int)),
{
    let ghost s = buf@.subrange(from as int, to as int);
    let mut k: usize = to;
    while k > from && buf[k - 1] != COLON
        invariant
            from <= k <= to <= buf@.len(),
            forall|j: int| k <= j < to ==> buf@[j] != COLON,
        decreases k,
    {
        k -= 1;
    }
    proof {
        assert(is_tail_start(s, k - from)) by {
            assert forall|j: int| k - from <= j < s.len() implies s[j] != COLON by {
                assert(s[j] == buf@[from + j]);
            }
            if k > from {
                assert(s[k - from - 1] == buf@[k - 1]);
            }
        }
        lemma_tail_start(s, k - from);
    }
    k
}

/// Reads the IPv6 address that stands in `buf` from `from` up to `to`.
fn read_ipv6(buf: &[u8], from: usize, to: usize) -> (r: Option<IpAddress>)
    requires
        from <= to <= buf@.len(),
    ensures
        r == parse_ipv6(buf@.subrange(from as int, to as int)),
{
    proof {
        reveal(parse_ipv6);
    }
    let ghost s = buf@.subrange(from as int, to as int);
    let k = find_tail_start(buf, from, to);
    let ghost tail = s.skip(k - from);
    assert(tail =~= buf@.subrange(k as int, to as int));
    let d = find_byte(buf, k, to, DOT);
    if d >= to {
        return read_ipv6_plain(buf, from, to);
    }
    match read_ipv4(buf, k, to) {
        Some(IpAddress::V4(a)) => {
            if k == from {
                return None;
            }
            let mut text = slice_to_vec(slice_subrange(buf, from, k));
            assert(text@ =~= s.take(k - from));
            push_hex(&mut text, (a[0] as u16) * 256 + a[1] as u16);
            text.push(COLON);
            push_hex(&mut text, (a[2] as u16) * 256 + a[3] as u16);
            assert(text@ =~= s.take(k - from) + dotted_as_groups(IpAddress::V4(a)));
            assert(text@.subrange(0, text@.len() as int) =~= text@);
            read_ipv6_plain(text.as_slice(), 0, text.len())
        },
        Some(IpAddress::V6(_)) => {
            proof {
                lemma_parsed_family(tail, true);
            }
            None
        },
        None => None,
    }
}

/// Reads the address of the given family that stands in `buf` from `from`
/// up to `to`.
fn read_ip(buf: &[u8], from: usize, to: usize, v4: bool) -> (r: Option<IpAddress>)
    requires
        from <= to <= buf@.len(),
    ensures
        r == parse_ip(buf@.subrange(from as int, to as int), v4),
{
    if v4 {
        read_ipv4(buf, from, to)
    } else {
        read_ipv6(buf, from, to)
    }
}

/// Reads the four fields that stand in `buf` from `from` up to `to`.
fn read_fields(buf: &[u8], from: usize, to: usize, v4: bool) -> (r: Option<ForwardHeader>)
    requires
        from <= to <= buf@.len(),
    ensures
        match r {
            Some(h) => parse_fields(buf@.subrange(from as int, to as int), v4) == Some(h@) && h@.valid(),
            None => parse_fields(buf@.subrange(from as int, to as int), v4) is None,
        },
{
    proof {
        reveal(parse_fields);
    }
    let ghost s = buf@.subrange(from as int, to as int);
    let k1 = find_byte(buf, from, to, SPACE);
    if k1 >= to {
        return None;
    }
    let ghost r1 = s.skip(k1 - from + 1);
    assert(r1 =~= buf@.subrange(k1 + 1, to as int));
    let k2 = find_byte(buf, k1 + 1, to, SPACE);
    if k2 >= to {
        return None;
    }
    let ghost r2 = r1.skip(k2 - k1);
    assert(r2 =~= buf@.subrange(k2 + 1, to as int));
    let k3 = find_byte(buf, k2 + 1, to, SPACE);
    if k3 >= to {
        return None;
    }
    let ghost r3 = r2.skip(k3 - k2);
    assert(r3 =~= buf@.subrange(k3 + 1, to as int));
    assert(s.take(k1 - from) =~= buf@.subrange(from as int, k1 as int));
    assert(r1.take(k2 - k1 - 1) =~= buf@.subrange(k1 + 1, k2 as int));
    assert(r2.take(k3 - k2 - 1) =~= buf@.subrange(k2 + 1, k3 as int));
    let a = read_ip(buf, from, k1, v4);
    let b = read_ip(buf, k1 + 1, k2, v4);
    let p = read_decimal(buf, k2 + 1, k3, 65535);
    let q = read_decimal(buf, k3 + 1, to, 65535);
    match (a, b, p, q) {
        (Some(a), Some(b), Some(p), Some(q)) => {
            let header = ForwardHeader {
                version: Version::One,
                command: Command::Proxy,
                family: if v4 {
                    AddressFamily::Inet
                } else {
                    AddressFamily::Inet6
                },
                transport: Transport::Stream,
                source: Some(SocketAddress { ip: a, port: p as u16 }),
                destination: Some(SocketAddress { ip: b, port: q as u16 }),
                extensions: Vec::new(),
            };
            proof {
                lemma_parsed_family(buf@.subrange(from as int, k1 as int), v4);
                lemma_parsed_family(buf@.subrange(k1 + 1, k2 as int), v4);
                assert(header@.extensions =~= Seq::empty());
            }
            Some(header)
        },
        _ => None,
    }
}

/// A parsed address belongs to the family it was parsed for.
pub proof fn lemma_parsed_family(s: Seq<u8>, v4: bool)
    ensures
        parse_ip(s, v4) matches Some(ip) ==> (ip is V4) == v4,
{
    reveal(parse_ipv4);
    reveal(parse_ipv6);
    reveal(parse_ipv6_plain);
}

/// Decodes the text header at the start of `buf`.
///
/// Returns the header and the number of bytes it takes, `Truncated` where
/// `buf` ends before the line does, and `Malformed` where no continuation of
/// `buf` is a header: the line does not open with `PROXY `, no CR stands
/// among the first 106 bytes, the CR has no LF behind it, or what stands
/// between is neither UNKNOWN nor the four fields of TCP4 or TCP6.
pub fn decode_text(buf: &[u8]) -> (r: Result<(ForwardHeader, usize), ProtocolError>)
    ensures
        match r {
            Ok((header, taken)) => {
                &&& decode_text_spec(buf@) == Ok::<(HeaderView, int), ProtocolError>((header@, taken as int))
                &&& header@.valid()
                &&& taken <= buf@.len()
            },
            Err(e) => decode_text_spec(buf@) == Err::<(HeaderView, int), ProtocolError>(e),
        },
{
    proof {
        reveal(decode_text_spec);
    }
    let proxy = [80u8, 82u8, 79u8, 88u8, 89u8, 32u8];
    assert(proxy@ =~= proxy_word());
    if !agrees_with(buf, proxy.as_slice()) {
        return Err(ProtocolError::Malformed);
    }
    let window: usize = if buf.len() < 106 {
        buf.len()
    } else {
        106
    };
    assert(buf@.subrange(0, window as int) =~= line_window(buf@));
    let cr = find_byte(buf, 0, window, CR);
    if cr >= window {
        if buf.len() >= 106 {
            return Err(ProtocolError::Malformed);
        }
        return Err(ProtocolError::Truncated);
    }
    if cr + 1 >= buf.len() {
        return Err(ProtocolError::Truncated);
    }
    if buf[cr + 1] != LF || cr < 6 {
        return Err(ProtocolError::Malformed);
    }
    let ghost body = buf@.subrange(6, cr as int);
    let unknown = [85u8, 78u8, 75u8, 78u8, 79u8, 87u8, 78u8];
    let tcp4 = [84u8, 67u8, 80u8, 52u8, 32u8];
    let tcp6 = [84u8, 67u8, 80u8, 54u8, 32u8];
    assert(unknown@ =~= unknown_word());
    assert(tcp4@ =~= tcp4_word());
    assert(tcp6@ =~= tcp6_word());
    if has_word(buf, 6, cr, unknown.as_slice()) && (cr - 6 == 7 || buf[13] == SPACE) {
        let header = ForwardHeader {
            version: Version::One,
            command: Command::Proxy,
            family: AddressFamily::Unspecified,
            transport: Transport::Unspecified,
            source: None,
            destination: None,
            extensions: Vec::new(),
        };
        assert(header@.extensions =~= Seq::empty());
        assert(header@ == unknown_header());
        return Ok((header, cr + 2));
    }
    let v4 = if has_word(buf, 6, cr, tcp4.as_slice()) {
        true
    } else if has_word(buf, 6, cr, tcp6.as_slice()) {
        false
    } else {
        return Err(ProtocolError::Malformed);
    };
    assert(body.skip(5) =~= buf@.subrange(11, cr as int));
    assert(!starts_with(body, tcp4_word()) || !starts_with(body, tcp6_word())) by {
        if starts_with(body, tcp4_word()) && starts_with(body, tcp6_word()) {
            assert(body.take(5)[3] == 52u8);
            assert(body.take(5)[3] == 54u8);
        }
    }
    match read_fields(buf, 11, cr, v4) {
        Some(header) => Ok((header, cr + 2)),
        None => Err(ProtocolError::Malformed),
    }
}

/// The digits of `n` in decimal, without leading zeros.
pub open spec fn decimal_text(n: int) -> Seq<u8>
    decreases n,
{
    if n < 10 {
        seq![(48 + n) as u8]
    } else {
        decimal_text(n / 10) + seq![(48 + n % 10) as u8]
    }
}

/// The lower-case hexadecimal digit for `d`.
pub open spec fn hex_digit_text(d: int) -> u8 {
    if d < 10 {
        (48 + d) as u8
    } else {
        (87 + d) as u8
    }
}

/// The digits of `n` in lower-case hexadecimal, without leading zeros.
pub open spec fn hex_text(n: int) -> Seq<u8>
    decreases n,
{
    if n < 16 {
        seq![hex_digit_text(n)]
    } else {
        hex_text(n / 16) + seq![hex_digit_text(n % 16)]
    }
}

/// The text of an IPv4 address with the octets `o`.
pub open spec fn ipv4_text(o: Seq<u8>) -> Seq<u8> {
    decimal_text(o[0] as int) + seq![DOT] + decimal_text(o[1] as int) + seq![DOT] + decimal_text(
        o[2] as int,
    ) + seq![DOT] + decimal_text(o[3] as int)
}

/// The `k`-th sixteen-bit group of the octets `o`.
pub open spec fn group_at(o: Seq<u8>, k: int) -> int {
    be16(o[2 * k], o[2 * k + 1])
}

/// The text of the groups of `o` from the `k`-th on, a colon between each
/// two.
pub open spec fn groups_text(o: Seq<u8>, k: int) -> Seq<u8>
    decreases 8 - k,
{
    if k >= 7 {
        hex_text(group_at(o, 7))
    } else {
        hex_text(group_at(o, k)) + seq![COLON] + groups_text(o, k + 1)
    }
}

/// The text of an address: dotted decimal for IPv4, eight groups in full
/// for IPv6.
pub open spec fn ip_text(ip: IpAddress) -> Seq<u8> {
    if ip is V4 {
        ipv4_text(ip.octets())
    } else {
        groups_text(ip.octets(), 0)
    }
}

/// The four fields of a line, a space between each two.
pub open spec fn fields_text(source: SocketAddress, destination: SocketAddress) -> Seq<u8> {
    ip_text(source.ip) + seq![SPACE] + ip_text(destination.ip) + seq![SPACE] + decimal_text(
        source.port as int,
    ) + seq![SPACE] + decimal_text(destination.port as int)
}

/// The text header that relays a TCP connection from `source` to
/// `destination`, both of one family.
pub open spec fn encode_text_spec(source: SocketAddress, destination: SocketAddress) -> Seq<u8> {
    proxy_word() + (if source.ip is V4 {
        tcp4_word()
    } else {
        tcp6_word()
    }) + fields_text(source, destination) + seq![CR, LF]
}

/// The text header that announces no addresses.
pub open spec fn encode_unknown_spec() -> Seq<u8> {
    proxy_word() + unknown_word() + seq![CR, LF]
}

/// Appends the decimal digits of `n` to `out`.
pub(crate) fn push_decimal(out: &mut Vec<u8>, n: u16)
    ensures
        final(out)@ == old(out)@ + decimal_text(n as int),
    decreases n,
{
    if n >= 10 {
        push_decimal(out, n / 10);
    }
    out.push(48 + (n % 10) as u8);
    assert(out@ =~= old(out)@ + decimal_text(n as int));
}

/// Appends the hexadecimal digits of `n` to `out`.
pub(crate) fn push_hex(out: &mut Vec<u8>, n: u16)
    ensures
        final(out)@ == old(out)@ + hex_text(n as int),
    decreases n,
{
    if n >= 16 {
        push_hex(out, n / 16);
    }
    let d = (n % 16) as u8;
    out.push(if d < 10 { 48 + d } else { 87 + d });
    assert(out@ =~= old(out)@ + hex_text(n as int));
}

/// Appends the text of the groups of `a` from the `k`-th on to `out`.
fn push_groups(out: &mut Vec<u8>, a: &[u8; 16], k: usize)
    requires
        k < 8,
    ensures
        final(out)@ == old(out)@ + groups_text(a@, k as int),
    decreases 8 - k,
{
    let g: u16 = (a[2 * k] as u16) * 256 + a[2 * k + 1] as u16;
    push_hex(out, g);
    if k < 7 {
        out.push(COLON);
        push_groups(out, a, k + 1);
    }
    assert(out@ =~= old(out)@ + groups_text(a@, k as int));
}

/// Appends the text of `ip` to `out`.
fn push_ip(out: &mut Vec<u8>, ip: &IpAddress)
    ensures
        final(out)@ == old(out)@ + ip_text(*ip),
{
    match ip {
        IpAddress::V4(a) => {
            push_decimal(out, a[0] as u16);
            out.push(DOT);
            push_decimal(out, a[1] as u16);
            out.push(DOT);
            push_decimal(out, a[2] as u16);
            out.push(DOT);
            push_decimal(out, a[3] as u16);
            assert(out@ =~= old(out)@ + ip_text(*ip));
        },
        IpAddress::V6(a) => {
            push_groups(out, a, 0);
        },
    }
}

/// Appends the bytes of `word` to `out`.
pub(crate) fn push_word(out: &mut Vec<u8>, word: &[u8])
    ensures
        final(out)@ == old(out)@ + word@,
{
    let mut i: usize = 0;
    while i < word.len()
        invariant
            i <= word@.len(),
            out@ == old(out)@ + word@.take(i as int),
        decreases word@.len() - i,
    {
        out.push(word[i]);
        assert(out@ =~= old(out)@ + word@.take(i + 1));
        i += 1;
    }
    assert(word@.take(word@.len() as int) =~= word@);
}

/// Encodes the text header that relays a TCP connection from `source` to
/// `destination`.
///
/// Fails exactly when the two endpoints belong to different families.
pub fn encode_text(source: &SocketAddress, destination: &SocketAddress) -> (r: Result<
    Vec<u8>,
    EncodeError,
>)
    ensures
        (source.ip is V4) == (destination.ip is V4) ==> r is Ok && r->Ok_0@ == encode_text_spec(
            *source,
            *destination,
        ),
        (source.ip is V4) != (destination.ip is V4) ==> r == Err::<Vec<u8>, EncodeError>(
            EncodeError::FamilyMismatch,
        ),
{
    let v4 = source.ip.is_v4();
    if v4 != destination.ip.is_v4() {
        return Err(EncodeError::FamilyMismatch);
    }
    let proxy = [80u8, 82u8, 79u8, 88u8, 89u8, 32u8];
    let tcp4 = [84u8, 67u8, 80u8, 52u8, 32u8];
    let tcp6 = [84u8, 67u8, 80u8, 54u8, 32u8];
    assert(proxy@ =~= proxy_word());
    assert(tcp4@ =~= tcp4_word());
    assert(tcp6@ =~= tcp6_word());
    let mut out: Vec<u8> = Vec::new();
    push_word(&mut out, proxy.as_slice());
    if v4 {
        push_word(&mut out, tcp4.as_slice());
    } else {
        push_word(&mut out, tcp6.as_slice());
    }
    push_ip(&mut out, &source.ip);
    out.push(SPACE);
    push_ip(&mut out, &destination.ip);
    out.push(SPACE);
    push_decimal(&mut out, source.port);
    out.push(SPACE);
    push_decimal(&mut out, destination.port);
    out.push(CR);
    out.push(LF);
    assert(out@ =~= encode_text_spec(*source, *destination));
    Ok(out)
}

/// Encodes the text header that announces no addresses.
pub fn encode_unknown() -> (out: Vec<u8>)
    ensures
        out@ == encode_unknown_spec(),
{
    let proxy = [80u8, 82u8, 79u8, 88u8, 89u8, 32u8];
    let unknown = [85u8, 78u8, 75u8, 78u8, 79u8, 87u8, 78u8];
    assert(proxy@ =~= proxy_word());
    assert(unknown@ =~= unknown_word());
    let mut out: Vec<u8> = Vec::new();
    push_word(&mut out, proxy.as_slice());
    push_word(&mut out, unknown.as_slice());
    out.push(CR);
    out.push(LF);
    assert(out@ =~= encode_unknown_spec());
    out
}

/// Tells whether every byte of `t` is a hexadecimal digit, a dot or a colon:
/// the bytes that an address or a port is written with.
pub open spec fn is_field(t: Seq<u8>) -> bool {
    forall|i: int| 0 <= i < t.len() ==> is_hex(#[trigger] t[i]) || t[i] == DOT || t[i] == COLON
}

/// The decimal text of a number below 65536 has one to five digits, no
/// leading zero, and spells that number.
pub proof fn lemma_decimal_text(n: int)
    requires
        0 <= n <= 65535,
    ensures
        1 <= decimal_text(n).len() <= 5,
        n <= 255 ==> decimal_text(n).len() <= 3,
        forall|i: int| 0 <= i < decimal_text(n).len() ==> is_digit(#[trigger] decimal_text(n)[i]),
        n >= 1 ==> decimal_text(n)[0] != 48,
        n < 10 ==> decimal_text(n).len() == 1,
        decimal_value(decimal_text(n)) == n,
        forall|max: int| n <= max ==> parse_decimal(decimal_text(n), max) == Some(n),
    decreases n,
{
    let t = decimal_text(n);
    if n < 10 {
        assert(t.drop_last() =~= Seq::<u8>::empty());
        assert(decimal_value(t) == decimal_value(t.drop_last()) * 10 + (t.last() - 48));
    } else {
        let h = decimal_text(n / 10);
        lemma_decimal_text(n / 10);
        assert(t.drop_last() =~= h);
        assert(t.last() == (48 + n % 10) as u8);
        assert(t[0] == h[0]);
        assert(decimal_value(t) == decimal_value(t.drop_last()) * 10 + (t.last() - 48));
        lemma_decimal_len(n);
    }
}

/// The number of decimal digits of a number below 65536.
proof fn lemma_decimal_len(n: int)
    requires
        0 <= n <= 65535,
    ensures
        decimal_text(n).len() == if n < 10 {
            1int
        } else if n < 100 {
            2int
        } else if n < 1000 {
            3int
        } else if n < 10000 {
            4int
        } else {
            5int
        },
    decreases n,
{
    if n >= 10 {
        lemma_decimal_len(n / 10);
    }
}

/// The hexadecimal text of a number below 65536 has one to four digits and
/// spells that number.
pub proof fn lemma_hex_text(n: int)
    requires
        0 <= n <= 65535,
    ensures
        1 <= hex_text(n).len() <= 4,
        forall|i: int| 0 <= i < hex_text(n).len() ==> is_hex(#[trigger] hex_text(n)[i]),
        hex_value(hex_text(n)) == n,
        parse_group(hex_text(n)) == Some(n as u16),
    decreases n,
{
    let t = hex_text(n);
    if n < 16 {
        assert(t.drop_last() =~= Seq::<u8>::empty());
        assert(hex_value(t) == hex_value(t.drop_last()) * 16 + hex_digit(t.last()));
    } else {
        let h = hex_text(n / 16);
        lemma_hex_text(n / 16);
        assert(t.drop_last() =~= h);
        assert(t.last() == hex_digit_text(n % 16));
        assert(hex_value(t) == hex_value(t.drop_last()) * 16 + hex_digit(t.last()));
        lemma_hex_len(n);
    }
}

/// The number of hexadecimal digits of a number below 65536.
proof fn lemma_hex_len(n: int)
    requires
        0 <= n <= 65535,
    ensures
        hex_text(n).len() == if n < 16 {
            1int
        } else if n < 256 {
            2int
        } else if n < 4096 {
            3int
        } else {
            4int
        },
    decreases n,
{
    if n >= 16 {
        lemma_hex_len(n / 16);
    }
}

/// Where `x` holds no `c`, the first `c` of `x`, `c`, `y` is the one
/// between them, and it parts the whole into `x` and `y`.
pub proof fn lemma_split(x: Seq<u8>, c: u8, y: Seq<u8>)
    requires
        forall|i: int| 0 <= i < x.len() ==> x[i] != c,
    ensures
        first_index(x + seq![c] + y, c) == x.len(),
        (x + seq![c] + y).take(x.len() as int) == x,
        (x + seq![c] + y).skip(x.len() as int + 1) == y,
{
    let t = x + seq![c] + y;
    assert(is_first(t, c, x.len() as int)) by {
        assert(t[x.len() as int] == c);
        assert forall|j: int| 0 <= j < x.len() implies t[j] != c by {
            assert(t[j] == x[j]);
        }
    }
    lemma_first_index(t, c, x.len() as int);
    assert(t.take(x.len() as int) =~= x);
    assert(t.skip(x.len() as int + 1) =~= y);
}

/// Tells whether every byte of `t` is a decimal digit or a dot.
pub open spec fn is_dotted(t: Seq<u8>) -> bool {
    forall|i: int| 0 <= i < t.len() ==> is_digit(#[trigger] t[i]) || t[i] == DOT
}

/// Parsing the text of an IPv4 address gives the address back.
pub proof fn lemma_ipv4_round_trip(ip: IpAddress)
    requires
        ip is V4,
    ensures
        parse_ipv4(ip_text(ip)) == Some(ip),
        is_field(ip_text(ip)),
        is_dotted(ip_text(ip)),
        7 <= ip_text(ip).len() <= 15,
{
    reveal(parse_ipv4);
    let o = ip.octets();
    lemma_v4_from_octets(ip);
    let a = decimal_text(o[0] as int);
    let b = decimal_text(o[1] as int);
    let c = decimal_text(o[2] as int);
    let d = decimal_text(o[3] as int);
    lemma_decimal_text(o[0] as int);
    lemma_decimal_text(o[1] as int);
    lemma_decimal_text(o[2] as int);
    lemma_decimal_text(o[3] as int);
    let s = ip_text(ip);
    let r1 = b + seq![DOT] + c + seq![DOT] + d;
    let r2 = c + seq![DOT] + d;
    assert(s =~= a + seq![DOT] + r1);
    assert(r1 =~= b + seq![DOT] + r2);
    lemma_split(a, DOT, r1);
    lemma_split(b, DOT, r2);
    lemma_split(c, DOT, d);
    let got = parse_ipv4(s)->Some_0->V4_0;
    assert(parse_ipv4(s) is Some);
    assert(got@ =~= ip->V4_0@);
    assert(is_field(s) && is_dotted(s)) by {
        assert forall|i: int| 0 <= i < s.len() implies is_digit(#[trigger] s[i]) || s[i] == DOT by {
            if i < a.len() {
                assert(s[i] == a[i]);
            } else if i == a.len() {
            } else if i < a.len() + 1 + b.len() {
                assert(s[i] == b[i - a.len() - 1]);
            } else if i == a.len() + 1 + b.len() {
            } else if i < a.len() + 1 + b.len() + 1 + c.len() {
                assert(s[i] == c[i - a.len() - b.len() - 2]);
            } else if i == a.len() + 1 + b.len() + 1 + c.len() {
            } else {
                assert(s[i] == d[i - a.len() - b.len() - c.len() - 3]);
            }
        }
    }
}

/// The text of the groups from the `k`-th on parses to those groups, has
/// no two colons in a row, and neither starts nor ends with one.
pub proof fn lemma_groups_text(o: Seq<u8>, k: int)
    requires
        o.len() == 16,
        0 <= k <= 7,
    ensures
        parse_groups(groups_text(o, k)) == Some(Seq::new((8 - k) as nat, |i: int| group_at(o, k + i) as u16)),
        is_field(groups_text(o, k)),
        is_first_pair(groups_text(o, k), COLON, groups_text(o, k).len() as int),
        2 * (8 - k) - 1 <= groups_text(o, k).len() <= 5 * (8 - k) - 1,
        groups_text(o, k)[0] != COLON,
        forall|i: int| 0 <= i < groups_text(o, k).len() ==> #[trigger] groups_text(o, k)[i] != DOT,
    decreases 8 - k,
{
    let t = groups_text(o, k);
    let h = hex_text(group_at(o, k));
    lemma_hex_text(group_at(o, k));
    let want = Seq::new((8 - k) as nat, |i: int| group_at(o, k + i) as u16);
    if k == 7 {
        assert(t == h);
        assert(is_first(t, COLON, t.len() as int));
        lemma_first_index(t, COLON, t.len() as int);
        assert(want =~= seq![group_at(o, 7) as u16]);
    } else {
        let r = groups_text(o, k + 1);
        lemma_groups_text(o, k + 1);
        assert(t == h + seq![COLON] + r);
        lemma_split(h, COLON, r);
        let rest = Seq::new((8 - k - 1) as nat, |i: int| group_at(o, k + 1 + i) as u16);
        assert(want =~= seq![group_at(o, k) as u16] + rest);
        assert(is_field(t)) by {
            assert forall|i: int| 0 <= i < t.len() implies is_hex(#[trigger] t[i]) || t[i] == DOT || t[i]
                == COLON by {
                if i < h.len() {
                    assert(t[i] == h[i]);
                } else if i > h.len() {
                    assert(t[i] == r[i - h.len() - 1]);
                }
            }
        }
        assert forall|i: int| 0 <= i < t.len() implies #[trigger] t[i] != DOT by {
            if i < h.len() {
                assert(t[i] == h[i]);
                assert(is_hex(h[i]));
            } else if i > h.len() {
                assert(t[i] == r[i - h.len() - 1]);
            }
        }
        assert(t[0] == h[0]);
        assert(is_first_pair(t, COLON, t.len() as int)) by {
            assert forall|j: int| 0 <= j < t.len() && j + 1 < t.len() implies !(t[j] == COLON
                && #[trigger] t[j + 1] == COLON) by {
                if j + 1 < h.len() {
                    assert(t[j + 1] == h[j + 1]);
                } else if j + 1 == h.len() {
                    assert(t[j] == h[j]);
                } else if j == h.len() {
                    assert(t[j + 1] == r[0]);
                } else {
                    assert(t[j] == r[j - h.len() - 1]);
                    assert(t[j + 1] == r[j - h.len() - 1 + 1]);
                }
            }
        }
    }
}

/// Parsing the text of an IPv6 address gives the address back.
pub proof fn lemma_ipv6_round_trip(ip: IpAddress)
    requires
        ip is V6,
    ensures
        parse_ipv6(ip_text(ip)) == Some(ip),
        is_field(ip_text(ip)),
        15 <= ip_text(ip).len() <= 39,
{
    reveal(parse_ipv6_plain);
    let o = ip.octets();
    lemma_v6_from_octets(ip);
    lemma_groups_text(o, 0);
    let s = ip_text(ip);
    lemma_plain_when_undotted(s);
    lemma_first_pair(s, COLON, s.len() as int);
    let g = Seq::new(8, |i: int| group_at(o, i) as u16);
    assert(parse_groups(s) == Some(g));
    let got = v6_of_groups(g)->V6_0;
    assert(got@ =~= ip->V6_0@);
}

/// Parsing the text of an address gives the address back, and the text is
/// made of digits, dots and colons alone.
pub proof fn lemma_ip_round_trip(ip: IpAddress)
    ensures
        parse_ip(ip_text(ip), ip is V4) == Some(ip),
        is_field(ip_text(ip)),
        7 <= ip_text(ip).len() <= 39,
{
    if ip is V4 {
        lemma_ipv4_round_trip(ip);
    } else {
        lemma_ipv6_round_trip(ip);
    }
}

/// The four fields of a line parse to the header of the two endpoints.
pub proof fn lemma_fields_round_trip(source: SocketAddress, destination: SocketAddress)
    requires
        (source.ip is V4) == (destination.ip is V4),
    ensures
        parse_fields(fields_text(source, destination), source.ip is V4) == Some(
            tcp_header(source, destination),
        ),
        forall|i: int|
            0 <= i < fields_text(source, destination).len() ==> #[trigger] fields_text(
                source,
                destination,
            )[i] != CR,
        19 <= fields_text(source, destination).len() <= 91,
{
    reveal(parse_fields);
    let a = ip_text(source.ip);
    let b = ip_text(destination.ip);
    let p = decimal_text(source.port as int);
    let q = decimal_text(destination.port as int);
    lemma_ip_round_trip(source.ip);
    lemma_ip_round_trip(destination.ip);
    lemma_decimal_text(source.port as int);
    lemma_decimal_text(destination.port as int);
    let s = fields_text(source, destination);
    let r1 = b + seq![SPACE] + p + seq![SPACE] + q;
    let r2 = p + seq![SPACE] + q;
    assert(s =~= a + seq![SPACE] + r1);
    assert(r1 =~= b + seq![SPACE] + r2);
    lemma_split(a, SPACE, r1);
    lemma_split(b, SPACE, r2);
    lemma_split(p, SPACE, q);
    assert forall|i: int| 0 <= i < s.len() implies #[trigger] s[i] != CR by {
        if i < a.len() {
            assert(s[i] == a[i]);
        } else if i == a.len() {
        } else if i < a.len() + 1 + b.len() {
            assert(s[i] == b[i - a.len() - 1]);
        } else if i == a.len() + 1 + b.len() {
        } else if i < a.len() + 1 + b.len() + 1 + p.len() {
            assert(s[i] == p[i - a.len() - b.len() - 2]);
        } else if i == a.len() + 1 + b.len() + 1 + p.len() {
        } else {
            assert(s[i] == q[i - a.len() - b.len() - p.len() - 3]);
        }
    }
}

/// Decoding an encoded line, whatever follows it in the buffer, gives back
/// both endpoints and stops at the end of the line.
pub proof fn lemma_text_round_trip(source: SocketAddress, destination: SocketAddress, rest: Seq<u8>)
    requires
        (source.ip is V4) == (destination.ip is V4),
    ensures
        decode_text_spec(encode_text_spec(source, destination) + rest) == Ok::<
            (HeaderView, int),
            ProtocolError,
        >((tcp_header(source, destination), encode_text_spec(source, destination).len() as int)),
        tcp_header(source, destination).valid(),
        32 <= encode_text_spec(source, destination).len() <= 104,
{
    reveal(decode_text_spec);
    let line = encode_text_spec(source, destination);
    let f = fields_text(source, destination);
    let w = if source.ip is V4 {
        tcp4_word()
    } else {
        tcp6_word()
    };
    let buf = line + rest;
    lemma_fields_round_trip(source, destination);
    lemma_line_shape(source, destination);
    let cr = 11 + f.len();
    assert forall|i: int| 0 <= i < line.len() implies buf[i] == line[i] by {}
    assert(agrees(buf, proxy_word()));
    let window = line_window(buf);
    assert(is_first(window, CR, cr as int)) by {
        assert(window[cr as int] == buf[cr as int]);
        assert forall|j: int| 0 <= j < cr implies window[j] != CR by {
            assert(window[j] == line[j]);
        }
    }
    lemma_first_index(window, CR, cr as int);
    let body = buf.subrange(6, cr as int);
    assert(body =~= w + f);
    assert(body.take(5) =~= w);
    assert(body.skip(5) =~= f);
    assert(body[0] == 84u8);
    assert(!starts_with(body, unknown_word())) by {
        if starts_with(body, unknown_word()) {
            assert(body.take(7)[0] == 85u8);
        }
    }
    if !(source.ip is V4) {
        assert(!starts_with(body, tcp4_word())) by {
            if starts_with(body, tcp4_word()) {
                assert(body.take(5)[3] == 52u8);
            }
        }
    }
}

/// How an encoded line is laid out: `PROXY `, the family word, the fields
/// without a CR among them, then CR LF.
proof fn lemma_line_shape(source: SocketAddress, destination: SocketAddress)
    requires
        (source.ip is V4) == (destination.ip is V4),
    ensures
        ({
            let line = encode_text_spec(source, destination);
            let f = fields_text(source, destination);
            &&& line.len() == f.len() + 13
            &&& 32 <= line.len() <= 104
            &&& agrees(line, proxy_word())
            &&& line[f.len() as int + 11] == CR
            &&& line[f.len() as int + 12] == LF
            &&& forall|j: int| 0 <= j < f.len() + 11 ==> line[j] != CR
            &&& line.subrange(6, 11) == if source.ip is V4 {
                tcp4_word()
            } else {
                tcp6_word()
            }
            &&& line.subrange(11, f.len() as int + 11) == f
        }),
{
    let line = encode_text_spec(source, destination);
    let f = fields_text(source, destination);
    let w = if source.ip is V4 {
        tcp4_word()
    } else {
        tcp6_word()
    };
    lemma_fields_round_trip(source, destination);
    assert(line.subrange(6, 11) =~= w);
    assert(line.subrange(11, f.len() as int + 11) =~= f);
    assert forall|j: int| 0 <= j < f.len() + 11 implies line[j] != CR by {
        if j < 6 {
            assert(line[j] == proxy_word()[j]);
        } else if j < 11 {
            assert(line[j] == w[j - 6]);
        } else {
            assert(line[j] == f[j - 11]);
        }
    }
}

/// Every strict prefix of an encoded line decodes to `Truncated`.
pub proof fn lemma_text_prefix_truncated(source: SocketAddress, destination: SocketAddress, k: int)
    requires
        (source.ip is V4) == (destination.ip is V4),
        0 <= k < encode_text_spec(source, destination).len(),
    ensures
        decode_text_spec(encode_text_spec(source, destination).take(k)) == Err::<
            (HeaderView, int),
            ProtocolError,
        >(ProtocolError::Truncated),
{
    reveal(decode_text_spec);
    let line = encode_text_spec(source, destination);
    let f = fields_text(source, destination);
    let buf = line.take(k);
    lemma_line_shape(source, destination);
    assert(agrees(buf, proxy_word()));
    let window = line_window(buf);
    assert(window == buf);
    let cr = f.len() as int + 11;
    if k <= cr {
        assert(is_first(buf, CR, k));
        lemma_first_index(buf, CR, k);
    } else {
        assert(is_first(buf, CR, cr));
        lemma_first_index(buf, CR, cr);
    }
}

/// The fifteen bytes of the line without addresses.
proof fn lemma_unknown_line()
    ensures
        encode_unknown_spec() == seq![
            80u8,
            82u8,
            79u8,
            88u8,
            89u8,
            32u8,
            85u8,
            78u8,
            75u8,
            78u8,
            79u8,
            87u8,
            78u8,
            13u8,
            10u8,
        ],
        encode_unknown_spec().len() == 15,
{
    assert(encode_unknown_spec() =~= seq![
        80u8,
        82u8,
        79u8,
        88u8,
        89u8,
        32u8,
        85u8,
        78u8,
        75u8,
        78u8,
        79u8,
        87u8,
        78u8,
        13u8,
        10u8,
    ]);
}

/// The line without addresses, whatever follows it in the buffer, decodes
/// to a header without endpoints and stops at the end of the line.
pub proof fn lemma_text_unknown_round_trip(rest: Seq<u8>)
    ensures
        decode_text_spec(encode_unknown_spec() + rest) == Ok::<(HeaderView, int), ProtocolError>(
            (unknown_header(), 15),
        ),
        unknown_header().valid(),
{
    reveal(decode_text_spec);
    let line = encode_unknown_spec();
    let buf = line + rest;
    lemma_unknown_line();
    assert forall|i: int| 0 <= i < 15 implies buf[i] == line[i] by {}
    assert(agrees(buf, proxy_word())) by {
        assert forall|i: int| 0 <= i < buf.len() && i < proxy_word().len() implies buf[i]
            == proxy_word()[i] by {
            assert(buf[i] == line[i]);
        }
    }
    let window = line_window(buf);
    assert(is_first(window, CR, 13)) by {
        assert(window[13] == line[13]);
        assert forall|j: int| 0 <= j < 13 implies window[j] != CR by {
            assert(window[j] == line[j]);
        }
    }
    lemma_first_index(window, CR, 13);
    assert(buf[14] == LF);
    let body = buf.subrange(6, 13);
    assert(body =~= unknown_word());
    assert(body.take(7) =~= unknown_word());
}

/// Every strict prefix of the line without addresses decodes to
/// `Truncated`.
pub proof fn lemma_text_unknown_truncated(k: int)
    requires
        0 <= k < 15,
    ensures
        decode_text_spec(encode_unknown_spec().take(k)) == Err::<(HeaderView, int), ProtocolError>(
            ProtocolError::Truncated,
        ),
{
    reveal(decode_text_spec);
    let line = encode_unknown_spec();
    lemma_unknown_line();
    let short = line.take(k);
    assert forall|i: int| 0 <= i < k implies short[i] == line[i] by {}
    assert(agrees(short, proxy_word())) by {
        assert forall|i: int| 0 <= i < short.len() && i < proxy_word().len() implies short[i]
            == proxy_word()[i] by {
            assert(short[i] == line[i]);
        }
    }
    assert(line_window(short) == short);
    if k <= 13 {
        assert(is_first(short, CR, k)) by {
            assert forall|j: int| 0 <= j < k implies short[j] != CR by {
                assert(short[j] == line[j]);
            }
        }
        lemma_first_index(short, CR, k);
    } else {
        assert(is_first(short, CR, 13)) by {
            assert(short[13] == line[13]);
            assert forall|j: int| 0 <= j < 13 implies short[j] != CR by {
                assert(short[j] == line[j]);
            }
        }
        lemma_first_index(short, CR, 13);
    }
}

/// A buffer that does not open like `PROXY ` is malformed, however the
/// rest of it reads.
pub proof fn lemma_text_missing_word(buf: Seq<u8>)
    requires
        !agrees(buf, proxy_word()),
    ensures
        decode_text_spec(buf) == Err::<(HeaderView, int), ProtocolError>(ProtocolError::Malformed),
{
    reveal(decode_text_spec);
}

/// A buffer of 106 bytes or more without a CR among the first 106 is
/// malformed: no line that long is read.
pub proof fn lemma_text_length_cap(buf: Seq<u8>)
    requires
        buf.len() >= 106,
        forall|i: int| 0 <= i < 106 ==> buf[i] != CR,
    ensures
        decode_text_spec(buf) == Err::<(HeaderView, int), ProtocolError>(ProtocolError::Malformed),
{
    reveal(decode_text_spec);
    let window = line_window(buf);
    assert(is_first(window, CR, 106));
    lemma_first_index(window, CR, 106);
}

/// Reading on never turns an outcome around: once a buffer decodes to a
/// header or to `Malformed`, it does so with any bytes added behind it.
pub proof fn lemma_text_stable(buf: Seq<u8>, more: Seq<u8>)
    ensures
        decode_text_spec(buf) != Err::<(HeaderView, int), ProtocolError>(ProtocolError::Truncated)
            ==> decode_text_spec(buf + more) == decode_text_spec(buf),
{
    reveal(decode_text_spec);
    let ext = buf + more;
    let w = line_window(buf);
    let we = line_window(ext);
    let cr = first_index(w, CR);
    lemma_first_index_is_first(w, CR);
    if !agrees(buf, proxy_word()) {
        let i = choose|i: int| 0 <= i < buf.len() && i < proxy_word().len() && buf[i] != proxy_word()[i];
        assert(ext[i] == buf[i]);
    } else if cr >= w.len() {
        if buf.len() >= 106 {
            assert(we =~= w);
        }
    } else if cr + 1 < buf.len() {
        assert(is_first(we, CR, cr)) by {
            assert(we[cr] == w[cr]);
            assert forall|j: int| 0 <= j < cr implies we[j] != CR by {
                assert(we[j] == w[j]);
            }
        }
        lemma_first_index(we, CR, cr);
        assert(ext[cr + 1] == buf[cr + 1]);
        assert(w[cr] == CR);
        assert(buf[cr] == CR);
        assert(cr >= 6) by {
            if cr < 6 {
                assert(buf[cr] == proxy_word()[cr]);
            }
        }
        assert(agrees(ext, proxy_word())) by {
            assert forall|i: int| 0 <= i < ext.len() && i < proxy_word().len() implies ext[i]
                == proxy_word()[i] by {
                assert(ext[i] == buf[i]);
            }
        }
        assert(ext.subrange(6, cr) =~= buf.subrange(6, cr));
    }
}

/// A decoded line takes at most 107 bytes, none of them beyond the buffer.
pub proof fn lemma_text_len(buf: Seq<u8>)
    ensures
        decode_text_spec(buf) matches Ok((h, n)) ==> 8 <= n <= buf.len() && n <= MAX_LINE_LEN,
        buf.len() >= 107 ==> decode_text_spec(buf) != Err::<(HeaderView, int), ProtocolError>(
            ProtocolError::Truncated,
        ),
{
    reveal(decode_text_spec);
    lemma_first_index_is_first(line_window(buf), CR);
}

} // verus!
