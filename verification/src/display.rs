//! The text that endpoints are shown with.
//!
//! An IPv4 address is shown in dotted decimal. An IPv6 address is shown in
//! lower-case groups without leading zeros, its longest run of two or more
//! groups of zero, the first of them where several are equally long, left
//! out behind a double colon; and an IPv4-mapped address with its last four
//! octets in dotted decimal. An endpoint is the address, in square brackets
//! where it is IPv6, a colon and the port.

use vstd::prelude::*;
use crate::address::{lemma_v4_from_octets, lemma_v6_from_octets, v4_from, IpAddress, SocketAddress};
use crate::bytes::{first_pair, is_first, is_first_pair, lemma_first_index, lemma_first_pair};
use crate::text::{decimal_text, group_at, hex_text, ip_text, ipv4_text, is_digit, is_dotted, is_hex};
use crate::text::{lemma_decimal_text, lemma_hex_text, lemma_ipv4_round_trip, lemma_split, parse_decimal};
use crate::text::{lemma_plain_when_undotted, parse_groups, parse_groups_or_none, parse_ipv4};
use crate::text::{parse_ipv6, parse_ipv6_plain, push_decimal};
use crate::text::{push_hex, push_word, v6_of_groups, COLON, DOT};

verus! {

/// Tells whether the groups of `o` from `start` on, `len` of them, are all
/// zero.
pub open spec fn is_zero_run(o: Seq<u8>, start: int, len: int) -> bool {
    &&& 0 <= start
    &&& 0 <= len
    &&& start + len <= 8
    &&& forall|k: int| start <= k < start + len ==> #[trigger] group_at(o, k) == 0
}

/// Tells whether the run of `len` groups from `start` on is the one that
/// is left out: a run of two or more zeros that none is longer than, and
/// that stands before any other of its length.
pub open spec fn is_compressed_run(o: Seq<u8>, start: int, len: int) -> bool {
    &&& is_zero_run(o, start, len)
    &&& len >= 2
    &&& forall|s: int, l: int| #[trigger] is_zero_run(o, s, l) ==> l < len || (l == len && s >= start)
}

/// Tells whether an address has a run of zeros to leave out.
pub open spec fn has_compressed_run(o: Seq<u8>) -> bool {
    exists|s: int, l: int| is_compressed_run(o, s, l)
}

/// The run of zeros that is left out: where it starts and how long it is.
pub open spec fn compressed_run(o: Seq<u8>) -> (int, int) {
    choose|s: int, l: int| is_compressed_run(o, s, l)
}

/// Tells whether an address is IPv4-mapped: five groups of zero, then a
/// group of ones.
pub open spec fn is_mapped(o: Seq<u8>) -> bool {
    &&& forall|k: int| 0 <= k < 5 ==> #[trigger] group_at(o, k) == 0
    &&& group_at(o, 5) == 0xffff
}

/// The bytes of `::ffff:`.
pub open spec fn mapped_words() -> Seq<u8> {
    seq![58u8, 58u8, 102u8, 102u8, 102u8, 102u8, 58u8]
}

/// The text of the groups of `o` from `from` up to `to`, a colon between
/// each two; nothing where there is no group.
pub open spec fn span_text(o: Seq<u8>, from: int, to: int) -> Seq<u8>
    decreases to - from,
{
    if from >= to {
        Seq::empty()
    } else if from + 1 == to {
        hex_text(group_at(o, from))
    } else {
        hex_text(group_at(o, from)) + seq![COLON] + span_text(o, from + 1, to)
    }
}

/// The text that an IPv6 address with the octets `o` is shown with.
pub open spec fn ipv6_display(o: Seq<u8>) -> Seq<u8> {
    if is_mapped(o) {
        mapped_words() + ipv4_text(o.subrange(12, 16))
    } else if has_compressed_run(o) {
        span_text(o, 0, compressed_run(o).0) + seq![COLON, COLON] + span_text(
            o,
            compressed_run(o).0 + compressed_run(o).1,
            8,
        )
    } else {
        span_text(o, 0, 8)
    }
}

/// The text that an address is shown with.
pub open spec fn ip_display(ip: IpAddress) -> Seq<u8> {
    if ip is V4 {
        ip_text(ip)
    } else {
        ipv6_display(ip.octets())
    }
}

/// The text that an endpoint is shown with: `address:port`, an IPv6
/// address in square brackets.
pub open spec fn endpoint_text(addr: SocketAddress) -> Seq<u8> {
    if addr.ip is V4 {
        ip_display(addr.ip) + seq![COLON] + decimal_text(addr.port as int)
    } else {
        seq![91u8] + ip_display(addr.ip) + seq![93u8, COLON] + decimal_text(addr.port as int)
    }
}

/// There is only one run to leave out.
pub proof fn lemma_compressed_run(o: Seq<u8>, start: int, len: int)
    requires
        is_compressed_run(o, start, len),
    ensures
        has_compressed_run(o),
        compressed_run(o) == (start, len),
{
    let (s, l) = compressed_run(o);
    assert(is_compressed_run(o, s, l));
    assert(is_zero_run(o, s, l));
    assert(is_zero_run(o, start, len));
}

/// A group is zero exactly when both its octets are.
proof fn lemma_group_zero(o: Seq<u8>, k: int)
    ensures
        group_at(o, k) == 0 <==> o[2 * k] == 0 && o[2 * k + 1] == 0,
        0 <= group_at(o, k) <= 0xffff,
        group_at(o, k) == 0xffff <==> o[2 * k] == 255 && o[2 * k + 1] == 255,
{
}

/// Tells whether the address with the octets `a` is IPv4-mapped.
fn mapped(a: &[u8; 16]) -> (r: bool)
    ensures
        r == is_mapped(a@),
{
    let mut k: usize = 0;
    while k < 10
        invariant
            k <= 10,
            forall|j: int| 0 <= j < k ==> a@[j] == 0,
        decreases 10 - k,
    {
        if a[k] != 0 {
            proof {
                lemma_group_zero(a@, k as int / 2);
                assert(group_at(a@, k as int / 2) != 0);
            }
            return false;
        }
        k += 1;
    }
    proof {
        lemma_group_zero(a@, 5);
        assert forall|j: int| 0 <= j < 5 implies #[trigger] group_at(a@, j) == 0 by {
            lemma_group_zero(a@, j);
        }
    }
    a[10] == 255 && a[11] == 255
}

/// Finds the run of zero groups to leave out: where it starts and how long
/// it is, a length below two where there is none.
fn find_run(a: &[u8; 16]) -> (r: (usize, usize))
    ensures
        r.1 >= 2 ==> is_compressed_run(a@, r.0 as int, r.1 as int),
        r.1 < 2 ==> !has_compressed_run(a@),
        r.0 + r.1 <= 8,
{
    let mut best_start: usize = 0;
    let mut best_len: usize = 0;
    let mut current: usize = 0;
    let mut i: usize = 0;
    while i < 8
        invariant
            i <= 8,
            current <= i,
            current <= best_len,
            best_start + best_len <= i,
            is_zero_run(a@, best_start as int, best_len as int),
            forall|k: int| i - current <= k < i ==> #[trigger] group_at(a@, k) == 0,
            current < i ==> group_at(a@, i - current - 1) != 0,
            forall|s: int, l: int|
                #[trigger] is_zero_run(a@, s, l) && s + l <= i && l >= 1 ==> l < best_len || (l == best_len
                    && s >= best_start),
        decreases 8 - i,
    {
        proof {
            lemma_group_zero(a@, i as int);
        }
        let ghost old_best_len = best_len;
        let ghost old_best_start = best_start;
        let ghost old_current = current;
        if a[2 * i] == 0 && a[2 * i + 1] == 0 {
            current = current + 1;
            if current > best_len {
                best_start = i + 1 - current;
                best_len = current;
            }
        } else {
            current = 0;
        }
        proof {
            assert forall|s: int, l: int|
                #[trigger] is_zero_run(a@, s, l) && s + l <= i + 1 && l >= 1 implies l < best_len || (l
                == best_len && s >= best_start) by {
                if s + l <= i {
                    assert(l < old_best_len || (l == old_best_len && s >= old_best_start));
                } else {
                    assert(group_at(a@, i as int) == 0);
                    if l > old_current + 1 {
                        assert(group_at(a@, i - old_current - 1) == 0);
                    }
                }
            }
        }
        i += 1;
    }
    proof {
        if best_len >= 2 {
            assert forall|s: int, l: int| #[trigger] is_zero_run(a@, s, l) implies l < best_len || (l
                == best_len && s >= best_start) by {}
        } else {
            if has_compressed_run(a@) {
                let (s, l) = compressed_run(a@);
                assert(is_compressed_run(a@, s, l));
                assert(is_zero_run(a@, s, l));
            }
        }
    }
    (best_start, best_len)
}

/// Appends the text of the groups of `a` from `from` up to `to` to `out`.
fn push_span(out: &mut Vec<u8>, a: &[u8; 16], from: usize, to: usize)
    requires
        from <= to <= 8,
    ensures
        final(out)@ == old(out)@ + span_text(a@, from as int, to as int),
    decreases to - from,
{
    if from < to {
        let g: u16 = (a[2 * from] as u16) * 256 + a[2 * from + 1] as u16;
        push_hex(out, g);
        if from + 1 < to {
            out.push(COLON);
            push_span(out, a, from + 1, to);
        }
    }
    assert(out@ =~= old(out)@ + span_text(a@, from as int, to as int));
}

/// Appends the text that `ip` is shown with to `out`.
pub fn push_address(out: &mut Vec<u8>, ip: &IpAddress)
    ensures
        final(out)@ == old(out)@ + ip_display(*ip),
{
    match ip {
        IpAddress::V4(a) => {
            push_decimal(out, a[0] as u16);
            out.push(DOT);
            push_decimal(out, a[1] as u16);
            out.push(DOT);
            push_decimal(out, a[2] as u16);
            out.push(DOT);
            push_decimal(out, a[3] as u16);
            assert(out@ =~= old(out)@ + ip_display(*ip));
        },
        IpAddress::V6(a) => {
            if mapped(a) {
                let words = [58u8, 58u8, 102u8, 102u8, 102u8, 102u8, 58u8];
                assert(words@ =~= mapped_words());
                push_word(out, words.as_slice());
                push_decimal(out, a[12] as u16);
                out.push(DOT);
                push_decimal(out, a[13] as u16);
                out.push(DOT);
                push_decimal(out, a[14] as u16);
                out.push(DOT);
                push_decimal(out, a[15] as u16);
                assert(out@ =~= old(out)@ + ip_display(*ip));
            } else {
                let (start, len) = find_run(a);
                if len >= 2 {
                    proof {
                        lemma_compressed_run(a@, start as int, len as int);
                    }
                    push_span(out, a, 0, start);
                    out.push(COLON);
                    out.push(COLON);
                    push_span(out, a, start + len, 8);
                    assert(out@ =~= old(out)@ + ip_display(*ip));
                } else {
                    push_span(out, a, 0, 8);
                }
            }
        },
    }
}

/// Appends the text that `addr` is shown with to `out`.
pub fn push_endpoint(out: &mut Vec<u8>, addr: &SocketAddress)
    ensures
        final(out)@ == old(out)@ + endpoint_text(*addr),
{
    if addr.ip.is_v4() {
        push_address(out, &addr.ip);
        out.push(COLON);
        push_decimal(out, addr.port);
    } else {
        out.push(91);
        push_address(out, &addr.ip);
        out.push(93);
        out.push(COLON);
        push_decimal(out, addr.port);
    }
    assert(out@ =~= old(out)@ + endpoint_text(*addr));
}

/// Tells whether every byte of `t` is a hexadecimal digit or a colon.
pub open spec fn is_grouped(t: Seq<u8>) -> bool {
    forall|i: int| 0 <= i < t.len() ==> is_hex(#[trigger] t[i]) || t[i] == COLON
}

/// Tells whether no two colons stand side by side in `t`.
pub open spec fn no_pair(t: Seq<u8>) -> bool {
    forall|j: int| 0 <= j && j + 1 < t.len() ==> !(t[j] == COLON && #[trigger] t[j + 1] == COLON)
}

/// The text of a span of one or more groups parses to those groups, is
/// made of digits and colons, has no two colons side by side, and neither
/// starts nor ends with one.
pub proof fn lemma_span_text(o: Seq<u8>, from: int, to: int)
    requires
        o.len() == 16,
        0 <= from < to <= 8,
    ensures
        parse_groups(span_text(o, from, to)) == Some(
            Seq::new((to - from) as nat, |i: int| group_at(o, from + i) as u16),
        ),
        is_grouped(span_text(o, from, to)),
        no_pair(span_text(o, from, to)),
        span_text(o, from, to).len() >= 1,
        span_text(o, from, to)[0] != COLON,
        span_text(o, from, to).last() != COLON,
    decreases to - from,
{
    let t = span_text(o, from, to);
    let h = hex_text(group_at(o, from));
    lemma_hex_text(group_at(o, from));
    let want = Seq::new((to - from) as nat, |i: int| group_at(o, from + i) as u16);
    if from + 1 == to {
        assert(t == h);
        assert(is_first(t, COLON, t.len() as int));
        lemma_first_index(t, COLON, t.len() as int);
        assert(want =~= seq![group_at(o, from) as u16]);
        assert(is_hex(t[t.len() - 1]));
    } else {
        let r = span_text(o, from + 1, to);
        lemma_span_text(o, from + 1, to);
        assert(t == h + seq![COLON] + r);
        lemma_split(h, COLON, r);
        let rest = Seq::new((to - from - 1) as nat, |i: int| group_at(o, from + 1 + i) as u16);
        assert(want =~= seq![group_at(o, from) as u16] + rest);
        assert(is_grouped(t)) by {
            assert forall|i: int| 0 <= i < t.len() implies is_hex(#[trigger] t[i]) || t[i] == COLON by {
                if i < h.len() {
                    assert(t[i] == h[i]);
                } else if i > h.len() {
                    assert(t[i] == r[i - h.len() - 1]);
                }
            }
        }
        assert(t[0] == h[0]);
        assert(t.last() == r.last());
        assert(no_pair(t)) by {
            assert forall|j: int| 0 <= j && j + 1 < t.len() implies !(t[j] == COLON && #[trigger] t[j
                + 1] == COLON) by {
                if j + 1 < h.len() {
                    assert(t[j + 1] == h[j + 1]);
                } else if j + 1 == h.len() {
                    assert(t[j] == h[j]);
                } else if j == h.len() {
                    assert(t[j + 1] == r[0]);
                } else {
                    assert(t[j] == r[j - h.len() - 1]);
                    assert(t[j + 1] == r[j - h.len() - 1 + 1]);
                }
            }
        }
    }
}

/// The text of a span, empty or not, parses to its groups and is made of
/// digits and colons.
proof fn lemma_span_or_none(o: Seq<u8>, from: int, to: int)
    requires
        o.len() == 16,
        0 <= from <= to <= 8,
    ensures
        parse_groups_or_none(span_text(o, from, to)) == Some(
            Seq::new((to - from) as nat, |i: int| group_at(o, from + i) as u16),
        ),
        is_grouped(span_text(o, from, to)),
        no_pair(span_text(o, from, to)),
        from < to ==> span_text(o, from, to).len() >= 1 && span_text(o, from, to)[0] != COLON && span_text(
            o,
            from,
            to,
        ).last() != COLON,
        from == to ==> span_text(o, from, to).len() == 0,
{
    if from < to {
        lemma_span_text(o, from, to);
    } else {
        assert(Seq::new(0nat, |i: int| group_at(o, from + i) as u16) =~= Seq::<u16>::empty());
    }
}

/// The eight groups of an address give its octets back.
proof fn lemma_groups_give_address(ip: IpAddress, g: Seq<u16>)
    requires
        ip is V6,
        g.len() == 8,
        forall|k: int| 0 <= k < 8 ==> g[k] == group_at(ip.octets(), k),
    ensures
        v6_of_groups(g) == ip,
{
    let o = ip.octets();
    lemma_v6_from_octets(ip);
    assert forall|k: int| 0 <= k < 8 implies g[k] / 256 == o[2 * k] && g[k] % 256 == o[2 * k + 1] by {
        assert(g[k] == group_at(o, k));
    }
    let got = v6_of_groups(g)->V6_0;
    assert(got@ =~= ip->V6_0@);
}

/// The text that an address not IPv4-mapped is shown with parses to the
/// address, and is made of digits and colons alone.
pub proof fn lemma_ipv6_display_parses(ip: IpAddress)
    requires
        ip is V6,
        !is_mapped(ip.octets()),
    ensures
        parse_ipv6(ipv6_display(ip.octets())) == Some(ip),
        is_grouped(ipv6_display(ip.octets())),
        ipv6_display(ip.octets()).len() >= 2,
{
    reveal(parse_ipv6_plain);
    let o = ip.octets();
    lemma_v6_from_octets(ip);
    let t = ipv6_display(o);
    if has_compressed_run(o) {
        let (s, l) = compressed_run(o);
        assert(is_compressed_run(o, s, l));
        assert(is_zero_run(o, s, l));
        let left = span_text(o, 0, s);
        let right = span_text(o, s + l, 8);
        lemma_span_or_none(o, 0, s);
        lemma_span_or_none(o, s + l, 8);
        assert(t == left + seq![COLON, COLON] + right);
        let p = left.len() as int;
        assert(t[p] == COLON && t[p + 1] == COLON);
        assert(is_first_pair(t, COLON, p)) by {
            assert forall|j: int| 0 <= j < p && j + 1 < t.len() implies !(t[j] == COLON
                && #[trigger] t[j + 1] == COLON) by {
                assert(t[j] == left[j]);
                if j + 1 < p {
                    assert(t[j + 1] == left[j + 1]);
                } else {
                    assert(left[j] == left.last());
                }
            }
        }
        lemma_first_pair(t, COLON, p);
        assert(t.take(p) =~= left);
        assert(t.skip(p + 2) =~= right);
        let gl = Seq::new(s as nat, |i: int| group_at(o, 0 + i) as u16);
        let gr = Seq::new((8 - (s + l)) as nat, |i: int| group_at(o, s + l + i) as u16);
        let all = gl + Seq::new((8 - gl.len() - gr.len()) as nat, |k: int| 0u16) + gr;
        assert forall|k: int| 0 <= k < 8 implies all[k] == group_at(o, k) by {
            if k < s {
            } else if k < s + l {
                assert(group_at(o, k) == 0);
            } else {
                assert(all[k] == gr[k - s - l]);
            }
        }
        lemma_groups_give_address(ip, all);
        assert(is_grouped(t)) by {
            assert forall|i: int| 0 <= i < t.len() implies is_hex(#[trigger] t[i]) || t[i] == COLON by {
                if i < p {
                    assert(t[i] == left[i]);
                } else if i >= p + 2 {
                    assert(t[i] == right[i - p - 2]);
                }
            }
        }
    } else {
        lemma_span_text(o, 0, 8);
        assert(is_first_pair(t, COLON, t.len() as int));
        lemma_first_pair(t, COLON, t.len() as int);
        let g = Seq::new(8nat, |i: int| group_at(o, 0 + i) as u16);
        lemma_groups_give_address(ip, g);
    }
    assert forall|i: int| 0 <= i < t.len() implies t[i] != DOT by {
        assert(is_hex(t[i]) || t[i] == COLON);
    }
    lemma_plain_when_undotted(t);
}

/// The text that an IPv4-mapped address is shown with: `::ffff:` and the
/// dotted text of its last four octets, with a dot in it.
proof fn lemma_mapped_display(o: Seq<u8>)
    requires
        o.len() == 16,
        is_mapped(o),
    ensures
        ipv6_display(o) == mapped_words() + ip_text(v4_from(o.subrange(12, 16))),
        ipv6_display(o).skip(7) == ip_text(v4_from(o.subrange(12, 16))),
        parse_ipv4(ip_text(v4_from(o.subrange(12, 16)))) == Some(v4_from(o.subrange(12, 16))),
        exists|i: int| 0 <= i < ipv6_display(o).len() && ipv6_display(o)[i] == DOT,
        forall|i: int|
            0 <= i < ipv6_display(o).len() ==> is_hex(#[trigger] ipv6_display(o)[i]) || ipv6_display(o)[i]
                == COLON || ipv6_display(o)[i] == DOT,
{
    let v = v4_from(o.subrange(12, 16));
    lemma_v4_from_octets(v);
    lemma_ipv4_round_trip(v);
    let s = o.subrange(12, 16);
    let vo = v.octets();
    assert(vo[0] == s[0] && vo[1] == s[1] && vo[2] == s[2] && vo[3] == s[3]);
    assert(ipv4_text(s) == ipv4_text(vo));
    let t = ipv6_display(o);
    let d = ip_text(v);
    assert(t == mapped_words() + d);
    assert(t.skip(7) =~= d);
    let first = decimal_text(vo[0] as int);
    lemma_decimal_text(vo[0] as int);
    assert(d[first.len() as int] == DOT);
    assert(t[7 + first.len() as int] == DOT);
    assert forall|i: int| 0 <= i < t.len() implies is_hex(#[trigger] t[i]) || t[i] == COLON || t[i]
        == DOT by {
        if i >= 7 {
            assert(t[i] == d[i - 7]);
            assert(is_digit(d[i - 7]) || d[i - 7] == DOT);
        }
    }
}

/// The text that an address is shown with tells the address, and is made
/// of digits, dots and colons alone.
pub proof fn lemma_ip_display_injective(a: IpAddress, b: IpAddress)
    requires
        (a is V4) == (b is V4),
        ip_display(a) == ip_display(b),
    ensures
        a == b,
{
    if a is V4 {
        lemma_ipv4_round_trip(a);
        lemma_ipv4_round_trip(b);
    } else {
        let oa = a.octets();
        let ob = b.octets();
        lemma_v6_from_octets(a);
        lemma_v6_from_octets(b);
        if is_mapped(oa) {
            lemma_mapped_display(oa);
            if is_mapped(ob) {
                lemma_mapped_display(ob);
                let va = v4_from(oa.subrange(12, 16));
                let vb = v4_from(ob.subrange(12, 16));
                assert(va == vb);
                lemma_v4_from_octets(va);
                lemma_v4_from_octets(vb);
                assert(va.octets() == vb.octets());
                assert forall|k: int| 0 <= k < 16 implies oa[k] == ob[k] by {
                    if k < 12 {
                        lemma_group_zero(oa, k / 2);
                        lemma_group_zero(ob, k / 2);
                        assert(group_at(oa, k / 2) == group_at(ob, k / 2));
                    } else {
                        assert(oa[k] == oa.subrange(12, 16)[k - 12]);
                        assert(ob[k] == ob.subrange(12, 16)[k - 12]);
                        assert(va.octets()[k - 12] == oa.subrange(12, 16)[k - 12]);
                        assert(vb.octets()[k - 12] == ob.subrange(12, 16)[k - 12]);
                    }
                }
                assert(a->V6_0@ =~= b->V6_0@);
            } else {
                lemma_ipv6_display_parses(b);
                let i = choose|i: int| 0 <= i < ipv6_display(oa).len() && ipv6_display(oa)[i] == DOT;
                assert(is_hex(ipv6_display(ob)[i]) || ipv6_display(ob)[i] == COLON);
            }
        } else {
            lemma_ipv6_display_parses(a);
            if is_mapped(ob) {
                lemma_mapped_display(ob);
                let i = choose|i: int| 0 <= i < ipv6_display(ob).len() && ipv6_display(ob)[i] == DOT;
                assert(is_hex(ipv6_display(oa)[i]) || ipv6_display(oa)[i] == COLON);
            } else {
                lemma_ipv6_display_parses(b);
            }
        }
    }
}

/// The text that an address is shown with holds no square bracket, and an
/// IPv4 address no colon.
proof fn lemma_ip_display_bytes(ip: IpAddress)
    ensures
        forall|i: int| 0 <= i < ip_display(ip).len() ==> #[trigger] ip_display(ip)[i] != 93,
        ip is V4 ==> forall|i: int| 0 <= i < ip_display(ip).len() ==> #[trigger] ip_display(ip)[i] != COLON,
        ip is V4 ==> ip_display(ip).len() >= 1 && ip_display(ip)[0] != 91,
{
    let t = ip_display(ip);
    if ip is V4 {
        lemma_ipv4_round_trip(ip);
        assert(is_dotted(t));
        assert forall|i: int| 0 <= i < t.len() implies #[trigger] t[i] != 93 && t[i] != COLON by {
            assert(is_digit(t[i]) || t[i] == DOT);
        }
        assert(is_digit(t[0]) || t[0] == DOT);
    } else {
        let o = ip.octets();
        lemma_v6_from_octets(ip);
        if is_mapped(o) {
            lemma_mapped_display(o);
            assert forall|i: int| 0 <= i < t.len() implies #[trigger] t[i] != 93 by {
                assert(is_hex(t[i]) || t[i] == COLON || t[i] == DOT);
            }
        } else {
            lemma_ipv6_display_parses(ip);
            assert forall|i: int| 0 <= i < t.len() implies #[trigger] t[i] != 93 by {
                assert(is_hex(t[i]) || t[i] == COLON);
            }
        }
    }
}

/// The text that an endpoint is shown with tells the endpoint: two
/// endpoints with the same text are the same.
pub proof fn lemma_endpoint_text_injective(a: SocketAddress, b: SocketAddress)
    requires
        endpoint_text(a) == endpoint_text(b),
    ensures
        a == b,
{
    let ta = endpoint_text(a);
    let tb = endpoint_text(b);
    let pa = decimal_text(a.port as int);
    let pb = decimal_text(b.port as int);
    lemma_decimal_text(a.port as int);
    lemma_decimal_text(b.port as int);
    lemma_ip_display_bytes(a.ip);
    lemma_ip_display_bytes(b.ip);
    let ia = ip_display(a.ip);
    let ib = ip_display(b.ip);
    if a.ip is V4 {
        assert(ta[0] == ia[0]);
        if b.ip is V4 {
            lemma_split(ia, COLON, pa);
            lemma_split(ib, COLON, pb);
            assert(ia == ib);
            assert(pa == pb);
        } else {
            assert(tb[0] == 91u8);
        }
    } else {
        assert(ta[0] == 91u8);
        if b.ip is V4 {
            assert(tb[0] == ib[0]);
        } else {
            let xa = seq![91u8] + ia;
            let xb = seq![91u8] + ib;
            let ya = seq![COLON] + pa;
            let yb = seq![COLON] + pb;
            assert(ta =~= xa + seq![93u8] + ya);
            assert(tb =~= xb + seq![93u8] + yb);
            assert forall|i: int| 0 <= i < xa.len() implies xa[i] != 93u8 by {
                if i > 0 {
                    assert(xa[i] == ia[i - 1]);
                }
            }
            assert forall|i: int| 0 <= i < xb.len() implies xb[i] != 93u8 by {
                if i > 0 {
                    assert(xb[i] == ib[i - 1]);
                }
            }
            lemma_split(xa, 93u8, ya);
            lemma_split(xb, 93u8, yb);
            assert(xa == xb);
            assert(ya == yb);
            assert(ia =~= xa.skip(1));
            assert(ib =~= xb.skip(1));
            assert(pa =~= ya.skip(1));
            assert(pb =~= yb.skip(1));
        }
    }
    lemma_ip_display_injective(a.ip, b.ip);
    assert(parse_decimal(pa, 65535) == Some(a.port as int));
    assert(parse_decimal(pb, 65535) == Some(b.port as int));
}

} // verus!
