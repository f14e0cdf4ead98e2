//! IP addresses as plain values: parsing from text, the admissibility
//! filter of the aggregation phase, and the canonical textual form used on
//! output lines. IPv4 addresses are four octets; IPv6 addresses are eight
//! 16-bit groups, written as colon-separated hexadecimal numerals with one
//! optional `::` gap and an optional embedded dotted quad in the last two
//! groups.

use vstd::prelude::*;

use crate::strutil::{
    contains_char, dec_of, dec_val, find_char, hex_of, is_dec_digit, push_dec, push_hex,
    split_at_seps, split_str, views_of,
};

verus! {

/// An IP address: four octets, or eight 16-bit groups.
#[derive(Clone, Copy, Debug, PartialEq, Eq, Structural)]
pub enum Ip {
    V4(u8, u8, u8, u8),
    V6(u16, u16, u16, u16, u16, u16, u16, u16),
}

/// Whether `p` is one piece of a dotted quad: one to three decimal digits,
/// no leading zero, value at most 255.
pub open spec fn is_quad_piece(p: Seq<char>) -> bool {
    1 <= p.len() <= 3 && (forall|j: int| 0 <= j < p.len() ==> is_dec_digit(#[trigger] p[j])) && (
    p.len() > 1 ==> p[0] != '0') && dec_val(p) <= 255
}

/// What parsing a dotted quad yields: four dot-separated octet numerals.
pub open spec fn spec_ipv4(s: Seq<char>) -> Option<(u8, u8, u8, u8)> {
    let ps = split_at_seps(s, '.');
    if ps.len() == 4 && is_quad_piece(ps[0]) && is_quad_piece(ps[1]) && is_quad_piece(ps[2])
        && is_quad_piece(ps[3]) {
        Some(
            (
                dec_val(ps[0]) as u8,
                dec_val(ps[1]) as u8,
                dec_val(ps[2]) as u8,
                dec_val(ps[3]) as u8,
            ),
        )
    } else {
        None
    }
}

/// Reads one octet of a dotted quad.
fn parse_quad_piece(p: &str) -> (r: Option<u8>)
    ensures
        match r {
            Option::Some(v) => is_quad_piece(p@) && v == dec_val(p@),
            Option::None => !is_quad_piece(p@),
        },
{
    let n = p.unicode_len();
    if n == 0 || n > 3 {
        return None;
    }
    if n > 1 && p.get_char(0) == '0' {
        return None;
    }
    let mut acc: u32 = 0;
    let mut i: usize = 0;
    while i < n
        invariant
            i <= n,
            1 <= n <= 3,
            n == p@.len(),
            forall|j: int| 0 <= j < i ==> is_dec_digit(#[trigger] p@[j]),
            acc == dec_val(p@.subrange(0, i as int)),
            i == 0 ==> acc == 0,
            i == 1 ==> acc <= 9,
            i == 2 ==> acc <= 99,
            i == 3 ==> acc <= 999,
        decreases n - i,
    {
        let c = p.get_char(i);
        let cu = c as u32;
        if !(48 <= cu && cu <= 57) {
            proof {
                assert(!is_dec_digit(p@[i as int]));
            }
            return None;
        }
        proof {
            assert(p@.subrange(0, i + 1).drop_last() =~= p@.subrange(0, i as int));
            assert(p@.subrange(0, i + 1).last() == p@[i as int]);
        }
        acc = acc * 10 + (cu - 48);
        i += 1;
    }
    proof {
        assert(p@.subrange(0, n as int) =~= p@);
    }
    if acc > 255 {
        return None;
    }
    Some(acc as u8)
}

/// Reads a dotted quad.
pub fn parse_ipv4(s: &str) -> (r: Option<(u8, u8, u8, u8)>)
    ensures
        r == spec_ipv4(s@),
{
    let ps = split_str(s, '.');
    proof {
        assert(views_of(ps@).len() == ps@.len());
    }
    if ps.len() != 4 {
        return None;
    }
    proof {
        assert(views_of(ps@)[0] == ps@[0]@);
        assert(views_of(ps@)[1] == ps@[1]@);
        assert(views_of(ps@)[2] == ps@[2]@);
        assert(views_of(ps@)[3] == ps@[3]@);
    }
    let a = match parse_quad_piece(ps[0].as_str()) {
        Some(v) => v,
        None => {
            return None;
        },
    };
    let b = match parse_quad_piece(ps[1].as_str()) {
        Some(v) => v,
        None => {
            return None;
        },
    };
    let c = match parse_quad_piece(ps[2].as_str()) {
        Some(v) => v,
        None => {
            return None;
        },
    };
    let d = match parse_quad_piece(ps[3].as_str()) {
        Some(v) => v,
        None => {
            return None;
        },
    };
    Some((a, b, c, d))
}

/// Whether `c` is a hexadecimal digit, of either case.
pub open spec fn is_hex_digit(c: char) -> bool {
    (48 <= c as int <= 57) || (97 <= c as int <= 102) || (65 <= c as int <= 70)
}

/// The numeric value of the hexadecimal digit `c`.
pub open spec fn hex_digit_val(c: char) -> int {
    if 48 <= c as int <= 57 {
        c as int - 48
    } else if 97 <= c as int <= 102 {
        c as int - 87
    } else {
        c as int - 55
    }
}

/// The value of the hexadecimal digit string `s`, most significant first.
pub open spec fn hex_val(s: Seq<char>) -> int
    decreases s.len(),
{
    if s.len() == 0 {
        0
    } else {
        hex_val(s.drop_last()) * 16 + hex_digit_val(s.last())
    }
}

/// Whether `p` is one hexadecimal group of an IPv6 address: one to four
/// hexadecimal digits.
pub open spec fn is_hex_piece(p: Seq<char>) -> bool {
    1 <= p.len() <= 4 && forall|j: int| 0 <= j < p.len() ==> is_hex_digit(#[trigger] p[j])
}

/// The group values of a piece list in which every piece must be a
/// hexadecimal group.
pub open spec fn groups_of(ps: Seq<Seq<char>>) -> Option<Seq<u16>>
    decreases ps.len(),
{
    if ps.len() == 0 {
        Some(Seq::empty())
    } else if is_hex_piece(ps[0]) {
        match groups_of(ps.drop_first()) {
            Option::Some(g) => Some(seq![hex_val(ps[0]) as u16] + g),
            Option::None => None,
        }
    } else {
        None
    }
}

/// The group values of the trailing piece list of an IPv6 address: as
/// [`groups_of`], except that a last piece containing a dot must be a
/// dotted quad and contributes the two groups of its four octets.
pub open spec fn tail_groups_of(ps: Seq<Seq<char>>) -> Option<Seq<u16>> {
    if ps.len() == 0 {
        Some(Seq::empty())
    } else if find_char(ps.last(), '.') >= 0 {
        match groups_of(ps.drop_last()) {
            Option::Some(g) => match spec_ipv4(ps.last()) {
                Option::Some(q) => Some(
                    g + seq![
                        ((q.0 as int) * 256 + (q.1 as int)) as u16,
                        ((q.2 as int) * 256 + (q.3 as int)) as u16,
                    ],
                ),
                Option::None => None,
            },
            Option::None => None,
        }
    } else {
        groups_of(ps)
    }
}

/// The group values of one side of the `::` gap (or, with `tail`, of a
/// whole gapless address). An empty side has no groups.
pub open spec fn side_groups(t: Seq<char>, tail: bool) -> Option<Seq<u16>> {
    if t.len() == 0 {
        Some(Seq::empty())
    } else if tail {
        tail_groups_of(split_at_seps(t, ':'))
    } else {
        groups_of(split_at_seps(t, ':'))
    }
}

/// Index of the first `::` in `s`, or `-1` when there is none.
pub open spec fn find_gap(s: Seq<char>) -> int
    decreases s.len(),
{
    if s.len() < 2 {
        -1
    } else if s[0] == ':' && s[1] == ':' {
        0
    } else if find_gap(s.drop_first()) < 0 {
        -1
    } else {
        find_gap(s.drop_first()) + 1
    }
}

/// `find_gap` returns either `-1` (and no `::` occurs) or the position of
/// the first `::`.
pub proof fn lemma_find_gap(s: Seq<char>)
    ensures
        find_gap(s) >= 0 ==> find_gap(s) + 1 < s.len() && s[find_gap(s)] == ':' && s[find_gap(s)
            + 1] == ':' && (forall|j: int|
            0 <= j < find_gap(s) ==> !((#[trigger] s[j]) == ':' && s[j + 1] == ':')),
        find_gap(s) < 0 ==> forall|j: int| 0 <= j < s.len() - 1 ==> !((#[trigger] s[j]) == ':' && s[j + 1] == ':'),
    decreases s.len(),
{
    if s.len() >= 2 && !(s[0] == ':' && s[1] == ':') {
        let t = s.drop_first();
        lemma_find_gap(t);
        let ft = find_gap(t);
        if ft >= 0 {
            assert(s[ft + 1] == t[ft]);
            assert(s[ft + 2] == t[ft + 1]);
            assert forall|j: int| 0 <= j < find_gap(s) implies !((#[trigger] s[j]) == ':' && s[j + 1] == ':') by {
                if j > 0 {
                    assert(s[j] == t[j - 1]);
                    assert(s[j + 1] == t[j]);
                }
            }
        } else {
            assert forall|j: int| 0 <= j < s.len() - 1 implies !((#[trigger] s[j]) == ':' && s[j + 1] == ':') by {
                if j > 0 {
                    assert(s[j] == t[j - 1]);
                    assert(s[j + 1] == t[j]);
                }
            }
        }
    }
}

/// If the first `::` of `s` stands at `k`, then `find_gap` returns `k`.
pub proof fn lemma_find_gap_at(s: Seq<char>, k: int)
    requires
        0 <= k,
        k + 1 < s.len(),
        s[k] == ':',
        s[k + 1] == ':',
        forall|j: int| 0 <= j < k ==> !((#[trigger] s[j]) == ':' && s[j + 1] == ':'),
    ensures
        find_gap(s) == k,
    decreases s.len(),
{
    if k > 0 {
        let t = s.drop_first();
        assert(t[k - 1] == s[k]);
        assert(t[k] == s[k + 1]);
        assert forall|j: int| 0 <= j < k - 1 implies !((#[trigger] t[j]) == ':' && t[j + 1] == ':') by {
            assert(t[j] == s[j + 1]);
            assert(t[j + 1] == s[j + 2]);
        }
        lemma_find_gap_at(t, k - 1);
    }
}

/// The number `n` of all-zero groups.
pub open spec fn zero_groups(n: int) -> Seq<u16> {
    Seq::new(n as nat, |i| 0u16)
}

/// What parsing an IPv6 address yields: with a `::` gap, the groups of
/// both sides with zeros between them (at most seven explicit groups);
/// without one, exactly eight groups. Only the trailing side may end in an
/// embedded dotted quad.
pub open spec fn spec_v6_groups(s: Seq<char>) -> Option<Seq<u16>> {
    let gp = find_gap(s);
    if gp >= 0 {
        match side_groups(s.subrange(0, gp), false) {
            Option::Some(l) => match side_groups(s.subrange(gp + 2, s.len() as int), true) {
                Option::Some(r) => if l.len() + r.len() <= 7 {
                    Some(l + zero_groups(8 - l.len() - r.len()) + r)
                } else {
                    None
                },
                Option::None => None,
            },
            Option::None => None,
        }
    } else {
        match side_groups(s, true) {
            Option::Some(g) => if g.len() == 8 {
                Some(g)
            } else {
                None
            },
            Option::None => None,
        }
    }
}

/// What parsing an IPv6 address yields, as an [`Ip`].
pub open spec fn spec_ipv6(s: Seq<char>) -> Option<Ip> {
    match spec_v6_groups(s) {
        Option::Some(g) => Some(Ip::V6(g[0], g[1], g[2], g[3], g[4], g[5], g[6], g[7])),
        Option::None => None,
    }
}

/// Reads one hexadecimal group.
fn parse_hex_piece(p: &str) -> (r: Option<u16>)
    ensures
        match r {
            Option::Some(v) => is_hex_piece(p@) && v == hex_val(p@),
            Option::None => !is_hex_piece(p@),
        },
{
    let n = p.unicode_len();
    if n == 0 || n > 4 {
        return None;
    }
    let mut acc: u32 = 0;
    let mut i: usize = 0;
    while i < n
        invariant
            i <= n,
            1 <= n <= 4,
            n == p@.len(),
            forall|j: int| 0 <= j < i ==> is_hex_digit(#[trigger] p@[j]),
            acc == hex_val(p@.subrange(0, i as int)),
            i == 0 ==> acc == 0,
            i == 1 ==> acc <= 15,
            i == 2 ==> acc <= 255,
            i == 3 ==> acc <= 4095,
            i == 4 ==> acc <= 65535,
        decreases n - i,
    {
        let c = p.get_char(i);
        let cu = c as u32;
        let d: u32;
        if 48 <= cu && cu <= 57 {
            d = cu - 48;
        } else if 97 <= cu && cu <= 102 {
            d = cu - 87;
        } else if 65 <= cu && cu <= 70 {
            d = cu - 55;
        } else {
            proof {
                assert(!is_hex_digit(p@[i as int]));
            }
            return None;
        }
        proof {
            assert(p@.subrange(0, i + 1).drop_last() =~= p@.subrange(0, i as int));
            assert(p@.subrange(0, i + 1).last() == p@[i as int]);
        }
        acc = acc * 16 + d;
        i += 1;
    }
    proof {
        assert(p@.subrange(0, n as int) =~= p@);
    }
    Some(acc as u16)
}

/// Reads the first `k` pieces as hexadecimal groups.
fn parse_hex_groups(ps: &Vec<String>, k: usize) -> (r: Option<Vec<u16>>)
    requires
        k <= ps@.len(),
    ensures
        match r {
            Option::Some(g) => groups_of(views_of(ps@).take(k as int)) == Some(g@),
            Option::None => groups_of(views_of(ps@).take(k as int)) is None,
        },
{
    let ghost all = views_of(ps@).take(k as int);
    let mut g: Vec<u16> = Vec::new();
    let mut i: usize = 0;
    proof {
        assert(all.skip(0) =~= all);
        match groups_of(all) {
            Option::Some(t) => {
                assert(g@ + t =~= t);
            },
            Option::None => {},
        }
    }
    while i < k
        invariant
            i <= k,
            k <= ps@.len(),
            all == views_of(ps@).take(k as int),
            groups_of(all) == match groups_of(all.skip(i as int)) {
                Option::Some(t) => Some(g@ + t),
                Option::None => None::<Seq<u16>>,
            },
        decreases k - i,
    {
        let ghost rest = all.skip(i as int);
        proof {
            assert(rest[0] == views_of(ps@)[i as int]);
            assert(views_of(ps@)[i as int] == ps@[i as int]@);
        }
        match parse_hex_piece(ps[i].as_str()) {
            None => {
                return None;
            },
            Some(v) => {
                let ghost g0 = g@;
                g.push(v);
                proof {
                    assert(rest.drop_first() =~= all.skip(i as int + 1));
                    match groups_of(all.skip(i as int + 1)) {
                        Option::Some(t) => {
                            assert(g0 + (seq![v] + t) =~= g@ + t);
                        },
                        Option::None => {},
                    }
                }
            },
        }
        i += 1;
    }
    proof {
        assert(all.skip(k as int).len() == 0);
        assert(groups_of(all.skip(k as int)) == Some(Seq::<u16>::empty()));
        assert(g@ + Seq::<u16>::empty() =~= g@);
    }
    Some(g)
}

/// Reads one side of the `::` gap (or a whole gapless address with `tail`).
fn parse_side(t: &str, tail: bool) -> (r: Option<Vec<u16>>)
    ensures
        match r {
            Option::Some(g) => side_groups(t@, tail) == Some(g@),
            Option::None => side_groups(t@, tail) is None,
        },
{
    let n = t.unicode_len();
    if n == 0 {
        let g: Vec<u16> = Vec::new();
        proof {
            assert(g@ =~= Seq::<u16>::empty());
        }
        return Some(g);
    }
    let ps = split_str(t, ':');
    let ghost pv = views_of(ps@);
    let k = ps.len();
    proof {
        assert(pv.len() == ps@.len());
        assert(pv.len() >= 1);
    }
    if tail && contains_char(ps[k - 1].as_str(), '.') {
        proof {
            assert(pv[k - 1] == ps@[k - 1]@);
            assert(pv.last() == pv[k - 1]);
        }
        match parse_hex_groups(&ps, k - 1) {
            None => {
                proof {
                    assert(pv.drop_last() =~= pv.take(k - 1));
                }
                return None;
            },
            Some(mut g) => {
                proof {
                    assert(pv.drop_last() =~= pv.take(k - 1));
                }
                match parse_ipv4(ps[k - 1].as_str()) {
                    None => {
                        return None;
                    },
                    Some((a, b, c, d)) => {
                        let ghost g0 = g@;
                        let hi = (a as u16) * 256 + (b as u16);
                        let lo = (c as u16) * 256 + (d as u16);
                        g.push(hi);
                        g.push(lo);
                        proof {
                            assert(g@ =~= g0 + seq![hi, lo]);
                        }
                        return Some(g);
                    },
                }
            },
        }
    }
    if tail {
        proof {
            assert(pv[k - 1] == ps@[k - 1]@);
            assert(pv.last() == pv[k - 1]);
        }
    }
    let r = parse_hex_groups(&ps, k);
    proof {
        assert(pv.take(k as int) =~= pv);
    }
    r
}

/// Reads an IPv6 address.
pub fn parse_ipv6(s: &str) -> (r: Option<Ip>)
    ensures
        r == spec_ipv6(s@),
{
    let n = s.unicode_len();
    let mut found = false;
    let mut gp: usize = 0;
    let mut i: usize = 0;
    while !found && n > 0 && i < n - 1
        invariant
            n == s@.len(),
            i <= n,
            !found ==> forall|j: int| 0 <= j < i ==> !((#[trigger] s@[j]) == ':' && s@[j + 1] == ':'),
            found ==> gp as int + 1 < n && s@[gp as int] == ':' && s@[gp as int + 1] == ':' && (
            forall|j: int| 0 <= j < gp ==> !((#[trigger] s@[j]) == ':' && s@[j + 1] == ':')),
        decreases n - i,
    {
        if s.get_char(i) == ':' && s.get_char(i + 1) == ':' {
            gp = i;
            found = true;
        }
        i += 1;
    }
    if found {
        proof {
            lemma_find_gap_at(s@, gp as int);
        }
        let left = s.substring_char(0, gp);
        let right = s.substring_char(gp + 2, n);
        match parse_side(left, false) {
            None => None,
            Some(mut l) => match parse_side(right, true) {
                None => None,
                Some(mut r) => {
                    if l.len() <= 7 && r.len() <= 7 - l.len() {
                        let ghost l0 = l@;
                        let ghost r0 = r@;
                        let zn = 8 - l.len() - r.len();
                        let mut z: usize = 0;
                        while z < zn
                            invariant
                                z <= zn,
                                l@ == l0 + zero_groups(z as int),
                            decreases zn - z,
                        {
                            l.push(0);
                            proof {
                                assert(l@ =~= l0 + zero_groups(z as int + 1));
                            }
                            z += 1;
                        }
                        l.append(&mut r);
                        proof {
                            assert(l@ == (l0 + zero_groups(zn as int)) + r0);
                            assert(l@ =~= l0 + zero_groups(zn as int) + r0);
                            assert(l@.len() == 8);
                        }
                        Some(
                            Ip::V6(l[0], l[1], l[2], l[3], l[4], l[5], l[6], l[7]),
                        )
                    } else {
                        None
                    }
                },
            },
        }
    } else {
        proof {
            if find_gap(s@) >= 0 {
                lemma_find_gap(s@);
            }
        }
        match parse_side(s, true) {
            None => None,
            Some(g) => {
                if g.len() == 8 {
                    Some(Ip::V6(g[0], g[1], g[2], g[3], g[4], g[5], g[6], g[7]))
                } else {
                    None
                }
            },
        }
    }
}

/// What parsing an IP string yields: a dotted quad, or an IPv6 address.
pub open spec fn spec_parse_ip(s: Seq<char>) -> Option<Ip> {
    match spec_ipv4(s) {
        Option::Some(q) => Some(Ip::V4(q.0, q.1, q.2, q.3)),
        Option::None => spec_ipv6(s),
    }
}

/// Reads an IP address of either family from its textual form.
pub fn parse_ip(s: &str) -> (r: Option<Ip>)
    ensures
        r == spec_parse_ip(s@),
{
    match parse_ipv4(s) {
        Some((a, b, c, d)) => Some(Ip::V4(a, b, c, d)),
        None => parse_ipv6(s),
    }
}

/// The private IPv4 ranges `10/8`, `172.16/12` and `192.168/16`.
pub open spec fn v4_is_private(a: u8, b: u8) -> bool {
    a == 10 || (a == 172 && 16 <= b < 32) || (a == 192 && b == 168)
}

/// The IPv4 loopback range `127/8`.
pub open spec fn v4_is_loopback(a: u8) -> bool {
    a == 127
}

/// The IPv4 broadcast address `255.255.255.255`.
pub open spec fn v4_is_broadcast(a: u8, b: u8, c: u8, d: u8) -> bool {
    a == 255 && b == 255 && c == 255 && d == 255
}

/// The IPv4 multicast range `224/4`.
pub open spec fn v4_is_multicast(a: u8) -> bool {
    224 <= a < 240
}

/// The unspecified IPv4 address `0.0.0.0`.
pub open spec fn v4_is_unspecified(a: u8, b: u8, c: u8, d: u8) -> bool {
    a == 0 && b == 0 && c == 0 && d == 0
}

/// The IPv4 documentation ranges `192.0.2/24`, `198.51.100/24` and
/// `203.0.113/24`.
pub open spec fn v4_is_documentation(a: u8, b: u8, c: u8) -> bool {
    (a == 192 && b == 0 && c == 2) || (a == 198 && b == 51 && c == 100) || (a == 203 && b == 0
        && c == 113)
}

/// The IPv4 link-local range `169.254/16`.
pub open spec fn v4_is_link_local(a: u8, b: u8) -> bool {
    a == 169 && b == 254
}

/// The unspecified IPv6 address `::`.
pub open spec fn v6_is_unspecified(ip: Ip) -> bool {
    ip == Ip::V6(0u16, 0u16, 0u16, 0u16, 0u16, 0u16, 0u16, 0u16)
}

/// The IPv6 loopback address `::1`.
pub open spec fn v6_is_loopback(ip: Ip) -> bool {
    ip == Ip::V6(0u16, 0u16, 0u16, 0u16, 0u16, 0u16, 0u16, 1u16)
}

/// The IPv6 multicast range `ff00/8`: the first group opens with the byte
/// `0xff`.
pub open spec fn v6_is_multicast(s0: u16) -> bool {
    s0 >= 0xff00
}

/// The admissibility filter: an IPv4 address may appear in the output
/// unless it is private, loopback, broadcast, multicast, unspecified,
/// reserved for documentation or link-local; an IPv6 address unless it is
/// unspecified, loopback or multicast.
pub open spec fn spec_ip_allow(ip: Ip) -> bool {
    match ip {
        Ip::V4(a, b, c, d) => !(v4_is_private(a, b) || v4_is_loopback(a) || v4_is_broadcast(
            a,
            b,
            c,
            d,
        ) || v4_is_multicast(a) || v4_is_unspecified(a, b, c, d) || v4_is_documentation(a, b, c)
            || v4_is_link_local(a, b)),
        Ip::V6(s0, s1, s2, s3, s4, s5, s6, s7) => !(v6_is_unspecified(ip) || v6_is_loopback(ip)
            || v6_is_multicast(s0)),
    }
}

/// The canonical text of an IPv4 address: the four octets in decimal,
/// joined by dots.
pub open spec fn v4_str(a: u8, b: u8, c: u8, d: u8) -> Seq<char> {
    dec_of(a as int) + seq!['.'] + dec_of(b as int) + seq!['.'] + dec_of(c as int) + seq!['.']
        + dec_of(d as int)
}

/// Appends the canonical text of an IPv4 address to `out`.
fn push_ipv4(out: &mut String, a: u8, b: u8, c: u8, d: u8)
    ensures
        final(out)@ == old(out)@ + v4_str(a, b, c, d),
{
    let ghost o0 = out@;
    push_dec(out, a as u64);
    out.append(".");
    push_dec(out, b as u64);
    out.append(".");
    push_dec(out, c as u64);
    out.append(".");
    push_dec(out, d as u64);
    proof {
        reveal_strlit(".");
        assert("."@ =~= seq!['.']);
        assert(out@ =~= o0 + v4_str(a, b, c, d));
    }
}

/// The length of the run of zero groups opening at `i`.
pub open spec fn run_len(g: Seq<u16>, i: int) -> int
    decreases g.len() - i,
{
    if i < 0 || i >= g.len() || g[i] != 0 {
        0
    } else {
        1 + run_len(g, i + 1)
    }
}

/// The start of the best run of zero groups in `g` at or after `i`: the
/// leftmost among the longest.
pub open spec fn best_start(g: Seq<u16>, i: int) -> int
    decreases g.len() - i,
{
    if i < 0 || i >= g.len() {
        i
    } else {
        let b = best_start(g, i + 1);
        if run_len(g, i) >= run_len(g, b) {
            i
        } else {
            b
        }
    }
}

/// The group range `[from, to)` in lower-case hexadecimal, joined by
/// colons.
pub open spec fn groups_str(g: Seq<u16>, from: int, to: int) -> Seq<char>
    decreases to - from,
{
    if from >= to {
        Seq::empty()
    } else if from == to - 1 {
        hex_of(g[from] as int)
    } else {
        hex_of(g[from] as int) + seq![':'] + groups_str(g, from + 1, to)
    }
}

/// The canonical text of an IPv6 address: an IPv4-mapped address is
/// written `::ffff:` followed by the dotted quad; any other address is
/// written as its eight groups with the leftmost longest run of at least
/// two zero groups compressed to `::`.
pub open spec fn v6_str(
    s0: u16,
    s1: u16,
    s2: u16,
    s3: u16,
    s4: u16,
    s5: u16,
    s6: u16,
    s7: u16,
) -> Seq<char> {
    if s0 == 0 && s1 == 0 && s2 == 0 && s3 == 0 && s4 == 0 && s5 == 0xffff {
        seq![':', ':', 'f', 'f', 'f', 'f', ':'] + v4_str(
            (s6 as int / 256) as u8,
            (s6 as int % 256) as u8,
            (s7 as int / 256) as u8,
            (s7 as int % 256) as u8,
        )
    } else {
        let g = seq![s0, s1, s2, s3, s4, s5, s6, s7];
        let bs = best_start(g, 0);
        let bl = run_len(g, bs);
        if bl >= 2 {
            groups_str(g, 0, bs) + seq![':', ':'] + groups_str(g, bs + bl, 8)
        } else {
            groups_str(g, 0, 8)
        }
    }
}

/// The canonical text of an address, as it appears on an output line.
pub open spec fn ip_str(ip: Ip) -> Seq<char> {
    match ip {
        Ip::V4(a, b, c, d) => v4_str(a, b, c, d),
        Ip::V6(s0, s1, s2, s3, s4, s5, s6, s7) => v6_str(s0, s1, s2, s3, s4, s5, s6, s7),
    }
}

/// Computes the length of the run of zero groups opening at `i`.
fn run_len_at(g: &Vec<u16>, i: usize) -> (r: usize)
    requires
        i <= g@.len(),
    ensures
        r == run_len(g@, i as int),
        r <= g@.len() - i,
    decreases g@.len() - i,
{
    if i == g.len() {
        return 0;
    }
    if *vstd::std_specs::vec::vec_index(g, i) != 0 {
        return 0;
    }
    1 + run_len_at(g, i + 1)
}

/// Computes the start of the best run of zero groups at or after `i`.
fn best_start_at(g: &Vec<u16>, i: usize) -> (r: usize)
    requires
        i <= g@.len(),
    ensures
        r == best_start(g@, i as int),
        i <= r <= g@.len(),
    decreases g@.len() - i,
{
    if i == g.len() {
        return i;
    }
    let b = best_start_at(g, i + 1);
    if run_len_at(g, i) >= run_len_at(g, b) {
        i
    } else {
        b
    }
}

/// Appends the group range `[from, to)` to `out`.
fn push_groups(out: &mut String, g: &Vec<u16>, from: usize, to: usize)
    requires
        from <= to <= g@.len(),
    ensures
        final(out)@ == old(out)@ + groups_str(g@, from as int, to as int),
    decreases to - from,
{
    let ghost o0 = out@;
    if from >= to {
        proof {
            assert(out@ =~= o0 + groups_str(g@, from as int, to as int));
        }
        return ;
    }
    push_hex(out, *vstd::std_specs::vec::vec_index(g, from) as u64);
    if from + 1 < to {
        out.append(":");
        push_groups(out, g, from + 1, to);
        proof {
            reveal_strlit(":");
            assert(":"@ =~= seq![':']);
            assert(out@ =~= o0 + groups_str(g@, from as int, to as int));
        }
    }
}

/// Renders the canonical text of an address.
pub fn ip_text(ip: &Ip) -> (r: String)
    ensures
        r@ == ip_str(*ip),
{
    match *ip {
        Ip::V4(a, b, c, d) => {
            let mut out = String::new();
            push_ipv4(&mut out, a, b, c, d);
            proof {
                assert(out@ =~= v4_str(a, b, c, d));
            }
            out
        },
        Ip::V6(s0, s1, s2, s3, s4, s5, s6, s7) => {
            if s0 == 0 && s1 == 0 && s2 == 0 && s3 == 0 && s4 == 0 && s5 == 0xffff {
                let mut out = String::from_str("::ffff:");
                push_ipv4(
                    &mut out,
                    (s6 / 256) as u8,
                    (s6 % 256) as u8,
                    (s7 / 256) as u8,
                    (s7 % 256) as u8,
                );
                proof {
                    reveal_strlit("::ffff:");
                    assert(out@ =~= v6_str(s0, s1, s2, s3, s4, s5, s6, s7));
                }
                out
            } else {
                let mut g: Vec<u16> = Vec::new();
                g.push(s0);
                g.push(s1);
                g.push(s2);
                g.push(s3);
                g.push(s4);
                g.push(s5);
                g.push(s6);
                g.push(s7);
                proof {
                    assert(g@ =~= seq![s0, s1, s2, s3, s4, s5, s6, s7]);
                }
                let bs = best_start_at(&g, 0);
                let bl = run_len_at(&g, bs);
                let mut out = String::new();
                if bl >= 2 {
                    push_groups(&mut out, &g, 0, bs);
                    out.append("::");
                    push_groups(&mut out, &g, bs + bl, 8);
                    proof {
                        reveal_strlit("::");
                        assert("::"@ =~= seq![':', ':']);
                        assert(out@ =~= v6_str(s0, s1, s2, s3, s4, s5, s6, s7));
                    }
                } else {
                    push_groups(&mut out, &g, 0, 8);
                    proof {
                        assert(out@ =~= v6_str(s0, s1, s2, s3, s4, s5, s6, s7));
                    }
                }
                out
            }
        },
    }
}

/// Decides whether an address passes the admissibility filter.
pub fn ip_allow(ip: &Ip) -> (r: bool)
    ensures
        r == spec_ip_allow(*ip),
{
    match *ip {
        Ip::V4(a, b, c, d) => {
            let private = a == 10 || (a == 172 && 16 <= b && b < 32) || (a == 192 && b == 168);
            let loopback = a == 127;
            let broadcast = a == 255 && b == 255 && c == 255 && d == 255;
            let multicast = 224 <= a && a < 240;
            let unspecified = a == 0 && b == 0 && c == 0 && d == 0;
            let documentation = (a == 192 && b == 0 && c == 2) || (a == 198 && b == 51 && c
                == 100) || (a == 203 && b == 0 && c == 113);
            let link_local = a == 169 && b == 254;
            !(private || loopback || broadcast || multicast || unspecified || documentation
                || link_local)
        },
        Ip::V6(s0, s1, s2, s3, s4, s5, s6, s7) => {
            let unspecified = s0 == 0 && s1 == 0 && s2 == 0 && s3 == 0 && s4 == 0 && s5 == 0 && s6
                == 0 && s7 == 0;
            let loopback = s0 == 0 && s1 == 0 && s2 == 0 && s3 == 0 && s4 == 0 && s5 == 0 && s6
                == 0 && s7 == 1;
            let multicast = s0 >= 0xff00;
            !(unspecified || loopback || multicast)
        },
    }
}

} // verus!
