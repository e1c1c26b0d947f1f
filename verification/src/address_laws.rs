//! What addresses, ranges and ports in text come to, number by number.

use crate::cidr::{cidr_value, Cidr};
use crate::ip::{
    gap_from, group_value, groups_value, ip_less, ip_text, ip_value, ipv4_text, ipv4_value,
    ipv6_groups, lemma_colon_not_v4, lemma_gap_is, lemma_gap_none, lemma_longest_zeros,
    lemma_not_v4, lemma_octets, lemma_wide_groups, lemma_wide_limit_8, lemma_wide_value_bound,
    lemma_zeros_from, longest_zeros, octet_value, side_groups, socket_v4_value, socket_value,
    wide_groups, wide_value, zeros, zeros_from, IpAddress, SocketAddress,
};
use crate::number::{
    all_digits, decimal_text, digits_value, is_digit, lemma_digits_nonnegative, lemma_number_text,
    number_text, number_value, unsigned_value,
};
use crate::number_laws::{is_hex, law_decimal_digits, law_decimal_text, law_hex_digits};
use crate::text::{join, lemma_split_join, split, split_once};
use crate::text_laws::{law_split, law_split_once};
use vstd::arithmetic::power2::{lemma2_to64, lemma_pow2_adds, pow2};
use vstd::bits::{lemma_u128_shr_is_div, lemma_u32_shr_is_div};
use vstd::prelude::*;

verus! {

/// Four numbers with dots between them.
pub open spec fn dotted(a: int, b: int, c: int, d: int) -> Seq<char> {
    decimal_text(a) + seq!['.'] + decimal_text(b) + seq!['.'] + decimal_text(c) + seq!['.']
        + decimal_text(d)
}

proof fn lemma_dotted(a: int, b: int, c: int, d: int)
    ensures
        join(
            seq![decimal_text(a), decimal_text(b), decimal_text(c), decimal_text(d)],
            seq!['.'],
        ) == dotted(a, b, c, d),
{
    let p = seq![decimal_text(a), decimal_text(b), decimal_text(c), decimal_text(d)];
    let dot = seq!['.'];
    assert(p.skip(1) =~= seq![p[1], p[2], p[3]]);
    assert(seq![p[1], p[2], p[3]].skip(1) =~= seq![p[2], p[3]]);
    assert(seq![p[2], p[3]].skip(1) =~= seq![p[3]]);
    assert(join(seq![p[3]], dot) == p[3]);
    assert(join(seq![p[2], p[3]], dot) == p[2] + dot + p[3]);
    assert(join(seq![p[1], p[2], p[3]], dot) == p[1] + dot + (p[2] + dot + p[3]));
    assert(join(p, dot) =~= dotted(a, b, c, d));
}

proof fn lemma_octet_text(p: Seq<char>)
    requires
        octet_value(p) is Some,
    ensures
        0 <= octet_value(p)->0 <= 255,
        p == decimal_text(octet_value(p)->0),
{
    let v = octet_value(p)->0;
    law_decimal_digits(p, '0');
    law_decimal_text(v, p);
}

/// A version four address is written as its four bytes in decimal, the highest first, with
/// dots between them; and no other text reads as it.
pub proof fn law_ipv4_text(s: Seq<char>, a: u8, b: u8, c: u8, d: u8)
    ensures
        ({
            let v = a * 16777216 + b * 65536 + c * 256 + d;
            &&& ip_text(IpAddress::V4(v as u32)) == dotted(a as int, b as int, c as int, d as int)
            &&& ip_value(s) == Some(IpAddress::V4(v as u32)) <==> s == dotted(
                a as int,
                b as int,
                c as int,
                d as int,
            )
        }),
{
    let v = a * 16777216 + b * 65536 + c * 256 + d;
    let ip = IpAddress::V4(v as u32);
    lemma_octet_quotients(a as int, b as int, c as int, d as int);
    lemma_dotted(a as int, b as int, c as int, d as int);
    assert(ip_text(ip) == dotted(a as int, b as int, c as int, d as int));
    crate::ip::law_ip_text_reads_back(ip);
    if ip_value(s) == Some(ip) {
        lemma_ipv4_has_one_text(s);
        assert(ipv4_value(s) == Some(v as int));
    }
}

proof fn lemma_octet_quotients(a: int, b: int, c: int, d: int)
    requires
        0 <= a <= 255,
        0 <= b <= 255,
        0 <= c <= 255,
        0 <= d <= 255,
    ensures
        ({
            let v = a * 16777216 + b * 65536 + c * 256 + d;
            &&& 0 <= v <= u32::MAX
            &&& v / 16777216 == a
            &&& v / 65536 % 256 == b
            &&& v / 256 % 256 == c
            &&& v % 256 == d
        }),
{
    let v = a * 16777216 + b * 65536 + c * 256 + d;
    let q1 = a * 65536 + b * 256 + c;
    let q2 = a * 256 + b;
    assert(v == q1 * 256 + d);
    assert(v / 256 == q1 && v % 256 == d);
    assert(q1 == q2 * 256 + c);
    assert(q1 % 256 == c);
    assert(v == q2 * 65536 + (c * 256 + d));
    assert(v / 65536 == q2);
    assert(q2 % 256 == b);
    assert(v == a * 16777216 + (b * 65536 + c * 256 + d));
    assert(v / 16777216 == a);
}

#[verifier::spinoff_prover]
proof fn lemma_ipv4_has_one_text(s: Seq<char>)
    requires
        ipv4_value(s) is Some,
    ensures
        0 <= ipv4_value(s)->0 <= u32::MAX,
        s == ipv4_text(ipv4_value(s)->0),
{
    let p = split(s, '.');
    law_split(s, '.');
    lemma_octet_text(p[0]);
    lemma_octet_text(p[1]);
    lemma_octet_text(p[2]);
    lemma_octet_text(p[3]);
    let a = octet_value(p[0])->0;
    let b = octet_value(p[1])->0;
    let c = octet_value(p[2])->0;
    let d = octet_value(p[3])->0;
    lemma_octet_quotients(a, b, c, d);
    assert(p =~= seq![decimal_text(a), decimal_text(b), decimal_text(c), decimal_text(d)]);
}

/// Whether the texts are groups of a version six address: one to four hexadecimal digits each.
pub open spec fn are_groups(p: Seq<Seq<char>>) -> bool {
    forall|i: int| 0 <= i < p.len() ==> is_hex(#[trigger] p[i]) && p[i].len() <= 4
}

/// The numbers that the groups write.
pub open spec fn group_numbers(p: Seq<Seq<char>>) -> Seq<int> {
    p.map_values(|t: Seq<char>| number_value(t, 16)->0)
}

/// Eight numbers of sixteen bits as one, the highest first.
pub open spec fn from_groups(g: Seq<int>) -> int {
    ((((((g[0] * 65536 + g[1]) * 65536 + g[2]) * 65536 + g[3]) * 65536 + g[4]) * 65536 + g[5])
        * 65536 + g[6]) * 65536 + g[7]
}

proof fn lemma_from_groups(g: Seq<int>)
    requires
        g.len() == 8,
    ensures
        wide_value(g) == from_groups(g),
{
    reveal_with_fuel(wide_value, 9);
    let g7 = g.drop_last();
    let g6 = g7.drop_last();
    let g5 = g6.drop_last();
    let g4 = g5.drop_last();
    let g3 = g4.drop_last();
    let g2 = g3.drop_last();
    let g1 = g2.drop_last();
    assert(wide_value(g1.drop_last()) == 0);
    assert(wide_value(g1) == g[0]);
    assert(wide_value(g2) == g[0] * 65536 + g[1]);
    assert(wide_value(g3) == wide_value(g2) * 65536 + g[2]);
    assert(wide_value(g4) == wide_value(g3) * 65536 + g[3]);
    assert(wide_value(g5) == wide_value(g4) * 65536 + g[4]);
    assert(wide_value(g6) == wide_value(g5) * 65536 + g[5]);
    assert(wide_value(g7) == wide_value(g6) * 65536 + g[6]);
}

proof fn lemma_group(t: Seq<char>)
    requires
        is_hex(t),
        t.len() <= 4,
    ensures
        group_value(t) == number_value(t, 16),
        0 <= number_value(t, 16)->0 <= 65535,
        !t.contains(':'),
        !t.contains('.'),
{
    law_hex_digits(t, '0');
    lemma_digits_nonnegative(t, 16);
    lemma_hex_bound(t);
    assert forall|i: int| 0 <= i < t.len() implies t[i] != ':' && t[i] != '.' by {
        assert(crate::number_laws::is_hex_digit(t[i]));
    }
}

proof fn lemma_hex_bound(t: Seq<char>)
    requires
        all_digits(t, 16),
        t.len() <= 4,
    ensures
        digits_value(t, 16) <= 65535,
        t.len() <= 3 ==> digits_value(t, 16) <= 4095,
        t.len() <= 2 ==> digits_value(t, 16) <= 255,
        t.len() <= 1 ==> digits_value(t, 16) <= 15,
        t.len() <= 0 ==> digits_value(t, 16) <= 0,
    decreases t.len(),
{
    if t.len() > 0 {
        assert forall|i: int| 0 <= i < t.drop_last().len() implies is_digit(
            #[trigger] t.drop_last()[i],
            16,
        ) by {
            assert(t.drop_last()[i] == t[i]);
        }
        assert(is_digit(t[t.len() - 1], 16));
        lemma_hex_bound(t.drop_last());
    }
}

proof fn lemma_groups_read(p: Seq<Seq<char>>, v4_tail: bool)
    requires
        are_groups(p),
    ensures
        groups_value(p, v4_tail) == Some(group_numbers(p)),
        forall|i: int|
            0 <= i < p.len() ==> 0 <= #[trigger] group_numbers(p)[i] <= 65535,
    decreases p.len(),
{
    let g = group_numbers(p);
    assert forall|i: int| 0 <= i < p.len() implies 0 <= #[trigger] g[i] <= 65535 by {
        assert(is_hex(p[i]));
        lemma_group(p[i]);
    }
    if p.len() == 0 {
        assert(g =~= Seq::<int>::empty());
    } else {
        assert(is_hex(p[0]));
        lemma_group(p[0]);
        lemma_not_v4(p[0]);
        assert forall|i: int| 0 <= i < p.skip(1).len() implies is_hex(#[trigger] p.skip(1)[i])
            && p.skip(1)[i].len() <= 4 by {
            assert(p.skip(1)[i] == p[i + 1]);
        }
        lemma_groups_read(p.skip(1), v4_tail);
        assert(seq![g[0]] + group_numbers(p.skip(1)) =~= g);
    }
}

/// Groups with colons between them hold no two colons in a row, and none at an end.
proof fn lemma_groups_no_gap(p: Seq<Seq<char>>)
    requires
        are_groups(p),
    ensures
        ({
            let t = join(p, seq![':']);
            &&& p.len() > 0 ==> t.len() > 0 && t[0] != ':' && t.last() != ':'
            &&& p.len() == 0 ==> t.len() == 0
            &&& forall|i: int|
                0 <= i && i + 1 < t.len() ==> !(#[trigger] t[i] == ':' && t[i + 1] == ':')
        }),
{
    assert forall|i: int| 0 <= i < p.len() implies (#[trigger] p[i]).len() > 0 && !p[i].contains(
        ':',
    ) by {
        assert(is_hex(p[i]));
        lemma_group(p[i]);
    }
    lemma_pieces_no_gap(p);
}

proof fn lemma_groups_side(p: Seq<Seq<char>>, v4_tail: bool)
    requires
        are_groups(p),
    ensures
        side_groups(join(p, seq![':']), v4_tail) == Some(group_numbers(p)),
        p.len() > 0 ==> split(join(p, seq![':']), ':') == p,
{
    lemma_groups_no_gap(p);
    lemma_groups_read(p, v4_tail);
    if p.len() == 0 {
        assert(group_numbers(p) =~= Seq::<int>::empty());
    } else {
        assert forall|i: int| 0 <= i < p.len() implies !(#[trigger] p[i]).contains(':') by {
            assert(is_hex(p[i]));
            lemma_group(p[i]);
        }
        lemma_split_join(p, ':');
    }
}

/// Eight groups of hexadecimal digits with colons between them are the version six address of
/// these eight numbers.
pub proof fn law_eight_groups(p: Seq<Seq<char>>)
    requires
        p.len() == 8,
        are_groups(p),
    ensures
        ip_value(join(p, seq![':'])) == Some(
            IpAddress::V6(from_groups(group_numbers(p)) as u128),
        ),
        0 <= from_groups(group_numbers(p)) <= u128::MAX,
{
    let s = join(p, seq![':']);
    let g = group_numbers(p);
    lemma_groups_no_gap(p);
    lemma_groups_side(p, true);
    lemma_groups_read(p, true);
    lemma_gap_none(s, 0);
    lemma_from_groups(g);
    lemma_wide_value_bound(g);
    lemma_wide_limit_8();
    assert(s == p[0] + seq![':'] + join(p.skip(1), seq![':']));
    assert(s[p[0].len() as int] == ':');
    lemma_colon_not_v4(s);
}

/// Two colons stand for the groups that are left out, which are zero.
pub proof fn law_groups_left_out(l: Seq<Seq<char>>, r: Seq<Seq<char>>)
    requires
        are_groups(l),
        are_groups(r),
        l.len() + r.len() <= 7,
    ensures
        ({
            let s = join(l, seq![':']) + seq![':', ':'] + join(r, seq![':']);
            let none = Seq::new((8 - l.len() - r.len()) as nat, |i: int| 0int);
            let g = group_numbers(l) + none + group_numbers(r);
            ip_value(s) == Some(IpAddress::V6(from_groups(g) as u128)) && 0 <= from_groups(g)
                <= u128::MAX
        }),
{
    let lt = join(l, seq![':']);
    let rt = join(r, seq![':']);
    let s = lt + seq![':', ':'] + rt;
    let none = Seq::new((8 - l.len() - r.len()) as nat, |i: int| 0int);
    let g = group_numbers(l) + none + group_numbers(r);
    lemma_groups_no_gap(l);
    lemma_groups_side(l, false);
    lemma_groups_side(r, true);
    lemma_groups_read(l, false);
    lemma_groups_read(r, true);
    let k = lt.len() as int;
    assert forall|j: int| 0 <= j < k implies !(#[trigger] s[j] == ':' && s[j + 1] == ':') by {
        if j + 1 < k {
            assert(s[j] == lt[j] && s[j + 1] == lt[j + 1]);
        } else {
            assert(s[j] == lt.last());
        }
    }
    lemma_gap_is(s, 0, k);
    assert(s.take(k) =~= lt);
    assert(s.skip(k + 2) =~= rt);
    assert(none =~= zeros(8 - l.len() - r.len()));
    assert(ipv6_groups(s) == Some(g));
    assert forall|i: int| 0 <= i < g.len() implies 0 <= #[trigger] g[i] <= 65535 by {
        let n = l.len() as int;
        let m = 8 - r.len();
        if i < n {
            assert(g[i] == group_numbers(l)[i]);
        } else if i < m {
        } else {
            assert(g[i] == group_numbers(r)[i - m]);
        }
    }
    lemma_from_groups(g);
    lemma_wide_value_bound(g);
    lemma_wide_limit_8();
    assert(s[k] == ':');
    lemma_colon_not_v4(s);
}

/// Version four addresses come before those of version six, and addresses of one version in the
/// order of their numbers.
pub proof fn law_address_order(a: u32, b: u32, x: u128, y: u128)
    ensures
        ip_less(IpAddress::V4(a), IpAddress::V4(b)) <==> a < b,
        ip_less(IpAddress::V6(x), IpAddress::V6(y)) <==> x < y,
        ip_less(IpAddress::V4(a), IpAddress::V6(x)),
        !ip_less(IpAddress::V6(x), IpAddress::V4(a)),
{
}

/// A version four range holds the addresses that have the leading bits of its network, as many
/// as the prefix is long, and no other: those with the same quotient by the power of two that
/// the other bits make.
pub proof fn law_range_by_quotient_v4(c: Cidr, a: u32, b: u32)
    requires
        c.network == IpAddress::V4(a),
        c.prefix_len <= 32,
    ensures
        c.has(IpAddress::V4(b)) <==> a as int / pow2((32 - c.prefix_len) as nat) as int == b as int
            / pow2((32 - c.prefix_len) as nat) as int,
        forall|x: u128| !#[trigger] c.has(IpAddress::V6(x)),
{
    let k = (32 - c.prefix_len) as u32;
    if k < 32 {
        lemma_u32_shr_is_div(a, k);
        lemma_u32_shr_is_div(b, k);
    } else {
        assert(a >> 32u32 == 0u32) by (bit_vector);
        assert(b >> 32u32 == 0u32) by (bit_vector);
        lemma2_to64();
        assert(pow2(32) == 0x1_0000_0000);
        assert(a as int / 0x1_0000_0000 == 0 && b as int / 0x1_0000_0000 == 0);
    }
}

/// A version six range holds the addresses that have the leading bits of its network, as many
/// as the prefix is long, and no other.
pub proof fn law_range_by_quotient_v6(c: Cidr, a: u128, b: u128)
    requires
        c.network == IpAddress::V6(a),
        c.prefix_len <= 128,
    ensures
        c.has(IpAddress::V6(b)) <==> a as int / pow2((128 - c.prefix_len) as nat) as int == b as int
            / pow2((128 - c.prefix_len) as nat) as int,
        forall|x: u32| !#[trigger] c.has(IpAddress::V4(x)),
{
    let k = (128 - c.prefix_len) as u128;
    if k < 128 {
        lemma_u128_shr_is_div(a, k);
        lemma_u128_shr_is_div(b, k);
    } else {
        assert(a >> 128u128 == 0u128) by (bit_vector);
        assert(b >> 128u128 == 0u128) by (bit_vector);
        lemma2_to64();
        lemma_pow2_adds(64, 64);
        assert(pow2(128) == 0x1_0000_0000_0000_0000 * 0x1_0000_0000_0000_0000);
        assert(a as int / pow2(128) as int == 0 && b as int / pow2(128) as int == 0) by {
            vstd::arithmetic::div_mod::lemma_basic_div(a as int, pow2(128) as int);
            vstd::arithmetic::div_mod::lemma_basic_div(b as int, pow2(128) as int);
        }
    }
}

/// A range is read off exactly the texts that are an address, a slash and the length of the
/// prefix, which is no longer than the address.
pub proof fn law_range_text(raw: Seq<char>, c: Cidr)
    ensures
        cidr_value(raw) == Ok::<Cidr, Seq<char>>(c) <==> exists|x: Seq<char>, p: Seq<char>|
            {
                &&& raw == #[trigger] (x + seq!['/'] + p)
                &&& !x.contains('/')
                &&& ip_value(x) == Some(c.network)
                &&& unsigned_value(p) == Some(c.prefix_len as int)
                &&& (c.network is V4 ==> c.prefix_len <= 32)
                &&& (c.network is V6 ==> c.prefix_len <= 128)
            },
{
    match split_once(raw, '/') {
        Some(q) => {
            law_split_once(raw, '/', q.0, q.1);
        },
        None => {
            law_split_once(raw, '/', raw, raw);
        },
    }
    if cidr_value(raw) == Ok::<Cidr, Seq<char>>(c) {
        let q = split_once(raw, '/')->0;
        assert(raw == q.0 + seq!['/'] + q.1);
    }
    if exists|x: Seq<char>, p: Seq<char>|
        {
            &&& raw == #[trigger] (x + seq!['/'] + p)
            &&& !x.contains('/')
            &&& ip_value(x) == Some(c.network)
            &&& unsigned_value(p) == Some(c.prefix_len as int)
            &&& (c.network is V4 ==> c.prefix_len <= 32)
            &&& (c.network is V6 ==> c.prefix_len <= 128)
        } {
        let (x, p) = choose|x: Seq<char>, p: Seq<char>|
            {
                &&& raw == #[trigger] (x + seq!['/'] + p)
                &&& !x.contains('/')
                &&& ip_value(x) == Some(c.network)
                &&& unsigned_value(p) == Some(c.prefix_len as int)
                &&& (c.network is V4 ==> c.prefix_len <= 32)
                &&& (c.network is V6 ==> c.prefix_len <= 128)
            };
        law_split_once(raw, '/', x, p);
    }
}

/// What is complained of in a range: that it has no slash, else its address, else the length of
/// its prefix, else that this is too long.
pub proof fn law_range_complaints(raw: Seq<char>)
    ensures
        cidr_value(raw) matches Err(complaint) ==> {
            let p = split_once(raw, '/')->0;
            complaint == (if !raw.contains('/') {
                "invalid mask `"@ + raw + "`; expected CIDR like 192.168.0.0/24"@
            } else if ip_value(p.0) is None {
                "invalid IP in mask `"@ + raw + "`"@
            } else if unsigned_value(p.1) is None || !(0 <= unsigned_value(p.1)->0 <= 255) {
                "invalid prefix length in mask `"@ + raw + "`"@
            } else {
                "prefix length "@ + decimal_text(unsigned_value(p.1)->0) + " out of range for `"@
                    + raw + "`"@
            })
        },
{
}

/// A version four address with a port is the text of the address, a colon and the digits of the
/// port; no other text reads as it.
pub proof fn law_socket_text_v4(s: Seq<char>, v: u32, port: u16)
    ensures
        socket_value(s) == Some(
            SocketAddress { ip: IpAddress::V4(v), port, scope: 0 },
        ) <==> exists|p: Seq<char>|
            s == #[trigger] (ip_text(IpAddress::V4(v)) + seq![':'] + p) && number_value(p, 10)
                == Some(port as int),
{
    let a = SocketAddress { ip: IpAddress::V4(v), port, scope: 0 };
    let text = ip_text(IpAddress::V4(v));
    crate::ip::law_ipv4_text_reads_back(v as int);
    if socket_value(s) == Some(a) {
        let q = split_once(s, ':')->0;
        law_split_once(s, ':', q.0, q.1);
        lemma_ipv4_has_one_text(q.0);
        assert(s == text + seq![':'] + q.1);
    }
    if exists|p: Seq<char>| s == #[trigger] (text + seq![':'] + p) && number_value(p, 10) == Some(
        port as int,
    ) {
        let p = choose|p: Seq<char>|
            s == #[trigger] (text + seq![':'] + p) && number_value(p, 10) == Some(port as int);
        if text.contains(':') {
            lemma_colon_not_v4(text);
        }
        law_split_once(s, ':', text, p);
    }
}

/// A version six address with a port is the address in brackets, a colon and the digits of the
/// port; a zone may stand in the brackets, behind a percent sign.
pub proof fn law_socket_text_v6(
    x: Seq<char>,
    v: u128,
    p: Seq<char>,
    port: u16,
    z: Seq<char>,
    zone: u32,
)
    requires
        ip_value(x) == Some(IpAddress::V6(v)),
        number_value(p, 10) == Some(port as int),
        number_value(z, 10) == Some(zone as int),
        !x.contains('%'),
        !x.contains(']'),
    ensures
        socket_value(seq!['['] + x + seq![']', ':'] + p) == Some(
            SocketAddress { ip: IpAddress::V6(v), port, scope: 0 },
        ),
        socket_value(seq!['['] + (x + seq!['%'] + z) + seq![']', ':'] + p) == Some(
            SocketAddress { ip: IpAddress::V6(v), port, scope: zone },
        ),
{
    lemma_socket_in_brackets(x, p);
    law_split_once(x, '%', x, x);
    let inner = x + seq!['%'] + z;
    law_decimal_digits(z, '0');
    assert(!inner.contains(']')) by {
        assert forall|i: int| 0 <= i < inner.len() implies inner[i] != ']' by {
            if i < x.len() {
                assert(inner[i] == x[i]);
            } else if i > x.len() {
                assert(inner[i] == z[i - x.len() - 1]);
            }
        }
    }
    law_split_once(inner, '%', x, z);
    lemma_socket_in_brackets(inner, p);
}

proof fn lemma_socket_in_brackets(inner: Seq<char>, p: Seq<char>)
    requires
        !inner.contains(']'),
    ensures
        ({
            let s = seq!['['] + inner + seq![']', ':'] + p;
            &&& socket_v4_value(s) is None
            &&& split_once(s.skip(1), ']') == Some((inner, seq![':'] + p))
            &&& (seq![':'] + p).skip(1) == p
            &&& s[0] == '['
        }),
{
    let s = seq!['['] + inner + seq![']', ':'] + p;
    assert(s.skip(1) =~= inner + seq![']'] + (seq![':'] + p));
    law_split_once(s.skip(1), ']', inner, seq![':'] + p);
    assert((seq![':'] + p).skip(1) =~= p);
    if socket_v4_value(s) is Some {
        let q = split_once(s, ':')->0;
        law_split_once(s, ':', q.0, q.1);
        lemma_ipv4_has_one_text(q.0);
        let n = ipv4_value(q.0)->0;
        lemma_octets(n);
        law_decimal_text(n / 16777216, decimal_text(n / 16777216));
        lemma_dotted(n / 16777216, n / 65536 % 256, n / 256 % 256, n % 256);
        assert(q.0[0] == decimal_text(n / 16777216)[0]);
        assert(s[0] == q.0[0]);
    }
}

proof fn lemma_run_of_zeros(g: Seq<int>, i: int, n: int)
    requires
        0 <= i,
        0 <= n,
        i + n <= g.len(),
        forall|j: int| i <= j < i + n ==> g[j] == 0,
    ensures
        zeros_from(g, i) >= n,
    decreases n,
{
    if n > 0 {
        lemma_run_of_zeros(g, i + 1, n - 1);
    } else {
        lemma_zeros_from(g, i);
    }
}

proof fn lemma_first_longest(g: Seq<int>, n: int)
    requires
        0 <= n <= g.len(),
    ensures
        ({
            let run = longest_zeros(g, n);
            forall|j: int| 0 <= j < run.0 ==> #[trigger] zeros_from(g, j) < run.1
        }),
    decreases n,
{
    if n > 0 {
        lemma_first_longest(g, n - 1);
        lemma_longest_zeros(g, n - 1);
        lemma_zeros_from(g, n - 1);
    }
}

/// Groups in hexadecimal, without leading zeros, with colons between them.
pub open spec fn hexes(g: Seq<int>) -> Seq<char> {
    join(g.map_values(|x: int| number_text(x, 16)), seq![':'])
}

/// Whether zeros stand at `n` places from `i` on.
pub open spec fn is_zero_run(g: Seq<int>, i: int, n: int) -> bool {
    0 <= i && 0 <= n && i + n <= g.len() && forall|j: int| i <= j < i + n ==> g[j] == 0
}

/// Whether this is the longest row of zeros, and the first of that length.
pub open spec fn is_first_longest_run(g: Seq<int>, i: int, n: int) -> bool {
    &&& is_zero_run(g, i, n)
    &&& forall|k: int, m: int| #[trigger] is_zero_run(g, k, m) ==> m < n || (m == n && i <= k)
}

/// Whether a text shows eight groups: in full where no two zeros are neighbours, and else with
/// two colons in place of the longest row of zeros, the first of several.
pub open spec fn shows_address(text: Seq<char>, g: Seq<int>) -> bool {
    ||| text == hexes(g) && forall|k: int, m: int| #[trigger] is_zero_run(g, k, m) ==> m <= 1
    ||| exists|i: int, n: int|
        n >= 2 && #[trigger] is_first_longest_run(g, i, n) && text == hexes(g.take(i)) + seq![
            ':',
            ':',
        ] + hexes(g.skip(i + n))
}

/// A version six address is written as its eight groups of sixteen bits, the highest first; one
/// that stands for a version four address as two colons, four times the letter f, a colon and
/// the text of that address.
pub proof fn law_ipv6_text(v: u128)
    ensures
        v as int / 0x1_0000_0000 == 0xffff ==> ip_text(IpAddress::V6(v)) == seq![
            ':',
            ':',
            'f',
            'f',
            'f',
            'f',
            ':',
        ] + ip_text(IpAddress::V4((v as int % 0x1_0000_0000) as u32)),
        v as int / 0x1_0000_0000 != 0xffff ==> exists|g: Seq<int>|
            {
                &&& g.len() == 8
                &&& forall|i: int| 0 <= i < 8 ==> 0 <= #[trigger] g[i] <= 65535
                &&& from_groups(g) == v
                &&& #[trigger] shows_address(ip_text(IpAddress::V6(v)), g)
            },
{
    if v as int / 4294967296 != 65535 {
        lemma_wide_limit_8();
        lemma_wide_groups(v as int, 8);
        let g = wide_groups(v as int, 8);
        let text = ip_text(IpAddress::V6(v));
        lemma_from_groups(g);
        lemma_longest_zeros(g, 8);
        lemma_first_longest(g, 8);
        let run = longest_zeros(g, 8);
        assert forall|k: int, m: int| #[trigger] is_zero_run(g, k, m) implies m <= run.1 && (m
            == run.1 && m > 0 ==> run.0 <= k) by {
            lemma_run_of_zeros(g, k, m);
            if k < 8 {
                assert(zeros_from(g, k) <= run.1);
                if k < run.0 {
                    assert(zeros_from(g, k) < run.1);
                }
            }
        }
        if run.1 > 1 {
            assert(is_first_longest_run(g, run.0, run.1));
        }
        assert(shows_address(text, g));
    }
}

/// A number in hexadecimal reads back, has no capital letter, and no zero before other digits.
pub proof fn law_hex_text(v: int)
    requires
        v >= 0,
    ensures
        number_value(number_text(v, 16), 16) == Some(v),
        forall|i: int|
            0 <= i < number_text(v, 16).len() ==> 48 <= (#[trigger] number_text(v, 16)[i]) as int
                <= 57 || 97 <= number_text(v, 16)[i] as int <= 102,
        number_text(v, 16).len() > 1 ==> number_text(v, 16)[0] != '0',
    decreases v,
{
    lemma_number_text(v, 16);
    let t = number_text(v, 16);
    if v >= 16 {
        assert(0 <= v / 16 < v);
        law_hex_text(v / 16);
        let p = number_text(v / 16, 16);
        assert forall|i: int| 0 <= i < t.len() implies 48 <= (#[trigger] t[i]) as int <= 57 || 97
            <= t[i] as int <= 102 by {
            if i < p.len() {
                assert(t[i] == p[i]);
            }
        }
    }
}

proof fn lemma_groups_count(p: Seq<Seq<char>>, v4_tail: bool)
    requires
        groups_value(p, v4_tail) is Some,
    ensures
        (groups_value(p, v4_tail)->0).len() <= p.len() + 1,
    decreases p.len(),
{
    if p.len() > 0 && !(p.len() == 1 && v4_tail && ipv4_value(p[0]) is Some) {
        lemma_groups_count(p.skip(1), v4_tail);
    }
}

proof fn lemma_groups_have_colons(s: Seq<char>)
    requires
        ipv6_groups(s) is Some,
    ensures
        s.contains(':'),
        ip_value(s) == Some(IpAddress::V6(wide_value(ipv6_groups(s)->0) as u128)),
{
    match gap_from(s, 0) {
        Some(k) => {
            lemma_gap_place(s, 0);
            assert(s[k] == ':');
        },
        None => {
            let p = split(s, ':');
            lemma_groups_count(p, true);
            if !s.contains(':') {
                assert(p =~= seq![s]);
            }
        },
    }
    lemma_colon_not_v4(s);
}

proof fn lemma_gap_place(s: Seq<char>, i: int)
    requires
        0 <= i,
    ensures
        gap_from(s, i) matches Some(k) ==> i <= k && k + 1 < s.len() && s[k] == ':',
    decreases s.len() - i,
{
    if i + 1 < s.len() && !(s[i] == ':' && s[i + 1] == ':') {
        lemma_gap_place(s, i + 1);
    }
}

/// Whether a text is an address in brackets, with or without a zone, a colon and a port.
pub open spec fn is_bracketed(s: Seq<char>, inner: Seq<char>, p: Seq<char>, a: SocketAddress) -> bool {
    &&& s == seq!['['] + inner + seq![']', ':'] + p
    &&& number_value(p, 10) == Some(a.port as int)
    &&& {
        ||| ip_value(inner) == Some(a.ip) && a.scope == 0 && !inner.contains('%')
        ||| exists|x: Seq<char>, z: Seq<char>|
            inner == #[trigger] (x + seq!['%'] + z) && ip_value(x) == Some(a.ip) && number_value(
                z,
                10,
            ) == Some(a.scope as int)
    }
}

/// No other text than one with brackets reads as a version six address with a port.
pub proof fn law_socket_needs_brackets(s: Seq<char>, a: SocketAddress)
    requires
        socket_value(s) == Some(a),
        a.ip is V6,
    ensures
        exists|inner: Seq<char>, p: Seq<char>| #[trigger] is_bracketed(s, inner, p, a),
{
    let q = split_once(s.skip(1), ']')->0;
    law_split_once(s.skip(1), ']', q.0, q.1);
    let p = q.1.skip(1);
    assert(q.1 =~= seq![':'] + p);
    assert(s =~= seq!['['] + s.skip(1));
    assert(s =~= seq!['['] + q.0 + seq![']', ':'] + p);
    match split_once(q.0, '%') {
        Some(r) => {
            law_split_once(q.0, '%', r.0, r.1);
            lemma_groups_have_colons(r.0);
            assert(q.0 == r.0 + seq!['%'] + r.1);
        },
        None => {
            law_split_once(q.0, '%', q.0, q.0);
            lemma_groups_have_colons(q.0);
        },
    }
    assert(is_bracketed(s, q.0, p, a));
}

/// Whether `s` is groups with colons between them, or nothing.
pub open spec fn is_group_list(s: Seq<char>, p: Seq<Seq<char>>, g: Seq<int>) -> bool {
    s == join(p, seq![':']) && are_groups(p) && g == group_numbers(p)
}

/// Whether `s` is groups with colons between them, the last two written as four bytes with dots
/// between them.
pub open spec fn ends_in_bytes(
    s: Seq<char>,
    p: Seq<Seq<char>>,
    a: u8,
    b: u8,
    c: u8,
    d: u8,
    g: Seq<int>,
) -> bool {
    &&& s == join(p.push(dotted(a as int, b as int, c as int, d as int)), seq![':'])
    &&& are_groups(p)
    &&& g == group_numbers(p) + seq![a * 256 + b, c * 256 + d]
}

/// Whether `s` writes these groups; only with `tail` may the last two be written as four bytes.
pub open spec fn writes_groups(s: Seq<char>, tail: bool, g: Seq<int>) -> bool {
    ||| exists|p: Seq<Seq<char>>| #[trigger] is_group_list(s, p, g)
    ||| tail && exists|p: Seq<Seq<char>>, a: u8, b: u8, c: u8, d: u8| #[trigger]
        ends_in_bytes(s, p, a, b, c, d, g)
}

proof fn lemma_dotted_piece(a: u8, b: u8, c: u8, d: u8)
    ensures
        ({
            let t = dotted(a as int, b as int, c as int, d as int);
            &&& ipv4_value(t) == Some(a * 16777216 + b * 65536 + c * 256 + d)
            &&& t.len() > 0
            &&& !t.contains(':')
        }),
{
    let v = a * 16777216 + b * 65536 + c * 256 + d;
    let t = dotted(a as int, b as int, c as int, d as int);
    lemma_octet_quotients(a as int, b as int, c as int, d as int);
    lemma_dotted(a as int, b as int, c as int, d as int);
    crate::ip::law_ipv4_text_reads_back(v as int);
    assert(ipv4_text(v as int) == t);
    if t.contains(':') {
        lemma_colon_not_v4(t);
    }
}

/// Pieces that are not empty and hold no colon make no two colons in a row, and none at an end.
proof fn lemma_pieces_no_gap(p: Seq<Seq<char>>)
    requires
        forall|i: int| 0 <= i < p.len() ==> (#[trigger] p[i]).len() > 0 && !p[i].contains(':'),
    ensures
        ({
            let t = join(p, seq![':']);
            &&& p.len() > 0 ==> t.len() > 0 && t[0] != ':' && t.last() != ':'
            &&& p.len() == 0 ==> t.len() == 0
            &&& forall|i: int|
                0 <= i && i + 1 < t.len() ==> !(#[trigger] t[i] == ':' && t[i + 1] == ':')
        }),
    decreases p.len(),
{
    let t = join(p, seq![':']);
    if p.len() > 0 {
        let h = p.drop_last();
        let last = p.last();
        assert(p[p.len() - 1].len() > 0 && !p[p.len() - 1].contains(':'));
        assert(last[0] != ':' && last.last() != ':') by {
            assert(last.contains(last[0]) && last.contains(last.last()));
        }
        assert forall|i: int| 0 <= i < h.len() implies (#[trigger] h[i]).len() > 0
            && !h[i].contains(':') by {
            assert(h[i] == p[i]);
        }
        lemma_pieces_no_gap(h);
        assert(p =~= h.push(last));
        crate::text::lemma_join_push(h, last, seq![':']);
        let before = join(h, seq![':']);
        if h.len() == 0 {
            assert forall|i: int| 0 <= i && i + 1 < t.len() implies !(#[trigger] t[i] == ':'
                && t[i + 1] == ':') by {
                assert(last.contains(t[i]));
            }
        } else {
            assert(t[0] == before[0]);
            assert(t.last() == last.last());
            assert forall|i: int| 0 <= i && i + 1 < t.len() implies !(#[trigger] t[i] == ':'
                && t[i + 1] == ':') by {
                if i + 1 < before.len() {
                    assert(t[i] == before[i] && t[i + 1] == before[i + 1]);
                } else if i + 1 == before.len() {
                    assert(t[i] == before.last());
                } else if i == before.len() {
                    assert(t[i + 1] == last[0]);
                } else {
                    assert(t[i] == last[i - before.len() - 1]);
                    assert(last.contains(t[i]));
                }
            }
        }
    }
}

proof fn lemma_groups_then_bytes(p: Seq<Seq<char>>, t: Seq<char>, v: int)
    requires
        are_groups(p),
        ipv4_value(t) == Some(v),
    ensures
        groups_value(p.push(t), true) == Some(group_numbers(p) + seq![v / 65536, v % 65536]),
    decreases p.len(),
{
    let all = p.push(t);
    let ends = seq![v / 65536, v % 65536];
    if p.len() == 0 {
        assert(all[0] == t);
        assert(group_numbers(p) + ends =~= ends);
    } else {
        let rest = p.skip(1);
        assert(is_hex(p[0]));
        lemma_group(p[0]);
        assert forall|i: int| 0 <= i < rest.len() implies is_hex(#[trigger] rest[i])
            && rest[i].len() <= 4 by {
            assert(rest[i] == p[i + 1]);
        }
        lemma_groups_then_bytes(rest, t, v);
        assert(all.skip(1) =~= rest.push(t));
        assert(seq![group_numbers(p)[0]] + (group_numbers(rest) + ends) =~= group_numbers(p) + ends);
    }
}

/// What groups with colons between them read as, and that they make no gap.
proof fn lemma_written_groups(s: Seq<char>, tail: bool, g: Seq<int>)
    requires
        writes_groups(s, tail, g),
    ensures
        side_groups(s, tail) == Some(g),
        s.len() > 0 ==> s[0] != ':' && s.last() != ':',
        forall|i: int| 0 <= i && i + 1 < s.len() ==> !(#[trigger] s[i] == ':' && s[i + 1] == ':'),
        forall|i: int| 0 <= i < g.len() ==> 0 <= #[trigger] g[i] <= 65535,
{
    if exists|p: Seq<Seq<char>>| #[trigger] is_group_list(s, p, g) {
        let p = choose|p: Seq<Seq<char>>| #[trigger] is_group_list(s, p, g);
        lemma_groups_no_gap(p);
        lemma_groups_side(p, tail);
        lemma_groups_read(p, tail);
    } else {
        let (p, a, b, c, d) = choose|p: Seq<Seq<char>>, a: u8, b: u8, c: u8, d: u8| #[trigger]
            ends_in_bytes(s, p, a, b, c, d, g);
        let t = dotted(a as int, b as int, c as int, d as int);
        let v = a * 16777216 + b * 65536 + c * 256 + d;
        let all = p.push(t);
        lemma_dotted_piece(a, b, c, d);
        lemma_groups_then_bytes(p, t, v as int);
        lemma_groups_read(p, true);
        assert(v as int / 65536 == a * 256 + b && v as int % 65536 == c * 256 + d);
        assert forall|i: int| 0 <= i < all.len() implies (#[trigger] all[i]).len() > 0
            && !all[i].contains(':') by {
            if i < p.len() {
                assert(is_hex(p[i]));
                lemma_group(p[i]);
            }
        }
        lemma_pieces_no_gap(all);
        lemma_split_join(all, ':');
        assert forall|i: int| 0 <= i < g.len() implies 0 <= #[trigger] g[i] <= 65535 by {
            if i < p.len() {
                assert(g[i] == group_numbers(p)[i]);
            }
        }
    }
}

proof fn lemma_groups_shape(p: Seq<Seq<char>>, tail: bool, g: Seq<int>)
    requires
        groups_value(p, tail) == Some(g),
    ensures
        ({
            ||| are_groups(p) && g == group_numbers(p)
            ||| {
                &&& tail
                &&& p.len() > 0
                &&& are_groups(p.drop_last())
                &&& ipv4_value(p.last()) is Some
                &&& g == group_numbers(p.drop_last()) + seq![
                    ipv4_value(p.last())->0 / 65536,
                    ipv4_value(p.last())->0 % 65536,
                ]
            }
        }),
    decreases p.len(),
{
    if p.len() == 0 {
        assert(g =~= group_numbers(p));
    } else if p.len() == 1 && tail && ipv4_value(p[0]) is Some {
        assert(p.drop_last() =~= Seq::<Seq<char>>::empty());
        assert(p.last() == p[0]);
        assert(g =~= group_numbers(p.drop_last()) + seq![
            ipv4_value(p.last())->0 / 65536,
            ipv4_value(p.last())->0 % 65536,
        ]);
    } else {
        let rest = p.skip(1);
        let r = groups_value(rest, tail)->0;
        lemma_groups_shape(rest, tail, r);
        law_hex_digits(p[0], '0');
        let first = number_value(p[0], 16)->0;
        assert(g == seq![first] + r);
        if are_groups(rest) && r == group_numbers(rest) {
            assert forall|i: int| 0 <= i < p.len() implies is_hex(#[trigger] p[i]) && p[i].len()
                <= 4 by {
                if i > 0 {
                    assert(is_hex(rest[i - 1]));
                    assert(p[i] == rest[i - 1]);
                }
            }
            assert(g =~= group_numbers(p));
        } else {
            let q = p.drop_last();
            let rq = rest.drop_last();
            assert(rest.last() == p.last());
            assert forall|i: int| 0 <= i < q.len() implies is_hex(#[trigger] q[i]) && q[i].len()
                <= 4 by {
                if i > 0 {
                    assert(is_hex(rq[i - 1]));
                    assert(q[i] == rq[i - 1]);
                }
            }
            assert(q.skip(1) =~= rq);
            assert(group_numbers(q) =~= seq![first] + group_numbers(rq));
            assert(g =~= group_numbers(q) + seq![
                ipv4_value(p.last())->0 / 65536,
                ipv4_value(p.last())->0 % 65536,
            ]);
        }
    }
}

proof fn lemma_side_is_written(s: Seq<char>, tail: bool, g: Seq<int>)
    requires
        side_groups(s, tail) == Some(g),
    ensures
        writes_groups(s, tail, g),
{
    if s.len() == 0 {
        let none = Seq::<Seq<char>>::empty();
        assert(s =~= join(none, seq![':']));
        assert(g =~= group_numbers(none));
        assert(is_group_list(s, none, g));
    } else {
        let p = split(s, ':');
        law_split(s, ':');
        lemma_groups_shape(p, tail, g);
        if are_groups(p) && g == group_numbers(p) {
            assert(is_group_list(s, p, g));
        } else {
            let q = p.drop_last();
            let t = p.last();
            let v = ipv4_value(t)->0;
            lemma_ipv4_has_one_text(t);
            lemma_octets(v);
            let a = (v / 16777216) as u8;
            let b = (v / 65536 % 256) as u8;
            let c = (v / 256 % 256) as u8;
            let d = (v % 256) as u8;
            lemma_dotted(a as int, b as int, c as int, d as int);
            assert(p =~= q.push(dotted(a as int, b as int, c as int, d as int)));
            assert(v / 65536 == a * 256 + b && v % 65536 == c * 256 + d) by {
                lemma_halves(v);
            }
            assert(ends_in_bytes(s, q, a, b, c, d, g));
        }
    }
}

proof fn lemma_halves(v: int)
    requires
        0 <= v <= u32::MAX,
    ensures
        v / 65536 == v / 16777216 * 256 + v / 65536 % 256,
        v % 65536 == v / 256 % 256 * 256 + v % 256,
{
    let q = v / 65536;
    assert(v / 16777216 == q / 256);
    let h = v / 256;
    assert(h / 256 == q);
    assert(v == h * 256 + v % 256);
    assert(h == q * 256 + h % 256);
}

/// Whether `s` is eight groups, or fewer with two colons for the ones left out, and these are
/// the address.
pub open spec fn writes_v6(s: Seq<char>, v: u128) -> bool {
    ||| exists|g: Seq<int>| #[trigger]
        writes_groups(s, true, g) && g.len() == 8 && from_groups(g) == v
    ||| exists|l: Seq<char>, r: Seq<char>, gl: Seq<int>, gr: Seq<int>| #[trigger]
        writes_in_two(s, l, r, gl, gr, v)
}

pub open spec fn writes_in_two(
    s: Seq<char>,
    l: Seq<char>,
    r: Seq<char>,
    gl: Seq<int>,
    gr: Seq<int>,
    v: u128,
) -> bool {
    &&& s == l + seq![':', ':'] + r
    &&& writes_groups(l, false, gl)
    &&& writes_groups(r, true, gr)
    &&& gl.len() + gr.len() <= 7
    &&& from_groups(gl + Seq::new((8 - gl.len() - gr.len()) as nat, |i: int| 0int) + gr) == v
}

proof fn lemma_read_is_written(s: Seq<char>, v: u128)
    requires
        ip_value(s) == Some(IpAddress::V6(v)),
    ensures
        writes_v6(s, v),
{
    lemma_gap_place(s, 0);
    match gap_from(s, 0) {
        Some(k) => {
            lemma_gap_colons(s, 0);
            let l = s.take(k);
            let r = s.skip(k + 2);
            let gl = side_groups(l, false)->0;
            let gr = side_groups(r, true)->0;
            lemma_side_is_written(l, false, gl);
            lemma_side_is_written(r, true, gr);
            lemma_written_groups(l, false, gl);
            lemma_written_groups(r, true, gr);
            assert(s =~= l + seq![':', ':'] + r);
            lemma_whole(gl, gr);
            assert(writes_in_two(s, l, r, gl, gr, v));
        },
        None => {
            let g = ipv6_groups(s)->0;
            if s.len() == 0 {
                assert(split(s, ':') =~= seq![s]);
            }
            lemma_side_is_written(s, true, g);
            lemma_written_groups(s, true, g);
            lemma_from_groups(g);
            lemma_wide_value_bound(g);
            lemma_wide_limit_8();
            assert(writes_groups(s, true, g));
        },
    }
}

proof fn lemma_whole_is_read(s: Seq<char>, g: Seq<int>, v: u128)
    requires
        writes_groups(s, true, g),
        g.len() == 8,
        from_groups(g) == v,
    ensures
        ip_value(s) == Some(IpAddress::V6(v)),
{
    lemma_written_groups(s, true, g);
    lemma_gap_none(s, 0);
    lemma_from_groups(g);
    assert(ipv6_groups(s) == Some(g));
    lemma_groups_have_colons(s);
}

proof fn lemma_two_are_read(
    s: Seq<char>,
    l: Seq<char>,
    r: Seq<char>,
    gl: Seq<int>,
    gr: Seq<int>,
    v: u128,
)
    requires
        writes_in_two(s, l, r, gl, gr, v),
    ensures
        ip_value(s) == Some(IpAddress::V6(v)),
{
    lemma_written_groups(l, false, gl);
    lemma_written_groups(r, true, gr);
    let k = l.len() as int;
    assert forall|j: int| 0 <= j < k implies !(#[trigger] s[j] == ':' && s[j + 1] == ':') by {
        if j + 1 < k {
            assert(s[j] == l[j] && s[j + 1] == l[j + 1]);
        } else {
            assert(s[j] == l.last());
        }
    }
    lemma_gap_is(s, 0, k);
    assert(s.take(k) =~= l);
    assert(s.skip(k + 2) =~= r);
    lemma_whole(gl, gr);
    lemma_groups_have_colons(s);
}

/// A version six address is read off exactly the texts that write it.
pub proof fn law_ipv6_is_read_off_its_texts(s: Seq<char>, v: u128)
    ensures
        ip_value(s) == Some(IpAddress::V6(v)) <==> writes_v6(s, v),
{
    if ip_value(s) == Some(IpAddress::V6(v)) {
        lemma_read_is_written(s, v);
    }
    if writes_v6(s, v) {
        if exists|g: Seq<int>| #[trigger]
            writes_groups(s, true, g) && g.len() == 8 && from_groups(g) == v {
            let g = choose|g: Seq<int>| #[trigger]
                writes_groups(s, true, g) && g.len() == 8 && from_groups(g) == v;
            lemma_whole_is_read(s, g, v);
        } else {
            let (l, r, gl, gr) = choose|
                l: Seq<char>,
                r: Seq<char>,
                gl: Seq<int>,
                gr: Seq<int>,
            | #[trigger] writes_in_two(s, l, r, gl, gr, v);
            lemma_two_are_read(s, l, r, gl, gr, v);
        }
    }
}

proof fn lemma_whole(gl: Seq<int>, gr: Seq<int>)
    requires
        gl.len() + gr.len() <= 7,
        forall|i: int| 0 <= i < gl.len() ==> 0 <= #[trigger] gl[i] <= 65535,
        forall|i: int| 0 <= i < gr.len() ==> 0 <= #[trigger] gr[i] <= 65535,
    ensures
        ({
            let n = 8 - gl.len() - gr.len();
            let g = gl + Seq::new(n as nat, |i: int| 0int) + gr;
            &&& g == gl + zeros(n) + gr
            &&& wide_value(g) == from_groups(g)
            &&& 0 <= wide_value(g) <= u128::MAX
        }),
{
    let n = 8 - gl.len() - gr.len();
    let none = Seq::new(n as nat, |i: int| 0int);
    let g = gl + none + gr;
    assert(none =~= zeros(n));
    assert forall|i: int| 0 <= i < g.len() implies 0 <= #[trigger] g[i] <= 65535 by {
        if i < gl.len() {
            assert(g[i] == gl[i]);
        } else if i >= gl.len() + n {
            assert(g[i] == gr[i - gl.len() - n]);
        }
    }
    lemma_from_groups(g);
    lemma_wide_value_bound(g);
    lemma_wide_limit_8();
}

proof fn lemma_gap_colons(s: Seq<char>, i: int)
    requires
        0 <= i,
    ensures
        gap_from(s, i) matches Some(k) ==> s[k] == ':' && s[k + 1] == ':',
    decreases s.len() - i,
{
    if i + 1 < s.len() && !(s[i] == ':' && s[i + 1] == ':') {
        lemma_gap_colons(s, i + 1);
    }
}

} // verus!
