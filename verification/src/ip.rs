//! IP addresses: their order, their text form, and reading them from text.

use crate::number::{
    decimal_text, is_digit, lemma_number_text, lemma_number_text_len, number_text, number_value,
    read_number, within, write_decimal, write_number,
};
use crate::text::{
    chars_of, cut, cut_once, join, lemma_join_push, lemma_split_join, piece, split, split_once, texts,
};
use vstd::arithmetic::power::pow;
use vstd::prelude::*;

verus! {

/// An IP address as the number that its bits write.
#[derive(Clone, Copy, Debug, PartialEq, Eq, Structural)]
pub enum IpAddress {
    V4(u32),
    V6(u128),
}

/// The order of addresses: version four before version six, then by number.
pub open spec fn ip_less(a: IpAddress, b: IpAddress) -> bool {
    match (a, b) {
        (IpAddress::V4(x), IpAddress::V4(y)) => x < y,
        (IpAddress::V4(_), IpAddress::V6(_)) => true,
        (IpAddress::V6(_), IpAddress::V4(_)) => false,
        (IpAddress::V6(x), IpAddress::V6(y)) => x < y,
    }
}

/// A decimal number up to 255, without leading zeros.
pub open spec fn octet_value(p: Seq<char>) -> Option<int> {
    if 1 <= p.len() <= 3 && (p.len() > 1 ==> p[0] != '0') {
        within(number_value(p, 10), 0, 255)
    } else {
        None
    }
}

/// The address that `s` writes in dotted decimal notation.
pub open spec fn ipv4_value(s: Seq<char>) -> Option<int> {
    let p = split(s, '.');
    if p.len() == 4 {
        match (octet_value(p[0]), octet_value(p[1]), octet_value(p[2]), octet_value(p[3])) {
            (Some(a), Some(b), Some(c), Some(d)) => Some(
                a * 16777216 + b * 65536 + c * 256 + d,
            ),
            _ => None,
        }
    } else {
        None
    }
}

/// One to four hexadecimal digits.
pub open spec fn group_value(p: Seq<char>) -> Option<int> {
    if 1 <= p.len() <= 4 {
        within(number_value(p, 16), 0, 65535)
    } else {
        None
    }
}

/// The sixteen-bit groups that the pieces write. With `v4_tail` the last piece may be
/// an address in dotted decimal notation, which stands for two groups.
pub open spec fn groups_value(pieces: Seq<Seq<char>>, v4_tail: bool) -> Option<Seq<int>>
    decreases pieces.len(),
{
    if pieces.len() == 0 {
        Some(Seq::empty())
    } else if pieces.len() == 1 && v4_tail && ipv4_value(pieces[0]) is Some {
        let v = ipv4_value(pieces[0])->0;
        Some(seq![v / 65536, v % 65536])
    } else {
        match (group_value(pieces[0]), groups_value(pieces.skip(1), v4_tail)) {
            (Some(g), Some(rest)) => Some(seq![g] + rest),
            _ => None,
        }
    }
}

/// The groups on one side of `::`, none where that side is empty.
pub open spec fn side_groups(s: Seq<char>, v4_tail: bool) -> Option<Seq<int>> {
    if s.len() == 0 {
        Some(Seq::empty())
    } else {
        groups_value(split(s, ':'), v4_tail)
    }
}

/// Where `::` first occurs in `s`, at or after position `i`.
pub open spec fn gap_from(s: Seq<char>, i: int) -> Option<int>
    decreases s.len() - i,
{
    if i + 1 >= s.len() {
        None
    } else if s[i] == ':' && s[i + 1] == ':' {
        Some(i)
    } else {
        gap_from(s, i + 1)
    }
}

pub open spec fn zeros(n: int) -> Seq<int> {
    Seq::new(n as nat, |i: int| 0int)
}

/// The eight groups that `s` writes: eight of them between colons, or fewer with one
/// `::` for the zero groups, at least one, that are left out.
pub open spec fn ipv6_groups(s: Seq<char>) -> Option<Seq<int>> {
    match gap_from(s, 0) {
        Some(k) => match (side_groups(s.take(k), false), side_groups(s.skip(k + 2), true)) {
            (Some(l), Some(r)) => if l.len() + r.len() <= 7 {
                Some(l + zeros(8 - l.len() - r.len()) + r)
            } else {
                None
            },
            _ => None,
        },
        None => match groups_value(split(s, ':'), true) {
            Some(g) => if g.len() == 8 {
                Some(g)
            } else {
                None
            },
            None => None,
        },
    }
}

/// The number that sixteen-bit groups write, the most significant first.
pub open spec fn wide_value(g: Seq<int>) -> int
    decreases g.len(),
{
    if g.len() == 0 {
        0
    } else {
        wide_value(g.drop_last()) * 65536 + g.last()
    }
}

/// The last `n` sixteen-bit groups of a number, the most significant first.
pub open spec fn wide_groups(v: int, n: nat) -> Seq<int>
    decreases n,
{
    if n == 0 {
        Seq::empty()
    } else {
        wide_groups(v / 65536, (n - 1) as nat).push(v % 65536)
    }
}

pub open spec fn wide_limit(n: nat) -> int
    decreases n,
{
    if n == 0 {
        1
    } else {
        65536 * wide_limit((n - 1) as nat)
    }
}

/// The address that `s` writes, of either version.
pub open spec fn ip_value(s: Seq<char>) -> Option<IpAddress> {
    match ipv4_value(s) {
        Some(v) => Some(IpAddress::V4(v as u32)),
        None => match ipv6_groups(s) {
            Some(g) => Some(IpAddress::V6(wide_value(g) as u128)),
            None => None,
        },
    }
}

/// Dotted decimal notation.
pub open spec fn ipv4_text(v: int) -> Seq<char> {
    join(
        seq![
            decimal_text(v / 16777216),
            decimal_text(v / 65536 % 256),
            decimal_text(v / 256 % 256),
            decimal_text(v % 256),
        ],
        seq!['.'],
    )
}

pub open spec fn hex_pieces(g: Seq<int>) -> Seq<Seq<char>> {
    g.map_values(|x: int| number_text(x, 16))
}

/// Groups in hexadecimal with colons between them.
pub open spec fn colon_text(g: Seq<int>) -> Seq<char> {
    join(hex_pieces(g), seq![':'])
}

/// How many zeros stand in a row from position `i` on.
pub open spec fn zeros_from(g: Seq<int>, i: int) -> int
    decreases g.len() - i,
{
    if 0 <= i < g.len() && g[i] == 0 {
        1 + zeros_from(g, i + 1)
    } else {
        0
    }
}

/// Start and length of the longest row of zeros that starts before `n`, the first of
/// several.
pub open spec fn longest_zeros(g: Seq<int>, n: int) -> (int, int)
    decreases n,
{
    if n <= 0 {
        (0, 0)
    } else {
        let best = longest_zeros(g, n - 1);
        let here = zeros_from(g, n - 1);
        if here > best.1 {
            (n - 1, here)
        } else {
            best
        }
    }
}

/// The text of a version six address: an IPv4-mapped address as `::ffff:` and dotted
/// decimals; otherwise hexadecimal groups, where `::` stands for the longest row of two
/// or more zero groups.
pub open spec fn ipv6_text(v: int) -> Seq<char> {
    if v / 4294967296 == 65535 {
        seq![':', ':', 'f', 'f', 'f', 'f', ':'] + ipv4_text(v % 4294967296)
    } else {
        let g = wide_groups(v, 8);
        let run = longest_zeros(g, 8);
        if run.1 > 1 {
            colon_text(g.take(run.0)) + seq![':', ':'] + colon_text(g.skip(run.0 + run.1))
        } else {
            colon_text(g)
        }
    }
}

/// The text of an address.
pub open spec fn ip_text(ip: IpAddress) -> Seq<char> {
    match ip {
        IpAddress::V4(v) => ipv4_text(v as int),
        IpAddress::V6(v) => ipv6_text(v as int),
    }
}

pub proof fn lemma_ip_less_order(a: IpAddress, b: IpAddress, c: IpAddress)
    ensures
        !ip_less(a, a),
        ip_less(a, b) && ip_less(b, c) ==> ip_less(a, c),
        ip_less(a, b) || ip_less(b, a) || a == b,
{
}

pub proof fn lemma_decimal_octet(v: int)
    requires
        0 <= v <= 255,
    ensures
        octet_value(decimal_text(v)) == Some(v),
        !decimal_text(v).contains('.'),
{
    lemma_number_text(v, 10);
    reveal(pow);
    reveal_with_fuel(pow, 4);
    assert(pow(10, 3) == 1000);
    lemma_number_text_len(v, 10, 3);
    assert forall|i: int| 0 <= i < decimal_text(v).len() implies decimal_text(v)[i] != '.' by {
        assert(is_digit(decimal_text(v)[i], 10));
    }
}

proof fn lemma_hex_group(v: int)
    requires
        0 <= v <= 65535,
    ensures
        group_value(number_text(v, 16)) == Some(v),
        !number_text(v, 16).contains(':'),
        !number_text(v, 16).contains('.'),
        number_text(v, 16).len() > 0,
{
    lemma_number_text(v, 16);
    reveal_with_fuel(pow, 5);
    assert(pow(16, 4) == 65536);
    lemma_number_text_len(v, 16, 4);
    let t = number_text(v, 16);
    assert forall|i: int| 0 <= i < t.len() implies t[i] != '.' && t[i] != ':' by {
        assert(is_digit(t[i], 16));
    }
}

pub proof fn lemma_octets(v: int)
    requires
        0 <= v <= u32::MAX,
    ensures
        0 <= v / 16777216 <= 255,
        0 <= v / 65536 % 256 <= 255,
        0 <= v / 256 % 256 <= 255,
        0 <= v % 256 <= 255,
        v / 16777216 * 16777216 + v / 65536 % 256 * 65536 + v / 256 % 256 * 256 + v % 256 == v,
{
    let q1 = v / 256;
    let q2 = q1 / 256;
    assert(v / 65536 == q2);
    assert(v / 16777216 == q2 / 256);
}

/// Dotted decimal notation reads back as the address that it was written for.
#[verifier::spinoff_prover]
pub proof fn law_ipv4_text_reads_back(v: int)
    requires
        0 <= v <= u32::MAX,
    ensures
        ipv4_value(ipv4_text(v)) == Some(v),
{
    lemma_octets(v);
    lemma_four_octets(v / 16777216, v / 65536 % 256, v / 256 % 256, v % 256);
}

proof fn lemma_four_octets(a: int, b: int, c: int, d: int)
    requires
        0 <= a <= 255,
        0 <= b <= 255,
        0 <= c <= 255,
        0 <= d <= 255,
    ensures
        ipv4_value(
            join(
                seq![decimal_text(a), decimal_text(b), decimal_text(c), decimal_text(d)],
                seq!['.'],
            ),
        ) == Some(a * 16777216 + b * 65536 + c * 256 + d),
{
    let p = seq![decimal_text(a), decimal_text(b), decimal_text(c), decimal_text(d)];
    lemma_decimal_octet(a);
    lemma_decimal_octet(b);
    lemma_decimal_octet(c);
    lemma_decimal_octet(d);
    assert forall|i: int| 0 <= i < p.len() implies !(#[trigger] p[i]).contains('.') by {
        if i == 0 {
        } else if i == 1 {
        } else if i == 2 {
        } else {
        }
    }
    lemma_split_join(p, '.');
}

pub proof fn lemma_not_v4(p: Seq<char>)
    requires
        !p.contains('.'),
    ensures
        ipv4_value(p) is None,
{
    assert(split(p, '.') =~= seq![p]);
}

proof fn lemma_groups_read_back(g: Seq<int>, v4_tail: bool)
    requires
        forall|i: int| 0 <= i < g.len() ==> 0 <= #[trigger] g[i] <= 65535,
    ensures
        groups_value(hex_pieces(g), v4_tail) == Some(g),
    decreases g.len(),
{
    let p = hex_pieces(g);
    if g.len() == 0 {
        assert(g =~= Seq::<int>::empty());
    } else {
        assert(0 <= g[0] <= 65535);
        lemma_hex_group(g[0]);
        lemma_not_v4(p[0]);
        assert forall|i: int| 0 <= i < g.skip(1).len() implies 0 <= #[trigger] g.skip(1)[i]
            <= 65535 by {
            assert(g.skip(1)[i] == g[i + 1]);
        }
        lemma_groups_read_back(g.skip(1), v4_tail);
        assert(p.skip(1) =~= hex_pieces(g.skip(1)));
        assert(seq![g[0]] + g.skip(1) =~= g);
    }
}

/// Groups written with colons: what reads back, and that no `::` comes about.
proof fn lemma_colon_text(g: Seq<int>, v4_tail: bool)
    requires
        forall|i: int| 0 <= i < g.len() ==> 0 <= #[trigger] g[i] <= 65535,
    ensures
        g.len() > 0 ==> split(colon_text(g), ':') == hex_pieces(g),
        side_groups(colon_text(g), v4_tail) == Some(g),
        groups_value(hex_pieces(g), v4_tail) == Some(g),
        g.len() > 0 ==> colon_text(g).len() > 0,
{
    let p = hex_pieces(g);
    lemma_groups_read_back(g, v4_tail);
    lemma_no_gap(g);
    if g.len() == 0 {
        assert(g =~= Seq::<int>::empty());
    } else {
        assert forall|i: int| 0 <= i < p.len() implies !(#[trigger] p[i]).contains(':') by {
            assert(0 <= g[i] <= 65535);
            lemma_hex_group(g[i]);
        }
        lemma_split_join(p, ':');
    }
}

/// No two colons stand next to each other, and none at an end.
proof fn lemma_no_gap(g: Seq<int>)
    requires
        forall|i: int| 0 <= i < g.len() ==> 0 <= #[trigger] g[i] <= 65535,
    ensures
        g.len() > 0 ==> colon_text(g).len() > 0 && colon_text(g)[0] != ':' && colon_text(g).last()
            != ':',
        g.len() == 0 ==> colon_text(g).len() == 0,
        forall|i: int|
            0 <= i && i + 1 < colon_text(g).len() ==> !(#[trigger] colon_text(g)[i] == ':'
                && colon_text(g)[i + 1] == ':'),
    decreases g.len(),
{
    let t = colon_text(g);
    if g.len() > 0 {
        let h = g.drop_last();
        assert(0 <= g[g.len() - 1] <= 65535);
        let last = number_text(g.last(), 16);
        lemma_hex_group(g.last());
        assert(last[0] != ':' && last.last() != ':') by {
            assert(last.contains(last[0]) && last.contains(last.last()));
        }
        assert forall|i: int| 0 <= i < h.len() implies 0 <= #[trigger] h[i] <= 65535 by {
            assert(h[i] == g[i]);
        }
        lemma_no_gap(h);
        assert(hex_pieces(g) =~= hex_pieces(h).push(last));
        lemma_join_push(hex_pieces(h), last, seq![':']);
        let before = colon_text(h);
        if h.len() == 0 {
            assert(t == last);
            assert forall|i: int| 0 <= i && i + 1 < t.len() implies !(#[trigger] t[i] == ':'
                && t[i + 1] == ':') by {
                assert(last.contains(t[i]));
            }
        } else {
            assert(t == before + seq![':'] + last);
            assert(t[0] == before[0]);
            assert(t.last() == last.last());
            assert forall|i: int| 0 <= i && i + 1 < t.len() implies !(#[trigger] t[i] == ':'
                && t[i + 1] == ':') by {
                if i + 1 < before.len() {
                    assert(t[i] == before[i] && t[i + 1] == before[i + 1]);
                } else if i + 1 == before.len() {
                    assert(t[i] == before.last());
                } else if i == before.len() {
                    assert(t[i + 1] == last[0]);
                } else {
                    assert(t[i] == last[i - before.len() - 1]);
                    assert(last.contains(t[i]));
                }
            }
        }
    }
}

pub proof fn lemma_gap_is(s: Seq<char>, i: int, k: int)
    requires
        0 <= i <= k,
        k + 1 < s.len(),
        s[k] == ':' && s[k + 1] == ':',
        forall|j: int| i <= j < k ==> !(#[trigger] s[j] == ':' && s[j + 1] == ':'),
    ensures
        gap_from(s, i) == Some(k),
    decreases k - i,
{
    if i < k {
        assert(!(s[i] == ':' && s[i + 1] == ':'));
        lemma_gap_is(s, i + 1, k);
    }
}

pub proof fn lemma_gap_none(s: Seq<char>, i: int)
    requires
        0 <= i,
        forall|j: int| i <= j && j + 1 < s.len() ==> !(#[trigger] s[j] == ':' && s[j + 1] == ':'),
    ensures
        gap_from(s, i) is None,
    decreases s.len() - i,
{
    if i + 1 < s.len() {
        assert(!(s[i] == ':' && s[i + 1] == ':'));
        lemma_gap_none(s, i + 1);
    }
}

pub proof fn lemma_wide_groups(v: int, n: nat)
    requires
        0 <= v < wide_limit(n),
    ensures
        wide_groups(v, n).len() == n,
        forall|i: int| 0 <= i < n ==> 0 <= #[trigger] wide_groups(v, n)[i] <= 65535,
        wide_value(wide_groups(v, n)) == v,
    decreases n,
{
    if n > 0 {
        let m = (n - 1) as nat;
        lemma_wide_groups(v / 65536, m);
        assert(wide_groups(v, n).drop_last() =~= wide_groups(v / 65536, m));
        assert forall|i: int| 0 <= i < n implies 0 <= #[trigger] wide_groups(v, n)[i]
            <= 65535 by {
            if i < m {
                assert(wide_groups(v, n)[i] == wide_groups(v / 65536, m)[i]);
            }
        }
    }
}

pub proof fn lemma_wide_value_bound(g: Seq<int>)
    requires
        forall|i: int| 0 <= i < g.len() ==> 0 <= #[trigger] g[i] <= 65535,
    ensures
        0 <= wide_value(g) < wide_limit(g.len()),
    decreases g.len(),
{
    if g.len() > 0 {
        assert forall|i: int| 0 <= i < g.drop_last().len() implies 0
            <= #[trigger] g.drop_last()[i] <= 65535 by {
            assert(g.drop_last()[i] == g[i]);
        }
        lemma_wide_value_bound(g.drop_last());
        assert(0 <= g[g.len() - 1] <= 65535);
    }
}

pub proof fn lemma_wide_limit_8()
    ensures
        wide_limit(8) == u128::MAX + 1,
{
    reveal_with_fuel(wide_limit, 9);
}

pub proof fn lemma_zeros_from(g: Seq<int>, i: int)
    requires
        0 <= i <= g.len(),
    ensures
        0 <= zeros_from(g, i) <= g.len() - i,
        forall|j: int| i <= j < i + zeros_from(g, i) ==> g[j] == 0,
    decreases g.len() - i,
{
    if i < g.len() && g[i] == 0 {
        lemma_zeros_from(g, i + 1);
    }
}

pub proof fn lemma_longest_zeros(g: Seq<int>, n: int)
    requires
        0 <= n <= g.len(),
    ensures
        ({
            let run = longest_zeros(g, n);
            &&& 0 <= run.0 && 0 <= run.1 && run.0 + run.1 <= g.len()
            &&& forall|j: int| run.0 <= j < run.0 + run.1 ==> g[j] == 0
            &&& forall|j: int| 0 <= j < n ==> #[trigger] zeros_from(g, j) <= run.1
        }),
    decreases n,
{
    if n > 0 {
        lemma_longest_zeros(g, n - 1);
        lemma_zeros_from(g, n - 1);
    }
}

proof fn lemma_ipv6_mapped_reads_back(v: int)
    requires
        0 <= v <= u128::MAX,
        v / 4294967296 == 65535,
    ensures
        ipv6_groups(ipv6_text(v)) is Some,
        wide_value(ipv6_groups(ipv6_text(v))->0) == v,
{
    let low = v % 4294967296;
    let s = ipv6_text(v);
    let tail = ipv4_text(low);
    let ffff = seq!['f', 'f', 'f', 'f'];
    lemma_gap_is(s, 0, 0);
    assert(s.take(0) =~= Seq::<char>::empty());
    let right = s.skip(2);
    let p = seq![ffff, tail];
    assert(p.skip(1) =~= seq![tail]);
    assert(join(p.skip(1), seq![':']) == tail);
    assert(right =~= join(p, seq![':']));
    assert(!tail.contains(':')) by {
        lemma_ipv4_text_chars(low);
    }
    assert forall|i: int| 0 <= i < p.len() implies !(#[trigger] p[i]).contains(':') by {
        if i == 0 {
        } else {
        }
    }
    lemma_split_join(p, ':');
    law_ipv4_text_reads_back(low);
    assert(group_value(ffff) == Some(65535int)) by {
        reveal_with_fuel(crate::number::digits_value, 5);
        assert(ffff.drop_last().drop_last().drop_last().drop_last() =~= Seq::<char>::empty());
    }
    lemma_not_v4(ffff);
    reveal_with_fuel(groups_value, 3);
    let r = seq![65535int, low / 65536, low % 65536];
    assert(seq![65535int] + seq![low / 65536, low % 65536] =~= r);
    assert(groups_value(p, true) == Some(r));
    let all = Seq::<int>::empty() + zeros(5) + r;
    assert(ipv6_groups(s) == Some(all));
    assert(all =~= seq![0int, 0int, 0int, 0int, 0int, 65535int, low / 65536, low % 65536]);
    let a7 = all.drop_last();
    let a6 = a7.drop_last();
    let a5 = a6.drop_last();
    assert(a5 =~= zeros(5));
    lemma_wide_value_zeros(5);
    assert(wide_value(a6) == 65535);
    assert(wide_value(a7) == 65535 * 65536 + low / 65536);
    assert(wide_value(all) == (65535 * 65536 + low / 65536) * 65536 + low % 65536);
}

proof fn lemma_wide_value_zeros(n: nat)
    ensures
        wide_value(zeros(n as int)) == 0,
    decreases n,
{
    if n > 0 {
        assert(zeros(n as int).drop_last() =~= zeros(n - 1));
        lemma_wide_value_zeros((n - 1) as nat);
    }
}

proof fn lemma_ipv4_text_chars(v: int)
    requires
        0 <= v <= u32::MAX,
    ensures
        forall|i: int|
            0 <= i < ipv4_text(v).len() ==> #[trigger] ipv4_text(v)[i] == '.' || is_digit(
                ipv4_text(v)[i],
                10,
            ),
{
    let a = decimal_text(v / 16777216);
    let b = decimal_text(v / 65536 % 256);
    let c = decimal_text(v / 256 % 256);
    let d = decimal_text(v % 256);
    lemma_number_text(v / 16777216, 10);
    lemma_number_text(v / 65536 % 256, 10);
    lemma_number_text(v / 256 % 256, 10);
    lemma_number_text(v % 256, 10);
    let dot = seq!['.'];
    assert(seq![a, b, c, d].skip(1) =~= seq![b, c, d]);
    assert(seq![b, c, d].skip(1) =~= seq![c, d]);
    assert(seq![c, d].skip(1) =~= seq![d]);
    assert(join(seq![d], dot) == d);
    assert(join(seq![c, d], dot) == c + dot + d);
    assert(join(seq![b, c, d], dot) == b + dot + (c + dot + d));
    assert(ipv4_text(v) == a + dot + (b + dot + (c + dot + d)));
    assert forall|i: int| 0 <= i < ipv4_text(v).len() implies #[trigger] ipv4_text(v)[i] == '.'
        || is_digit(ipv4_text(v)[i], 10) by {
        let t = ipv4_text(v);
        let la = a.len() as int;
        let lb = la + 1 + b.len();
        let lc = lb + 1 + c.len();
        if i < la {
            assert(t[i] == a[i]);
        } else if i == la {
        } else if i < lb {
            assert(t[i] == b[i - la - 1]);
        } else if i == lb {
        } else if i < lc {
            assert(t[i] == c[i - lb - 1]);
        } else if i == lc {
        } else {
            assert(t[i] == d[i - lc - 1]);
        }
    }
}

/// Groups on the two sides of `::` read back with zeros between them.
proof fn lemma_gap_text(l: Seq<int>, r: Seq<int>)
    requires
        forall|i: int| 0 <= i < l.len() ==> 0 <= #[trigger] l[i] <= 65535,
        forall|i: int| 0 <= i < r.len() ==> 0 <= #[trigger] r[i] <= 65535,
        l.len() + r.len() <= 7,
    ensures
        ipv6_groups(colon_text(l) + seq![':', ':'] + colon_text(r)) == Some(
            l + zeros(8 - l.len() - r.len()) + r,
        ),
{
    let lt = colon_text(l);
    let rt = colon_text(r);
    let s = lt + seq![':', ':'] + rt;
    lemma_no_gap(l);
    lemma_colon_text(l, false);
    lemma_colon_text(r, true);
    let k = lt.len() as int;
    assert forall|j: int| 0 <= j < k implies !(#[trigger] s[j] == ':' && s[j + 1] == ':') by {
        if j + 1 < k {
            assert(s[j] == lt[j] && s[j + 1] == lt[j + 1]);
        } else {
            assert(s[j] == lt.last());
        }
    }
    lemma_gap_is(s, 0, k);
    assert(s.take(k) =~= lt);
    assert(s.skip(k + 2) =~= rt);
}

proof fn lemma_ipv6_plain_reads_back(v: int)
    requires
        0 <= v <= u128::MAX,
        v / 4294967296 != 65535,
    ensures
        ipv6_groups(ipv6_text(v)) is Some,
        wide_value(ipv6_groups(ipv6_text(v))->0) == v,
{
    lemma_wide_limit_8();
    lemma_wide_groups(v, 8);
    let g = wide_groups(v, 8);
    lemma_longest_zeros(g, 8);
    let run = longest_zeros(g, 8);
    let s = ipv6_text(v);
    if run.1 > 1 {
        let l = g.take(run.0);
        let r = g.skip(run.0 + run.1);
        assert forall|i: int| 0 <= i < l.len() implies 0 <= #[trigger] l[i] <= 65535 by {
            assert(l[i] == g[i]);
        }
        assert forall|i: int| 0 <= i < r.len() implies 0 <= #[trigger] r[i] <= 65535 by {
            assert(r[i] == g[i + run.0 + run.1]);
        }
        lemma_gap_text(l, r);
        assert(l + zeros(8 - l.len() - r.len()) + r =~= g);
    } else {
        assert(s == colon_text(g));
        assert(g.len() == 8);
        lemma_no_gap(g);
        lemma_colon_text(g, true);
        lemma_gap_none(s, 0);
    }
}

/// The text of an address reads back as the address.
pub proof fn law_ip_text_reads_back(ip: IpAddress)
    ensures
        ip_value(ip_text(ip)) == Some(ip),
{
    match ip {
        IpAddress::V4(v) => {
            law_ipv4_text_reads_back(v as int);
        },
        IpAddress::V6(v) => {
            let t = ipv6_text(v as int);
            if v as int / 4294967296 == 65535 {
                lemma_ipv6_mapped_reads_back(v as int);
            } else {
                lemma_ipv6_plain_reads_back(v as int);
            }
            assert(t.contains(':')) by {
                lemma_ipv6_text_colon(v as int);
            }
            lemma_colon_not_v4(t);
        },
    }
}

/// Two addresses with the same text are the same address.
pub proof fn law_ip_text_tells_addresses_apart(a: IpAddress, b: IpAddress)
    requires
        ip_text(a) == ip_text(b),
    ensures
        a == b,
{
    law_ip_text_reads_back(a);
    law_ip_text_reads_back(b);
}

proof fn lemma_ipv6_text_colon(v: int)
    requires
        0 <= v <= u128::MAX,
    ensures
        ipv6_text(v).contains(':'),
{
    let t = ipv6_text(v);
    if v / 4294967296 == 65535 {
        assert(t[0] == ':');
    } else {
        lemma_wide_limit_8();
        lemma_wide_groups(v, 8);
        let g = wide_groups(v, 8);
        lemma_longest_zeros(g, 8);
        let run = longest_zeros(g, 8);
        if run.1 > 1 {
            assert(t[colon_text(g.take(run.0)).len() as int] == ':');
        } else {
            let p = hex_pieces(g);
            assert(t == p[0] + seq![':'] + join(p.skip(1), seq![':']));
            assert(t[p[0].len() as int] == ':');
        }
    }
}

pub proof fn lemma_colon_not_v4(s: Seq<char>)
    requires
        s.contains(':'),
    ensures
        ipv4_value(s) is None,
{
    if ipv4_value(s) is Some {
        let p = split(s, '.');
        lemma_split_covers(s, '.', ':');
        let i = choose|i: int| 0 <= i < p.len() && (#[trigger] p[i]).contains(':');
        assert(octet_value(p[i]) is Some);
        let j = choose|j: int| 0 <= j < p[i].len() && p[i][j] == ':';
        assert(is_digit(p[i][j], 10));
    }
}

/// A character other than the separator that occurs in the text occurs in a piece.
proof fn lemma_split_covers(s: Seq<char>, c: char, d: char)
    requires
        s.contains(d),
        c != d,
    ensures
        exists|i: int| 0 <= i < split(s, c).len() && (#[trigger] split(s, c)[i]).contains(d),
    decreases s.len(),
{
    crate::text::lemma_find(s, c);
    let p = split(s, c);
    if s.contains(c) {
        let k = crate::text::find(s, c);
        let at = choose|j: int| 0 <= j < s.len() && s[j] == d;
        let rest = s.skip(k + 1);
        if at < k {
            assert(s.take(k)[at] == d);
            assert(p[0] == s.take(k));
            assert(p[0].contains(d));
        } else {
            assert(rest[at - k - 1] == d);
            lemma_split_covers(rest, c, d);
            let i = choose|i: int|
                0 <= i < split(rest, c).len() && (#[trigger] split(rest, c)[i]).contains(d);
            assert(p[i + 1] == split(rest, c)[i]);
        }
    } else {
        assert(p[0] == s);
    }
}

/// Sixteen-bit groups as integers.
pub open spec fn ints(g: Seq<u16>) -> Seq<int> {
    g.map_values(|x: u16| x as int)
}

fn read_octet(p: &[char]) -> (res: Option<u8>)
    ensures
        match res {
            Some(v) => octet_value(p@) == Some(v as int),
            None => octet_value(p@) is None,
        },
{
    if p.len() < 1 || p.len() > 3 || (p.len() > 1 && p[0] == '0') {
        return None;
    }
    match read_number(p, 10, 255) {
        Some(v) => Some(v as u8),
        None => None,
    }
}

fn read_ipv4(s: &[char]) -> (res: Option<u32>)
    ensures
        match res {
            Some(v) => ipv4_value(s@) == Some(v as int),
            None => ipv4_value(s@) is None,
        },
{
    let pieces = cut(s, '.');
    let ghost p = split(s@, '.');
    if pieces.len() != 4 {
        return None;
    }
    assert(forall|i: int| 0 <= i < 4 ==> #[trigger] p[i] == pieces@[i]@);
    match (
        read_octet(&pieces[0]),
        read_octet(&pieces[1]),
        read_octet(&pieces[2]),
        read_octet(&pieces[3]),
    ) {
        (Some(a), Some(b), Some(c), Some(d)) => {
            Some((a as u32) * 16777216 + (b as u32) * 65536 + (c as u32) * 256 + (d as u32))
        },
        _ => None,
    }
}

fn read_group(p: &[char]) -> (res: Option<u16>)
    ensures
        match res {
            Some(v) => group_value(p@) == Some(v as int),
            None => group_value(p@) is None,
        },
{
    if p.len() < 1 || p.len() > 4 {
        return None;
    }
    match read_number(p, 16, 65535) {
        Some(v) => Some(v as u16),
        None => None,
    }
}

fn read_groups(pieces: &Vec<Vec<char>>, start: usize, v4_tail: bool) -> (res: Option<Vec<u16>>)
    requires
        start <= pieces@.len(),
    ensures
        match res {
            Some(g) => groups_value(texts(pieces@).skip(start as int), v4_tail) == Some(ints(g@)),
            None => groups_value(texts(pieces@).skip(start as int), v4_tail) is None,
        },
    decreases pieces@.len() - start,
{
    let ghost p = texts(pieces@).skip(start as int);
    if start == pieces.len() {
        let g: Vec<u16> = Vec::new();
        assert(ints(g@) =~= Seq::<int>::empty());
        return Some(g);
    }
    assert(p[0] == pieces@[start as int]@);
    if start + 1 == pieces.len() && v4_tail {
        if let Some(v) = read_ipv4(&pieces[start]) {
            let mut g: Vec<u16> = Vec::new();
            g.push((v / 65536) as u16);
            g.push((v % 65536) as u16);
            assert(ints(g@) =~= seq![v as int / 65536, v as int % 65536]);
            return Some(g);
        }
    }
    assert(p.skip(1) =~= texts(pieces@).skip(start + 1));
    match (read_group(&pieces[start]), read_groups(pieces, start + 1, v4_tail)) {
        (Some(first), Some(rest)) => {
            let mut g = rest;
            g.insert(0, first);
            assert(ints(g@) =~= seq![first as int] + ints(rest@));
            Some(g)
        },
        _ => None,
    }
}

fn read_side(s: &[char], v4_tail: bool) -> (res: Option<Vec<u16>>)
    ensures
        match res {
            Some(g) => side_groups(s@, v4_tail) == Some(ints(g@)),
            None => side_groups(s@, v4_tail) is None,
        },
{
    if s.len() == 0 {
        let g: Vec<u16> = Vec::new();
        assert(ints(g@) =~= Seq::<int>::empty());
        return Some(g);
    }
    let pieces = cut(s, ':');
    assert(texts(pieces@).skip(0) =~= texts(pieces@));
    read_groups(&pieces, 0, v4_tail)
}

fn find_gap(s: &[char]) -> (res: Option<usize>)
    ensures
        match res {
            Some(k) => gap_from(s@, 0) == Some(k as int) && k + 1 < s@.len(),
            None => gap_from(s@, 0) is None,
        },
{
    let mut i: usize = 0;
    while i < s.len() && s.len() - i > 1
        invariant
            i <= s@.len(),
            gap_from(s@, 0) == gap_from(s@, i as int),
        decreases s@.len() - i,
    {
        if s[i] == ':' && s[i + 1] == ':' {
            return Some(i);
        }
        i += 1;
    }
    None
}

fn read_ipv6_groups(s: &[char]) -> (res: Option<Vec<u16>>)
    ensures
        match res {
            Some(g) => ipv6_groups(s@) == Some(ints(g@)) && g@.len() == 8,
            None => ipv6_groups(s@) is None,
        },
{
    match find_gap(s) {
        Some(k) => {
            let end: usize = s.len();
            let left = piece(s, 0, k);
            let right = piece(s, k + 2, end);
            assert(left@ =~= s@.take(k as int));
            assert(right@ =~= s@.skip(k + 2));
            match (read_side(&left, false), read_side(&right, true)) {
                (Some(l), Some(r)) => {
                    if l.len() > 7 || r.len() > 7 || l.len() + r.len() > 7 {
                        return None;
                    }
                    let ghost lead = l@;
                    let n: usize = 8 - l.len() - r.len();
                    let mut g = l;
                    let mut i: usize = 0;
                    while i < n
                        invariant
                            i <= n,
                            lead.len() + n <= 8,
                            ints(g@) == ints(lead) + zeros(i as int),
                        decreases n - i,
                    {
                        let ghost before = g@;
                        g.push(0);
                        i += 1;
                        assert(ints(g@) =~= ints(before).push(0));
                        assert(zeros(i as int) =~= zeros(i - 1).push(0));
                        assert(ints(g@) =~= ints(lead) + zeros(i as int));
                    }
                    let ghost middle = g@;
                    let mut j: usize = 0;
                    while j < r.len()
                        invariant
                            j <= r@.len(),
                            g@ == middle + r@.take(j as int),
                        decreases r@.len() - j,
                    {
                        g.push(r[j]);
                        j += 1;
                        assert(r@.take(j as int) =~= r@.take(j - 1).push(r@[j - 1]));
                    }
                    assert(r@.take(j as int) =~= r@);
                    assert(ints(g@) =~= ints(lead) + zeros(n as int) + ints(r@));
                    assert(g@.len() == ints(g@).len());
                    Some(g)
                },
                _ => None,
            }
        },
        None => {
            let pieces = cut(s, ':');
            assert(texts(pieces@).skip(0) =~= texts(pieces@));
            match read_groups(&pieces, 0, true) {
                Some(g) => {
                    assert(g@.len() == ints(g@).len());
                    if g.len() == 8 {
                        Some(g)
                    } else {
                        None
                    }
                },
                None => None,
            }
        },
    }
}

fn wide_number(g: &Vec<u16>) -> (res: u128)
    requires
        g@.len() == 8,
    ensures
        res == wide_value(ints(g@)),
{
    let ghost all = ints(g@);
    let mut v: u128 = 0;
    let mut i: usize = 0;
    assert(all.take(0) =~= Seq::<int>::empty());
    while i < g.len()
        invariant
            i <= g@.len(),
            g@.len() == 8,
            all == ints(g@),
            v == wide_value(all.take(i as int)),
        decreases g@.len() - i,
    {
        let ghost next = all.take(i + 1);
        proof {
            assert(next.drop_last() =~= all.take(i as int));
            assert(next.last() == g@[i as int] as int);
            lemma_wide_value_bound(next);
            lemma_wide_limit_grows((i + 1) as nat, 8);
            lemma_wide_limit_8();
        }
        v = v * 65536 + g[i] as u128;
        i += 1;
    }
    assert(all.take(i as int) =~= all);
    v
}

proof fn lemma_wide_limit_grows(n: nat, m: nat)
    requires
        n <= m,
    ensures
        0 < wide_limit(n) <= wide_limit(m),
    decreases m,
{
    if n < m {
        lemma_wide_limit_grows(n, (m - 1) as nat);
    } else if n > 0 {
        lemma_wide_limit_grows((n - 1) as nat, (n - 1) as nat);
    }
}

fn split_groups(v: u128, n: usize) -> (res: Vec<u16>)
    ensures
        ints(res@) == wide_groups(v as int, n as nat),
    decreases n,
{
    if n == 0 {
        let res: Vec<u16> = Vec::new();
        assert(ints(res@) =~= Seq::<int>::empty());
        res
    } else {
        let mut res = split_groups(v / 65536, n - 1);
        let ghost before = res@;
        res.push((v % 65536) as u16);
        assert(ints(res@) =~= ints(before).push(v as int % 65536));
        res
    }
}

/// Adds `sep`, where something precedes it, and then `next`.
fn append_joined(out: &mut Vec<char>, first: bool, sep: char, next: &[char])
    ensures
        final(out)@ == if first {
            old(out)@ + next@
        } else {
            old(out)@ + seq![sep] + next@
        },
{
    if !first {
        out.push(sep);
    }
    let ghost start = out@;
    let mut i: usize = 0;
    assert(next@.take(0) =~= Seq::<char>::empty());
    while i < next.len()
        invariant
            i <= next@.len(),
            out@ == start + next@.take(i as int),
        decreases next@.len() - i,
    {
        out.push(next[i]);
        i += 1;
        assert(next@.take(i as int) =~= next@.take(i - 1).push(next@[i - 1]));
    }
    assert(next@.take(i as int) =~= next@);
}

fn write_ipv4(v: u32) -> (res: Vec<char>)
    ensures
        res@ == ipv4_text(v as int),
{
    let a = write_decimal((v / 16777216) as u64);
    let b = write_decimal((v / 65536 % 256) as u64);
    let c = write_decimal((v / 256 % 256) as u64);
    let d = write_decimal((v % 256) as u64);
    let mut res: Vec<char> = Vec::new();
    append_joined(&mut res, true, '.', &a);
    append_joined(&mut res, false, '.', &b);
    append_joined(&mut res, false, '.', &c);
    append_joined(&mut res, false, '.', &d);
    proof {
        let dot = seq!['.'];
        let none = Seq::<Seq<char>>::empty();
        lemma_join_push(none, a@, dot);
        lemma_join_push(none.push(a@), b@, dot);
        lemma_join_push(none.push(a@).push(b@), c@, dot);
        lemma_join_push(none.push(a@).push(b@).push(c@), d@, dot);
        assert(none.push(a@).push(b@).push(c@).push(d@) =~= seq![a@, b@, c@, d@]);
        assert(Seq::<char>::empty() + a@ =~= a@);
        assert(res@ =~= join(seq![a@, b@, c@, d@], dot));
    }
    res
}

fn write_groups(g: &Vec<u16>, start: usize, end: usize) -> (res: Vec<char>)
    requires
        start <= end <= g@.len(),
    ensures
        res@ == colon_text(ints(g@).subrange(start as int, end as int)),
{
    let mut res: Vec<char> = Vec::new();
    let mut i: usize = start;
    let ghost all = ints(g@);
    assert(hex_pieces(all.subrange(start as int, start as int)) =~= Seq::<Seq<char>>::empty());
    while i < end
        invariant
            start <= i <= end <= g@.len(),
            all == ints(g@),
            res@ == colon_text(all.subrange(start as int, i as int)),
        decreases end - i,
    {
        let text = write_number(g[i] as u64, 16);
        let ghost done = all.subrange(start as int, i as int);
        let ghost next = all.subrange(start as int, i + 1);
        append_joined(&mut res, i == start, ':', &text);
        proof {
            assert(hex_pieces(next) =~= hex_pieces(done).push(text@));
            lemma_join_push(hex_pieces(done), text@, seq![':']);
            if i == start {
                assert(Seq::<char>::empty() + text@ =~= text@);
            }
        }
        i += 1;
    }
    res
}

fn count_zeros(g: &Vec<u16>, start: usize) -> (res: usize)
    requires
        start <= g@.len(),
    ensures
        res == zeros_from(ints(g@), start as int),
        res <= g@.len() - start,
    decreases g@.len() - start,
{
    if start < g.len() && g[start] == 0 {
        1 + count_zeros(g, start + 1)
    } else {
        0
    }
}

fn write_ipv6(v: u128) -> (res: Vec<char>)
    ensures
        res@ == ipv6_text(v as int),
{
    if v / 4294967296 == 65535 {
        let low: u32 = (v % 4294967296) as u32;
        let tail = write_ipv4(low);
        let mut res: Vec<char> = vec![':', ':', 'f', 'f', 'f', 'f', ':'];
        append_joined(&mut res, true, ':', &tail);
        assert(res@ =~= ipv6_text(v as int));
        return res;
    }
    let g = split_groups(v, 8);
    let ghost all = ints(g@);
    proof {
        lemma_wide_limit_8();
        lemma_wide_groups(v as int, 8);
        assert(g@.len() == all.len());
    }
    let mut best_start: usize = 0;
    let mut best_len: usize = 0;
    let mut i: usize = 0;
    while i < 8
        invariant
            i <= 8,
            g@.len() == 8,
            all == ints(g@),
            (best_start as int, best_len as int) == longest_zeros(all, i as int),
        decreases 8 - i,
    {
        let here: usize = count_zeros(&g, i);
        if here > best_len {
            best_start = i;
            best_len = here;
        }
        i += 1;
    }
    proof {
        lemma_longest_zeros(all, 8);
    }
    if best_len > 1 {
        let mut res = write_groups(&g, 0, best_start);
        let right = write_groups(&g, best_start + best_len, 8);
        res.push(':');
        res.push(':');
        append_joined(&mut res, true, ':', &right);
        proof {
            assert(all.subrange(0, best_start as int) =~= all.take(best_start as int));
            assert(all.subrange(best_start + best_len, 8) =~= all.skip(best_start + best_len));
            assert(res@ =~= ipv6_text(v as int));
        }
        res
    } else {
        assert(all.subrange(0, 8) =~= all);
        write_groups(&g, 0, 8)
    }
}

impl IpAddress {
    /// The address that `raw` writes, if it is one.
    pub fn parse(raw: &str) -> (res: Option<IpAddress>)
        ensures
            res == ip_value(raw@),
    {
        Self::parse_chars(&chars_of(raw))
    }

    pub(crate) fn parse_chars(s: &[char]) -> (res: Option<IpAddress>)
        ensures
            res == ip_value(s@),
    {
        match read_ipv4(s) {
            Some(v) => Some(IpAddress::V4(v)),
            None => match read_ipv6_groups(s) {
                Some(g) => Some(IpAddress::V6(wide_number(&g))),
                None => None,
            },
        }
    }

    /// The text of the address.
    pub fn text(&self) -> (res: String)
        ensures
            res@ == ip_text(*self),
    {
        crate::text::string_of(
            &(match self {
                IpAddress::V4(v) => write_ipv4(*v),
                IpAddress::V6(v) => write_ipv6(*v),
            }),
        )
    }

    /// Whether this address comes before the other.
    pub fn comes_before(&self, other: &IpAddress) -> (res: bool)
        ensures
            res == ip_less(*self, *other),
    {
        match (self, other) {
            (IpAddress::V4(x), IpAddress::V4(y)) => *x < *y,
            (IpAddress::V4(_), IpAddress::V6(_)) => true,
            (IpAddress::V6(_), IpAddress::V4(_)) => false,
            (IpAddress::V6(x), IpAddress::V6(y)) => *x < *y,
        }
    }
}

/// An address and a port; `scope` is the zone of a version six address, 0 where none is
/// given.
#[derive(Clone, Copy, Debug, PartialEq, Eq, Structural)]
pub struct SocketAddress {
    pub ip: IpAddress,
    pub port: u16,
    pub scope: u32,
}

/// A port number: digits alone, up to 65535.
pub open spec fn port_value(s: Seq<char>) -> Option<int> {
    within(number_value(s, 10), 0, 65535)
}

/// `address:port`.
pub open spec fn socket_v4_value(s: Seq<char>) -> Option<SocketAddress> {
    match split_once(s, ':') {
        Some(p) => match (ipv4_value(p.0), port_value(p.1)) {
            (Some(v), Some(port)) => Some(
                SocketAddress { ip: IpAddress::V4(v as u32), port: port as u16, scope: 0 },
            ),
            _ => None,
        },
        None => None,
    }
}

/// A version six address and its zone: `address` or `address%zone`.
pub open spec fn scoped_value(s: Seq<char>) -> Option<(Seq<int>, int)> {
    match split_once(s, '%') {
        Some(p) => match (
            ipv6_groups(p.0),
            within(number_value(p.1, 10), 0, u32::MAX as int),
        ) {
            (Some(g), Some(scope)) => Some((g, scope)),
            _ => None,
        },
        None => match ipv6_groups(s) {
            Some(g) => Some((g, 0)),
            None => None,
        },
    }
}

/// `[address]:port`, with an optional zone in the brackets.
pub open spec fn socket_v6_value(s: Seq<char>) -> Option<SocketAddress> {
    if s.len() > 0 && s[0] == '[' {
        match split_once(s.skip(1), ']') {
            Some(p) => if p.1.len() > 0 && p.1[0] == ':' {
                match (scoped_value(p.0), port_value(p.1.skip(1))) {
                    (Some(a), Some(port)) => Some(
                        SocketAddress {
                            ip: IpAddress::V6(wide_value(a.0) as u128),
                            port: port as u16,
                            scope: a.1 as u32,
                        },
                    ),
                    _ => None,
                }
            } else {
                None
            },
            None => None,
        }
    } else {
        None
    }
}

/// The address and port that `s` writes.
pub open spec fn socket_value(s: Seq<char>) -> Option<SocketAddress> {
    match socket_v4_value(s) {
        Some(a) => Some(a),
        None => socket_v6_value(s),
    }
}

fn read_socket_v4(s: &[char]) -> (res: Option<SocketAddress>)
    ensures
        res == socket_v4_value(s@),
{
    match cut_once(s, ':') {
        Some(p) => match (read_ipv4(&p.0), read_number(&p.1, 10, 65535)) {
            (Some(v), Some(port)) => Some(
                SocketAddress { ip: IpAddress::V4(v), port: port as u16, scope: 0 },
            ),
            _ => None,
        },
        None => None,
    }
}

fn read_scoped(s: &[char]) -> (res: Option<(Vec<u16>, u32)>)
    ensures
        match res {
            Some(a) => scoped_value(s@) == Some((ints(a.0@), a.1 as int)) && a.0@.len() == 8,
            None => scoped_value(s@) is None,
        },
{
    match cut_once(s, '%') {
        Some(p) => match (read_ipv6_groups(&p.0), read_number(&p.1, 10, 4294967295)) {
            (Some(g), Some(scope)) => Some((g, scope as u32)),
            _ => None,
        },
        None => match read_ipv6_groups(s) {
            Some(g) => Some((g, 0)),
            None => None,
        },
    }
}

fn read_socket_v6(s: &[char]) -> (res: Option<SocketAddress>)
    ensures
        res == socket_v6_value(s@),
{
    if s.len() == 0 || s[0] != '[' {
        return None;
    }
    let rest = piece(s, 1, s.len());
    assert(rest@ =~= s@.skip(1));
    match cut_once(&rest, ']') {
        Some(p) => {
            if p.1.len() == 0 || p.1[0] != ':' {
                return None;
            }
            let digits = piece(&p.1, 1, p.1.len());
            assert(digits@ =~= p.1@.skip(1));
            match (read_scoped(&p.0), read_number(&digits, 10, 65535)) {
                (Some(a), Some(port)) => Some(
                    SocketAddress {
                        ip: IpAddress::V6(wide_number(&a.0)),
                        port: port as u16,
                        scope: a.1,
                    },
                ),
                _ => None,
            }
        },
        None => None,
    }
}

impl SocketAddress {
    /// The address and port that `raw` writes, if it does.
    pub fn parse(raw: &str) -> (res: Option<SocketAddress>)
        ensures
            res == socket_value(raw@),
    {
        Self::parse_chars(&chars_of(raw))
    }

    pub(crate) fn parse_chars(s: &[char]) -> (res: Option<SocketAddress>)
        ensures
            res == socket_value(s@),
    {
        match read_socket_v4(s) {
            Some(a) => Some(a),
            None => read_socket_v6(s),
        }
    }
}

} // verus!
