//! What the hosts file says, word by word.

use crate::export::{exports, is_hosts_file, Export, ExportAction};
use crate::hosts::{
    gathered, holds, hosts_line, hosts_lines, hosts_text, law_lines_are_sorted,
    lemma_gathered_entries, names_of, rendered, triples, HostEntry, HostsByIp, IpHostsView,
};
use crate::ip::{
    colon_text, hex_pieces, ip_less, ip_text, ipv4_text, lemma_longest_zeros,
    lemma_wide_groups, lemma_wide_limit_8, law_ip_text_reads_back, longest_zeros, wide_groups,
    IpAddress,
};
use crate::number::{is_digit, lemma_number_text, number_text};
use crate::sorted::lemma_entry_map;
use crate::table::{hosts_of_rows, normalized, Rows, TableState};
use crate::table_laws::law_hosts_are_the_rows;
use crate::text::{join, lemma_join_push, lemma_split_join, split, text_less};
use vstd::prelude::*;

verus! {

/// Whether a text can stand as a word in a line.
pub open spec fn is_word(s: Seq<char>) -> bool {
    !s.contains(' ') && !s.contains('\n')
}

/// Whether every host name can stand as a word.
pub open spec fn names_are_words(m: Rows) -> bool {
    forall|k: (Seq<char>, Seq<char>)| #[trigger] m.contains_key(k) ==> is_word(k.1)
}

/// The words of a line.
pub open spec fn words(line: Seq<char>) -> Seq<Seq<char>> {
    split(line, ' ')
}

/// Whether some line of the file begins with the text of the address and has the name as a
/// later word.
pub open spec fn file_says(text: Seq<char>, ip: IpAddress, name: Seq<char>) -> bool {
    exists|i: int, j: int| #[trigger] says_at(text, i, j, ip, name)
}

pub open spec fn says_at(text: Seq<char>, i: int, j: int, ip: IpAddress, name: Seq<char>) -> bool {
    let lines = split(text, '\n');
    &&& 0 <= i < lines.len()
    &&& 1 <= j < words(lines[i]).len()
    &&& words(lines[i])[0] == ip_text(ip)
    &&& words(lines[i])[j] == name
}

proof fn lemma_join_chars(p: Seq<Seq<char>>, sep: Seq<char>, c: char)
    requires
        !sep.contains(c),
        forall|i: int| 0 <= i < p.len() ==> !(#[trigger] p[i]).contains(c),
    ensures
        !join(p, sep).contains(c),
    decreases p.len(),
{
    if p.len() > 1 {
        let rest = p.skip(1);
        assert forall|i: int| 0 <= i < rest.len() implies !(#[trigger] rest[i]).contains(c) by {
            assert(rest[i] == p[i + 1]);
        }
        lemma_join_chars(rest, sep, c);
        assert(!p[0].contains(c));
        lemma_concat_chars(p[0], sep, c);
        lemma_concat_chars(p[0] + sep, join(rest, sep), c);
    } else if p.len() == 1 {
        assert(!p[0].contains(c));
    }
}

proof fn lemma_concat_chars(a: Seq<char>, b: Seq<char>, c: char)
    requires
        !a.contains(c),
        !b.contains(c),
    ensures
        !(a + b).contains(c),
{
    assert forall|i: int| 0 <= i < (a + b).len() implies (a + b)[i] != c by {
        if i < a.len() {
            assert((a + b)[i] == a[i]);
            assert(a.contains(a[i]));
        } else {
            assert((a + b)[i] == b[i - a.len()]);
            assert(b.contains(b[i - a.len()]));
        }
    }
}

proof fn lemma_number_has_no(v: int, base: int, c: char)
    requires
        v >= 0,
        base == 10 || base == 16,
        !is_digit(c, base),
    ensures
        !number_text(v, base).contains(c),
{
    lemma_number_text(v, base);
    let t = number_text(v, base);
    assert forall|i: int| 0 <= i < t.len() implies t[i] != c by {
        assert(is_digit(t[i], base));
    }
}

proof fn lemma_ipv4_has_no(v: int, c: char)
    requires
        0 <= v <= u32::MAX,
        c == ' ' || c == '\n',
    ensures
        !ipv4_text(v).contains(c),
{
    lemma_number_has_no(v / 16777216, 10, c);
    lemma_number_has_no(v / 65536 % 256, 10, c);
    lemma_number_has_no(v / 256 % 256, 10, c);
    lemma_number_has_no(v % 256, 10, c);
    let p = seq![
        crate::number::decimal_text(v / 16777216),
        crate::number::decimal_text(v / 65536 % 256),
        crate::number::decimal_text(v / 256 % 256),
        crate::number::decimal_text(v % 256),
    ];
    assert forall|i: int| 0 <= i < p.len() implies !(#[trigger] p[i]).contains(c) by {
        if i == 0 {
        } else if i == 1 {
        } else if i == 2 {
        } else {
        }
    }
    lemma_join_chars(p, seq!['.'], c);
}

proof fn lemma_colon_text_has_no(g: Seq<int>, c: char)
    requires
        forall|i: int| 0 <= i < g.len() ==> 0 <= #[trigger] g[i],
        c == ' ' || c == '\n',
    ensures
        !colon_text(g).contains(c),
{
    let p = hex_pieces(g);
    assert forall|i: int| 0 <= i < p.len() implies !(#[trigger] p[i]).contains(c) by {
        assert(0 <= g[i]);
        lemma_number_has_no(g[i], 16, c);
    }
    lemma_join_chars(p, seq![':'], c);
}

proof fn lemma_ip_text_has_no(ip: IpAddress, c: char)
    requires
        c == ' ' || c == '\n',
    ensures
        !ip_text(ip).contains(c),
{
    match ip {
        IpAddress::V4(v) => {
            lemma_ipv4_has_no(v as int, c);
        },
        IpAddress::V6(w) => {
            let v = w as int;
            if v / 4294967296 == 65535 {
                let head = seq![':', ':', 'f', 'f', 'f', 'f', ':'];
                lemma_ipv4_has_no(v % 4294967296, c);
                lemma_concat_chars(head, ipv4_text(v % 4294967296), c);
            } else {
                lemma_wide_limit_8();
                lemma_wide_groups(v, 8);
                let g = wide_groups(v, 8);
                lemma_longest_zeros(g, 8);
                let run = longest_zeros(g, 8);
                if run.1 > 1 {
                    let l = g.take(run.0);
                    let r = g.skip(run.0 + run.1);
                    assert forall|i: int| 0 <= i < l.len() implies 0 <= #[trigger] l[i] by {
                        assert(l[i] == g[i]);
                    }
                    assert forall|i: int| 0 <= i < r.len() implies 0 <= #[trigger] r[i] by {
                        assert(r[i] == g[i + run.0 + run.1]);
                    }
                    lemma_colon_text_has_no(l, c);
                    lemma_colon_text_has_no(r, c);
                    lemma_concat_chars(colon_text(l), seq![':', ':'], c);
                    lemma_concat_chars(colon_text(l) + seq![':', ':'], colon_text(r), c);
                } else {
                    lemma_colon_text_has_no(g, c);
                }
            }
        },
    }
}

/// The text of an address is one word, and not empty.
pub proof fn lemma_ip_text_is_a_word(ip: IpAddress)
    ensures
        is_word(ip_text(ip)),
        ip_text(ip).len() > 0,
{
    lemma_ip_text_has_no(ip, ' ');
    lemma_ip_text_has_no(ip, '\n');
    law_ip_text_reads_back(ip);
    if ip_text(ip).len() == 0 {
        lemma_nothing_is_no_address(ip_text(ip));
    }
}

proof fn lemma_nothing_is_no_address(s: Seq<char>)
    requires
        s.len() == 0,
    ensures
        crate::ip::ip_value(s) is None,
{
    assert(split(s, '.') =~= seq![s]);
    assert(split(s, ':') =~= seq![s]);
    assert(crate::ip::gap_from(s, 0) is None);
    assert(crate::ip::groups_value(seq![s], true) is None) by {
        assert(seq![s][0] == s);
    }
}

proof fn lemma_group_has_hosts(s: Seq<(IpAddress, Seq<char>, HostEntry)>, i: int)
    requires
        0 <= i < gathered(s).len(),
    ensures
        gathered(s)[i].hosts.len() > 0,
    decreases s.len(),
{
    let before = gathered(s.drop_last());
    if i < gathered(s).len() - 1 {
        assert(gathered(s)[i] == before[i]);
        lemma_group_has_hosts(s.drop_last(), i);
    }
}

/// The words of the line of an address: its text, then the names.
proof fn lemma_line_words(g: IpHostsView)
    requires
        g.hosts.len() > 0,
        forall|a: int| 0 <= a < g.hosts.len() ==> is_word((#[trigger] g.hosts[a]).0),
    ensures
        words(hosts_line(g)) == seq![ip_text(g.ip)] + names_of(g),
        !hosts_line(g).contains('\n'),
{
    let names = names_of(g);
    let p = seq![ip_text(g.ip)] + names;
    lemma_ip_text_is_a_word(g.ip);
    assert(p.skip(1) =~= names);
    assert(hosts_line(g) =~= join(p, seq![' ']));
    assert forall|i: int| 0 <= i < p.len() implies is_word(#[trigger] p[i]) by {
        if i > 0 {
            assert(p[i] == g.hosts[i - 1].0);
        }
    }
    lemma_split_join(p, ' ');
    lemma_join_chars(p, seq![' '], '\n');
}

/// The lines of the file: one for each group, and behind the last line end nothing.
proof fn lemma_file_lines(groups: Seq<IpHostsView>)
    requires
        forall|i: int|
            0 <= i < groups.len() ==> !hosts_line(#[trigger] groups[i]).contains('\n'),
    ensures
        split(hosts_text(groups), '\n') == hosts_lines(groups).push(Seq::<char>::empty()),
{
    let lines = hosts_lines(groups);
    let none = Seq::<char>::empty();
    let all = lines.push(none);
    lemma_join_push(lines, none, seq!['\n']);
    assert(join(all, seq!['\n']) =~= hosts_text(groups));
    assert forall|i: int| 0 <= i < all.len() implies !(#[trigger] all[i]).contains('\n') by {
        if i < lines.len() {
            assert(all[i] == hosts_line(groups[i]));
        }
    }
    lemma_split_join(all, '\n');
}

/// What is known of the groups behind a file.
proof fn lemma_groups_of_file(m: Rows, hosts: HostsByIp)
    requires
        normalized(m),
        names_are_words(m),
        hosts.wf(),
        hosts_of_rows(m, hosts@),
    ensures
        ({
            let groups = gathered(triples(hosts.entries@));
            &&& forall|i: int|
                0 <= i < groups.len() ==> words(hosts_line(#[trigger] groups[i])) == seq![
                    ip_text(groups[i].ip),
                ] + names_of(groups[i])
            &&& forall|i: int|
                0 <= i < groups.len() ==> !hosts_line(#[trigger] groups[i]).contains('\n')
            &&& split(rendered(hosts.entries@), '\n') == hosts_lines(groups).push(
                Seq::<char>::empty(),
            )
        }),
{
    let entries = hosts.entries@;
    let groups = gathered(triples(entries));
    lemma_entry_map(entries);
    assert forall|i: int| 0 <= i < groups.len() implies words(hosts_line(#[trigger] groups[i]))
        == seq![ip_text(groups[i].ip)] + names_of(groups[i]) && !hosts_line(groups[i]).contains(
        '\n',
    ) by {
        let g = groups[i];
        lemma_group_has_hosts(triples(entries), i);
        assert forall|a: int| 0 <= a < g.hosts.len() implies is_word((#[trigger] g.hosts[a]).0) by {
            lemma_gathered_entries(triples(entries), i, a);
            let wanted = (g.ip, g.hosts[a].0, g.hosts[a].1);
            let k = choose|k: int|
                0 <= k < triples(entries).len() && triples(entries)[k] == wanted;
            assert(entries[k].0@ == (g.ip, g.hosts[a].0));
            assert(hosts@.contains_key((g.ip, g.hosts[a].0)));
            law_hosts_are_the_rows(m, hosts@, g.ip, g.hosts[a].0);
            assert(m.contains_key((ip_text(g.ip), g.hosts[a].0)));
        }
        lemma_line_words(g);
    }
    lemma_file_lines(groups);
}

/// The file says exactly what is stored: a host is stored under an address where some line's
/// first word is the text of the address and a later word of that line is the name.
pub proof fn law_file_says_what_is_stored(m: Rows, text: Seq<char>, ip: IpAddress, name: Seq<char>)
    requires
        normalized(m),
        names_are_words(m),
        is_hosts_file(m, text),
    ensures
        file_says(text, ip, name) <==> m.contains_key((ip_text(ip), name)),
{
    let hosts = choose|hosts: HostsByIp|
        hosts.wf() && hosts_of_rows(m, hosts@) && text == #[trigger] rendered(hosts.entries@);
    let groups = gathered(triples(hosts.entries@));
    let lines = split(text, '\n');
    lemma_groups_of_file(m, hosts);
    law_lines_are_sorted(hosts);
    law_hosts_are_the_rows(m, hosts@, ip, name);
    if m.contains_key((ip_text(ip), name)) {
        assert(holds(groups, ip, name));
        let (i, a) = choose|i: int, a: int|
            0 <= i < groups.len() && groups[i].ip == ip && 0 <= a < groups[i].hosts.len() && (
            #[trigger] groups[i].hosts[a]).0 == name;
        assert(lines[i] == hosts_line(groups[i]));
        assert(words(lines[i])[a + 1] == names_of(groups[i])[a]);
        assert(says_at(text, i, a + 1, ip, name));
    }
    if file_says(text, ip, name) {
        let (i, j) = choose|i: int, j: int| #[trigger] says_at(text, i, j, ip, name);
        if i < groups.len() {
            assert(lines[i] == hosts_line(groups[i]));
            let g = groups[i];
            assert(words(lines[i])[0] == ip_text(g.ip));
            crate::ip::law_ip_text_tells_addresses_apart(g.ip, ip);
            assert(words(lines[i])[j] == names_of(g)[j - 1]);
            assert(g.hosts[j - 1].0 == name);
            assert(holds(groups, ip, name));
            assert(hosts@.contains_key((ip, name)));
        } else {
            let none = Seq::<char>::empty();
            assert(lines[i] == none);
            assert(words(none) =~= seq![none]);
        }
    }
}

/// An export of a table is about to write a file that says exactly what is stored, and will
/// note the change that the table has come to.
pub proof fn law_export_writes_what_is_stored(
    e: Export,
    t: TableState,
    forced: bool,
    ip: IpAddress,
    name: Seq<char>,
)
    requires
        normalized(t.rows),
        names_are_words(t.rows),
        exports(e, t, forced),
    ensures
        file_says(e.rendered@, ip, name) <==> t.rows.contains_key((ip_text(ip), name)),
        e.db_generation == t.db_generation,
        e.forced == forced,
        !e.replaced,
        e.action == ExportAction::WriteTemp,
{
    law_file_says_what_is_stored(t.rows, e.rendered@, ip, name);
}

/// Every line but the empty one behind the last line end begins with an address of its own, in
/// the order of the addresses; the names behind it stand in their order, each once.
pub proof fn law_file_is_sorted(m: Rows, text: Seq<char>)
    requires
        normalized(m),
        names_are_words(m),
        is_hosts_file(m, text),
    ensures
        ({
            let lines = split(text, '\n');
            &&& lines.len() > 0
            &&& lines.last().len() == 0
            &&& forall|i: int| 0 <= i < lines.len() - 1 ==> is_host_line(#[trigger] lines[i])
            &&& forall|i: int, j: int, a: IpAddress, b: IpAddress|
                0 <= i < j < lines.len() - 1 && words(#[trigger] lines[i])[0] == #[trigger] ip_text(a)
                    && words(#[trigger] lines[j])[0] == #[trigger] ip_text(b) ==> ip_less(a, b)
        }),
{
    let hosts = choose|hosts: HostsByIp|
        hosts.wf() && hosts_of_rows(m, hosts@) && text == #[trigger] rendered(hosts.entries@);
    let groups = gathered(triples(hosts.entries@));
    let lines = split(text, '\n');
    lemma_groups_of_file(m, hosts);
    law_lines_are_sorted(hosts);
    assert forall|i: int| 0 <= i < lines.len() - 1 implies is_host_line(#[trigger] lines[i]) by {
        assert(lines[i] == hosts_line(groups[i]));
        let g = groups[i];
        let w = words(lines[i]);
        lemma_group_has_hosts(triples(hosts.entries@), i);
        assert(w[0] == ip_text(g.ip));
        assert forall|x: int, y: int| 1 <= x < y < w.len() implies text_less(
            #[trigger] w[x],
            #[trigger] w[y],
        ) by {
            assert(w[x] == g.hosts[x - 1].0 && w[y] == g.hosts[y - 1].0);
        }
    }
    assert forall|i: int, j: int, a: IpAddress, b: IpAddress|
        0 <= i < j < lines.len() - 1 && words(#[trigger] lines[i])[0] == #[trigger] ip_text(a)
            && words(#[trigger] lines[j])[0] == #[trigger] ip_text(b) implies ip_less(a, b) by {
        assert(lines[i] == hosts_line(groups[i]) && lines[j] == hosts_line(groups[j]));
        crate::ip::law_ip_text_tells_addresses_apart(groups[i].ip, a);
        crate::ip::law_ip_text_tells_addresses_apart(groups[j].ip, b);
        assert(ip_less(groups[i].ip, groups[j].ip));
    }
}

/// Whether a line is an address and at least one name, the names ascending.
pub open spec fn is_host_line(line: Seq<char>) -> bool {
    let w = words(line);
    &&& w.len() >= 2
    &&& exists|ip: IpAddress| w[0] == #[trigger] ip_text(ip)
    &&& forall|x: int, y: int| 1 <= x < y < w.len() ==> text_less(#[trigger] w[x], #[trigger] w[y])
}

/// The line of an address is its text and then, for each of its hosts, a space and the name as
/// it is.
pub proof fn law_line_by_host(ip: IpAddress, hosts: Seq<(Seq<char>, HostEntry)>, last: (Seq<char>, HostEntry))
    ensures
        hosts_line(IpHostsView { ip, hosts: seq![last] }) == ip_text(ip) + seq![' '] + last.0,
        hosts.len() > 0 ==> hosts_line(IpHostsView { ip, hosts: hosts.push(last) }) == hosts_line(
            IpHostsView { ip, hosts },
        ) + seq![' '] + last.0,
{
    let one = names_of(IpHostsView { ip, hosts: seq![last] });
    assert(one =~= seq![last.0]);
    let before = names_of(IpHostsView { ip, hosts });
    let all = names_of(IpHostsView { ip, hosts: hosts.push(last) });
    assert(all =~= before.push(last.0));
    lemma_join_push(before, last.0, seq![' ']);
    if hosts.len() > 0 {
        assert(hosts_line(IpHostsView { ip, hosts: hosts.push(last) }) =~= hosts_line(
            IpHostsView { ip, hosts },
        ) + seq![' '] + last.0);
    }
}

/// The file is the lines of its addresses, each with a line end behind it, and empty where there
/// is no host.
pub proof fn law_file_by_line(groups: Seq<IpHostsView>, last: IpHostsView)
    ensures
        hosts_text(Seq::<IpHostsView>::empty()) == Seq::<char>::empty(),
        hosts_text(groups.push(last)) == hosts_text(groups) + hosts_line(last) + seq!['\n'],
{
    let all = hosts_lines(groups.push(last));
    assert(all =~= hosts_lines(groups).push(hosts_line(last)));
    lemma_join_push(hosts_lines(groups), hosts_line(last), seq!['\n']);
    assert(hosts_text(groups.push(last)) =~= hosts_text(groups) + hosts_line(last) + seq!['\n']);
}

/// The file of a table has a line for each address that has a host, and each line holds the
/// hosts under it.
pub proof fn law_file_of_hosts(h: HostsByIp)
    ensures
        rendered(h.entries@) == hosts_text(gathered(triples(h.entries@))),
{
}

} // verus!
