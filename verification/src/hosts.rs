//! The active hosts by address, and their text in the hosts file.

use crate::ip::{ip_text, IpAddress};
use crate::sorted::{ascending, law_one_order_of_entries, lemma_entry_map, SortKey, SortedMap};
use crate::text::{join, lemma_join_push};
use vstd::prelude::*;
use vstd::string::StringExecFns;

verus! {

/// How long a host stays, and since when. A time to live of 0 means for ever.
#[derive(Clone, Copy, Debug, PartialEq, Eq, Structural)]
pub struct HostEntry {
    pub ttl_seconds: u64,
    pub registered_at_epoch_secs: i64,
}

/// Hosts in the order of their addresses, under one address in the order of their names.
pub type HostsByIp = SortedMap<(IpAddress, String), HostEntry>;

/// The hosts under one address.
pub struct IpHosts {
    pub ip: IpAddress,
    pub hosts: Vec<(String, HostEntry)>,
}

/// The hosts under one address, by their names.
pub struct IpHostsView {
    pub ip: IpAddress,
    pub hosts: Seq<(Seq<char>, HostEntry)>,
}

impl View for IpHosts {
    type V = IpHostsView;

    open spec fn view(&self) -> IpHostsView {
        IpHostsView { ip: self.ip, hosts: named(self.hosts@) }
    }
}

pub open spec fn named(s: Seq<(String, HostEntry)>) -> Seq<(Seq<char>, HostEntry)> {
    s.map_values(|e: (String, HostEntry)| (e.0@, e.1))
}

pub open spec fn group_views(s: Seq<IpHosts>) -> Seq<IpHostsView> {
    s.map_values(|g: IpHosts| g@)
}

/// One entry: address, name, and how long it stays.
pub open spec fn triples(
    s: Seq<((IpAddress, String), HostEntry)>,
) -> Seq<(IpAddress, Seq<char>, HostEntry)> {
    s.map_values(|e: ((IpAddress, String), HostEntry)| (e.0.0, e.0.1@, e.1))
}

/// Neighbouring entries with the same address gathered under it.
pub open spec fn gathered(s: Seq<(IpAddress, Seq<char>, HostEntry)>) -> Seq<IpHostsView>
    decreases s.len(),
{
    if s.len() == 0 {
        Seq::empty()
    } else {
        let before = gathered(s.drop_last());
        let last = s.last();
        if before.len() > 0 && before.last().ip == last.0 {
            before.drop_last().push(
                IpHostsView {
                    ip: last.0,
                    hosts: before.last().hosts.push((last.1, last.2)),
                },
            )
        } else {
            before.push(IpHostsView { ip: last.0, hosts: seq![(last.1, last.2)] })
        }
    }
}

/// The names under one address, in their order.
pub open spec fn names_of(g: IpHostsView) -> Seq<Seq<char>> {
    g.hosts.map_values(|e: (Seq<char>, HostEntry)| e.0)
}

/// A line of the hosts file: the address, then its hosts, with spaces between them.
pub open spec fn hosts_line(g: IpHostsView) -> Seq<char> {
    ip_text(g.ip) + seq![' '] + join(names_of(g), seq![' '])
}

pub open spec fn hosts_lines(groups: Seq<IpHostsView>) -> Seq<Seq<char>> {
    groups.map_values(|g: IpHostsView| hosts_line(g))
}

/// The whole hosts file: a line for each address, each with a line end; empty where there
/// is no host.
pub open spec fn hosts_text(groups: Seq<IpHostsView>) -> Seq<char> {
    if groups.len() == 0 {
        Seq::empty()
    } else {
        join(hosts_lines(groups), seq!['\n']) + seq!['\n']
    }
}

/// The hosts file for these entries.
pub open spec fn rendered(s: Seq<((IpAddress, String), HostEntry)>) -> Seq<char> {
    hosts_text(gathered(triples(s)))
}

/// The same hosts give the same file, whatever way the two came about.
pub proof fn law_rendering_is_determined(a: HostsByIp, b: HostsByIp)
    requires
        a.wf(),
        b.wf(),
        a@ == b@,
    ensures
        rendered(a.entries@) == rendered(b.entries@),
{
    law_one_order_of_entries(a.entries@, b.entries@);
    let x = triples(a.entries@);
    let y = triples(b.entries@);
    assert forall|i: int| 0 <= i < x.len() implies x[i] == y[i] by {
        assert(a.entries@[i].0@ == b.entries@[i].0@);
    }
    assert(x =~= y);
}

/// In the file the addresses stand in their order, each in one line, with its hosts in
/// their order; and the lines hold every host.
pub proof fn law_lines_are_sorted(h: HostsByIp)
    requires
        h.wf(),
    ensures
        ({
            let groups = gathered(triples(h.entries@));
            &&& forall|i: int, j: int|
                0 <= i < j < groups.len() ==> crate::ip::ip_less(
                    #[trigger] groups[i].ip,
                    #[trigger] groups[j].ip,
                )
            &&& forall|i: int, a: int, b: int|
                0 <= i < groups.len() && 0 <= a < b < groups[i].hosts.len()
                    ==> crate::text::text_less(
                    (#[trigger] groups[i].hosts[a]).0,
                    (#[trigger] groups[i].hosts[b]).0,
                )
            &&& forall|ip: IpAddress, name: Seq<char>| #[trigger]
                h@.contains_key((ip, name)) <==> holds(groups, ip, name)
        }),
{
    lemma_gathered(h.entries@);
    let s = h.entries@;
    let groups = gathered(triples(s));
    assert forall|ip: IpAddress, name: Seq<char>| #[trigger]
        h@.contains_key((ip, name)) <==> holds(groups, ip, name) by {
        if h@.contains_key((ip, name)) {
            let k = choose|k: int| 0 <= k < s.len() && #[trigger] s[k].0@ == (ip, name);
            assert(listed(s, ip, name));
        }
        if listed(s, ip, name) {
            let k = choose|k: int|
                0 <= k < s.len() && (#[trigger] s[k]).0.0 == ip && s[k].0.1@ == name;
            assert(s[k].0@ == (ip, name));
        }
    }
}

/// Whether a name is listed under an address.
pub open spec fn holds(groups: Seq<IpHostsView>, ip: IpAddress, name: Seq<char>) -> bool {
    exists|i: int, a: int|
        0 <= i < groups.len() && groups[i].ip == ip && 0 <= a < groups[i].hosts.len() && (
        #[trigger] groups[i].hosts[a]).0 == name
}

pub open spec fn listed(
    s: Seq<((IpAddress, String), HostEntry)>,
    ip: IpAddress,
    name: Seq<char>,
) -> bool {
    exists|k: int| 0 <= k < s.len() && (#[trigger] s[k]).0.0 == ip && s[k].0.1@ == name
}

proof fn lemma_gathered(s: Seq<((IpAddress, String), HostEntry)>)
    requires
        ascending(s),
    ensures
        ({
            let groups = gathered(triples(s));
            &&& (s.len() > 0 ==> groups.len() > 0 && groups.last().ip == s.last().0.0
                && groups.last().hosts.len() > 0 && groups.last().hosts.last().0
                == s.last().0.1@)
            &&& (s.len() == 0 ==> groups.len() == 0)
            &&& forall|i: int, j: int|
                0 <= i < j < groups.len() ==> crate::ip::ip_less(
                    #[trigger] groups[i].ip,
                    #[trigger] groups[j].ip,
                )
            &&& forall|i: int, a: int, b: int|
                0 <= i < groups.len() && 0 <= a < b < groups[i].hosts.len()
                    ==> crate::text::text_less(
                    (#[trigger] groups[i].hosts[a]).0,
                    (#[trigger] groups[i].hosts[b]).0,
                )
            &&& forall|ip: IpAddress, name: Seq<char>| #[trigger]
                holds(groups, ip, name) <==> listed(s, ip, name)
        }),
    decreases s.len(),
{
    let groups = gathered(triples(s));
    if s.len() > 0 {
        let t = s.drop_last();
        assert(triples(s).drop_last() =~= triples(t));
        assert forall|i: int, j: int| 0 <= i < j < t.len() implies <(IpAddress, String)>::less(
            #[trigger] t[i].0@,
            #[trigger] t[j].0@,
        ) by {
            assert(s[i].0@ == t[i].0@ && s[j].0@ == t[j].0@);
        }
        lemma_gathered(t);
        let before = gathered(triples(t));
        let last = s.last();
        let ip = last.0.0;
        let name = last.0.1@;
        assert(s[s.len() - 1] == last);
        if t.len() > 0 {
            assert(s[t.len() - 1] == t.last());
            assert(<(IpAddress, String)>::less(s[t.len() - 1].0@, s[s.len() - 1].0@));
        }
        let joins = before.len() > 0 && before.last().ip == ip;
        let n = groups.len() - 1;
        if joins {
            assert(groups[n].hosts == before.last().hosts.push((name, last.1)));
            assert forall|i: int| 0 <= i < n implies groups[i] == before[i] by {}
        } else {
            assert(groups[n].hosts == seq![(name, last.1)]);
            assert forall|i: int| 0 <= i < n implies groups[i] == before[i] by {}
        }
        assert forall|i: int, j: int| 0 <= i < j < groups.len() implies crate::ip::ip_less(
            #[trigger] groups[i].ip,
            #[trigger] groups[j].ip,
        ) by {
            if j < n {
                assert(before[i].ip == groups[i].ip && before[j].ip == groups[j].ip);
            } else if joins {
                assert(before[i].ip == groups[i].ip && before[n].ip == ip);
            } else {
                let m = before.len() - 1;
                assert(before[i].ip == groups[i].ip);
                if i < m {
                    assert(crate::ip::ip_less(before[i].ip, before[m].ip));
                    crate::ip::lemma_ip_less_order(before[i].ip, before[m].ip, ip);
                }
            }
        }
        assert forall|i: int, a: int, b: int|
            0 <= i < groups.len() && 0 <= a < b < groups[i].hosts.len() implies
            crate::text::text_less(
            (#[trigger] groups[i].hosts[a]).0,
            (#[trigger] groups[i].hosts[b]).0,
        ) by {
            if i < n {
                assert(before[i].hosts[a] == groups[i].hosts[a]);
                assert(before[i].hosts[b] == groups[i].hosts[b]);
            } else if joins {
                let hosts = before[n].hosts;
                assert(hosts[a] == groups[i].hosts[a]);
                let m = hosts.len() - 1;
                if b <= m {
                    assert(hosts[b] == groups[i].hosts[b]);
                } else if a < m {
                    assert(crate::text::text_less(hosts[a].0, hosts[m].0));
                    crate::text::lemma_text_less_transitive(hosts[a].0, hosts[m].0, name);
                }
            }
        }
        assert forall|q: IpAddress, w: Seq<char>| #[trigger]
            holds(groups, q, w) <==> listed(s, q, w) by {
            assert(holds(before, q, w) <==> listed(t, q, w));
            if holds(groups, q, w) {
                let (i, a) = choose|i: int, a: int|
                    0 <= i < groups.len() && groups[i].ip == q && 0 <= a < groups[i].hosts.len()
                        && (#[trigger] groups[i].hosts[a]).0 == w;
                if i < n {
                    assert(before[i].hosts[a].0 == w);
                    assert(holds(before, q, w));
                } else if a == groups[i].hosts.len() - 1 {
                    assert(s[s.len() - 1].0.0 == q && s[s.len() - 1].0.1@ == w);
                } else {
                    assert(before[n].hosts[a].0 == w);
                    assert(holds(before, q, w));
                }
                if listed(t, q, w) {
                    let k = choose|k: int|
                        0 <= k < t.len() && (#[trigger] t[k]).0.0 == q && t[k].0.1@ == w;
                    assert(s[k].0.0 == q && s[k].0.1@ == w);
                }
            }
            if listed(s, q, w) {
                let k = choose|k: int|
                    0 <= k < s.len() && (#[trigger] s[k]).0.0 == q && s[k].0.1@ == w;
                if k < t.len() {
                    assert(t[k].0.0 == q && t[k].0.1@ == w);
                    assert(listed(t, q, w));
                    let (i, a) = choose|i: int, a: int|
                        0 <= i < before.len() && before[i].ip == q && 0 <= a
                            < before[i].hosts.len() && (#[trigger] before[i].hosts[a]).0 == w;
                    assert(groups[i].hosts[a].0 == w);
                } else {
                    let a = groups[n].hosts.len() - 1;
                    assert(groups[n].hosts[a].0 == w);
                }
            }
        }
    }
}

/// What stands under an address was gathered there from an entry.
pub proof fn lemma_gathered_entries(s: Seq<(IpAddress, Seq<char>, HostEntry)>, i: int, a: int)
    requires
        0 <= i < gathered(s).len(),
        0 <= a < gathered(s)[i].hosts.len(),
    ensures
        ({
            let group = gathered(s)[i];
            s.contains((group.ip, group.hosts[a].0, group.hosts[a].1))
        }),
    decreases s.len(),
{
    let groups = gathered(s);
    let group = groups[i];
    let before = gathered(s.drop_last());
    if i == groups.len() - 1 && a == group.hosts.len() - 1 {
        assert(s[s.len() - 1] == (group.ip, group.hosts[a].0, group.hosts[a].1));
    } else {
        assert(before[i].ip == group.ip && before[i].hosts[a] == group.hosts[a]);
        lemma_gathered_entries(s.drop_last(), i, a);
        let wanted = (group.ip, group.hosts[a].0, group.hosts[a].1);
        let k = choose|k: int| 0 <= k < s.drop_last().len() && s.drop_last()[k] == wanted;
        assert(s[k] == wanted);
    }
}

/// The hosts gathered under their addresses.
pub fn group_by_ip(hosts: &HostsByIp) -> (res: Vec<IpHosts>)
    ensures
        group_views(res@) == gathered(triples(hosts.entries@)),
{
    let mut groups: Vec<IpHosts> = Vec::new();
    let ghost all = triples(hosts.entries@);
    let mut i: usize = 0;
    assert(all.take(0) =~= Seq::empty());
    assert(group_views(groups@) =~= Seq::<IpHostsView>::empty());
    while i < hosts.entries.len()
        invariant
            i <= hosts.entries@.len(),
            all == triples(hosts.entries@),
            group_views(groups@) == gathered(all.take(i as int)),
        decreases hosts.entries@.len() - i,
    {
        let ghost before = groups@;
        let ip: IpAddress = hosts.entries[i].0.0;
        let name: String = hosts.entries[i].0.1.clone();
        let entry: HostEntry = hosts.entries[i].1;
        let ghost next = all.take(i + 1);
        proof {
            assert(next.drop_last() =~= all.take(i as int));
            assert(next.last() == (ip, name@, entry));
            if before.len() > 0 {
                assert(group_views(before).last() == before.last()@);
            }
        }
        let n: usize = groups.len();
        if n > 0 && groups[n - 1].ip == ip {
            let mut last = groups.pop().unwrap();
            let ghost were = last.hosts@;
            last.hosts.push((name, entry));
            proof {
                assert(named(last.hosts@) =~= named(were).push((name@, entry)));
            }
            groups.push(last);
            assert(group_views(groups@) =~= group_views(before).drop_last().push(last@));
        } else {
            let mut fresh: Vec<(String, HostEntry)> = Vec::new();
            fresh.push((name, entry));
            assert(named(fresh@) =~= seq![(name@, entry)]);
            let group = IpHosts { ip, hosts: fresh };
            groups.push(group);
            assert(group_views(groups@) =~= group_views(before).push(group@));
        }
        i += 1;
    }
    assert(all.take(i as int) =~= all);
    groups
}

fn write_line(group: &IpHosts) -> (res: String)
    ensures
        res@ == hosts_line(group@),
{
    let mut res = group.ip.text();
    res.push(' ');
    let ghost start = res@;
    let ghost all = names_of(group@);
    let mut i: usize = 0;
    assert(all.take(0) =~= Seq::<Seq<char>>::empty());
    while i < group.hosts.len()
        invariant
            i <= group.hosts@.len(),
            all == names_of(group@),
            all.len() == group.hosts@.len(),
            res@ == start + join(all.take(i as int), seq![' ']),
        decreases group.hosts@.len() - i,
    {
        proof {
            assert(all[i as int] == group.hosts@[i as int].0@);
            assert(all.take(i + 1) =~= all.take(i as int).push(all[i as int]));
            lemma_join_push(all.take(i as int), all[i as int], seq![' ']);
        }
        if i > 0 {
            res.push(' ');
        }
        res.append(group.hosts[i].0.as_str());
        assert(res@ =~= start + join(all.take(i + 1), seq![' ']));
        i += 1;
    }
    assert(all.take(i as int) =~= all);
    res
}

/// The text of the hosts file.
pub fn render_hosts(hosts: &HostsByIp) -> (res: String)
    ensures
        res@ == rendered(hosts.entries@),
{
    let groups = group_by_ip(hosts);
    let ghost views = group_views(groups@);
    let ghost all = hosts_lines(views);
    let mut res = String::new();
    let mut i: usize = 0;
    assert(all.take(0) =~= Seq::<Seq<char>>::empty());
    while i < groups.len()
        invariant
            i <= groups@.len(),
            views == group_views(groups@),
            all == hosts_lines(views),
            all.len() == groups@.len(),
            res@ == join(all.take(i as int), seq!['\n']),
        decreases groups@.len() - i,
    {
        let line = write_line(&groups[i]);
        proof {
            assert(all[i as int] == line@);
            assert(all.take(i + 1) =~= all.take(i as int).push(line@));
            lemma_join_push(all.take(i as int), line@, seq!['\n']);
        }
        if i > 0 {
            res.push('\n');
        }
        res.append(line.as_str());
        assert(res@ =~= join(all.take(i + 1), seq!['\n']));
        i += 1;
    }
    assert(all.take(i as int) =~= all);
    if groups.len() > 0 {
        res.push('\n');
        assert(res@ =~= hosts_text(views));
    } else {
        assert(res@ =~= Seq::<char>::empty());
    }
    res
}

/// The names under `ip`, in their order.
pub fn names_under(hosts: &HostsByIp, ip: IpAddress) -> (res: Vec<String>)
    requires
        hosts.wf(),
    ensures
        forall|i: int, j: int|
            0 <= i < j < res@.len() ==> crate::text::text_less(
                #[trigger] res@[i]@,
                #[trigger] res@[j]@,
            ),
        forall|name: Seq<char>|
            hosts@.contains_key((ip, name)) <==> exists|i: int|
                0 <= i < res@.len() && #[trigger] res@[i]@ == name,
{
    let ghost s = hosts.entries@;
    let mut res: Vec<String> = Vec::new();
    let ghost mut from: Seq<int> = Seq::empty();
    let mut i: usize = 0;
    while i < hosts.entries.len()
        invariant
            i <= hosts.entries@.len(),
            hosts.wf(),
            s == hosts.entries@,
            from.len() == res@.len(),
            forall|a: int|
                0 <= a < from.len() ==> 0 <= #[trigger] from[a] < i && s[from[a]].0.0 == ip
                    && s[from[a]].0.1@ == res@[a]@,
            forall|a: int, b: int|
                0 <= a < b < from.len() ==> #[trigger] from[a] < #[trigger] from[b],
            forall|k: int|
                0 <= k < i && (#[trigger] s[k]).0.0 == ip ==> exists|a: int|
                    0 <= a < from.len() && #[trigger] from[a] == k,
        decreases hosts.entries@.len() - i,
    {
        let ghost old_from = from;
        if hosts.entries[i].0.0 == ip {
            res.push(hosts.entries[i].0.1.clone());
            proof {
                from = from.push(i as int);
                assert(from[from.len() - 1] == i);
                assert forall|k: int| 0 <= k < i + 1 && (#[trigger] s[k]).0.0 == ip implies exists|
                    a: int,
                | 0 <= a < from.len() && #[trigger] from[a] == k by {
                    if k < i {
                        let a = choose|a: int| 0 <= a < old_from.len() && #[trigger] old_from[a] == k;
                        assert(from[a] == k);
                    }
                }
            }
        }
        i += 1;
    }
    proof {
        assert forall|a: int, b: int| 0 <= a < b < res@.len() implies crate::text::text_less(
            #[trigger] res@[a]@,
            #[trigger] res@[b]@,
        ) by {
            assert(from[a] < from[b]);
            assert(<(IpAddress, String)>::less(s[from[a]].0@, s[from[b]].0@));
            assert(!crate::ip::ip_less(ip, ip));
        }
        lemma_entry_map(s);
        assert forall|name: Seq<char>|
            hosts@.contains_key((ip, name)) <==> exists|a: int|
                0 <= a < res@.len() && #[trigger] res@[a]@ == name by {
            if hosts@.contains_key((ip, name)) {
                let k = choose|k: int| 0 <= k < s.len() && #[trigger] s[k].0@ == (ip, name);
                assert(s[k].0.0 == ip);
                let a = choose|a: int| 0 <= a < from.len() && #[trigger] from[a] == k;
                assert(res@[a]@ == name);
            }
            if exists|a: int| 0 <= a < res@.len() && #[trigger] res@[a]@ == name {
                let a = choose|a: int| 0 <= a < res@.len() && #[trigger] res@[a]@ == name;
                assert(s[from[a]].0@ == (ip, name));
            }
        }
    }
    res
}

} // verus!
