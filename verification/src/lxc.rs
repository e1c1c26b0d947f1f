//! Which hosts to register, as `lxc ls --format json` shows them.

use crate::cidr::Cidr;
use crate::failure::{plain_failure, Failure};
use crate::ip::{ip_less, ip_value, lemma_ip_less_order, IpAddress};
use crate::json::{Json, JsonTree};
use crate::outside::json_parsed;
use crate::register::{format_host, host_name};
use crate::sorted::{ascending, entry_map, law_one_order_of_entries, lemma_entry_map, SortedMap};
use crate::text::{chars_of, lower, lowered, same, same_str};
use vstd::prelude::*;

verus! {

/// The value under a key among the entries of an object.
pub open spec fn field_in(s: Seq<(Seq<char>, JsonTree)>, key: Seq<char>) -> Option<JsonTree>
    decreases s.len(),
{
    if s.len() == 0 {
        None
    } else if s[0].0 == key {
        Some(s[0].1)
    } else {
        field_in(s.skip(1), key)
    }
}

/// The value under a key; only an object has any.
pub open spec fn field(t: JsonTree, key: Seq<char>) -> Option<JsonTree> {
    match t {
        JsonTree::Object(s) => field_in(s, key),
        _ => None,
    }
}

/// The text under a key, where a text is there.
pub open spec fn text_field(t: JsonTree, key: Seq<char>) -> Option<Seq<char>> {
    match field(t, key) {
        Some(JsonTree::Text(s)) => Some(s),
        _ => None,
    }
}

/// The status of an instance: its own, or else the one in its state.
pub open spec fn status(t: JsonTree) -> Option<Seq<char>> {
    match text_field(t, "status"@) {
        Some(s) => Some(s),
        None => match field(t, "state"@) {
            Some(state) => text_field(state, "status"@),
            None => None,
        },
    }
}

/// Whether an instance is running, by its status in any case.
pub open spec fn running(t: JsonTree) -> bool {
    match status(t) {
        Some(s) => lower(s) == "running"@,
        None => false,
    }
}

/// Whether an object somewhere in the value has the address under the key `address`.
pub open spec fn mentions(t: JsonTree, ip: IpAddress) -> bool
    decreases t,
{
    match t {
        JsonTree::Object(s) => {
            ||| text_field(t, "address"@) matches Some(a) && ip_value(a) == Some(ip)
            ||| exists|i: int| 0 <= i < s.len() && mentions((#[trigger] s[i]).1, ip)
        },
        JsonTree::Array(s) => exists|i: int| 0 <= i < s.len() && mentions(#[trigger] s[i], ip),
        _ => false,
    }
}

/// Whether the state of an instance has an address, and it is in the range.
pub open spec fn matches_mask(t: JsonTree, mask: Cidr, ip: IpAddress) -> bool {
    &&& field(t, "state"@) matches Some(state)
    &&& mentions(state, ip)
    &&& mask.has(ip)
}

/// Whether these are the addresses of an instance in the range, each once, in their order.
pub open spec fn lists_ips(ips: Seq<IpAddress>, t: JsonTree, mask: Cidr) -> bool {
    &&& forall|i: int, j: int| 0 <= i < j < ips.len() ==> ip_less(#[trigger] ips[i], #[trigger] ips[j])
    &&& forall|ip: IpAddress| #[trigger] ips.contains(ip) <==> matches_mask(t, mask, ip)
}

/// The addresses of an instance in the range, each once, in their order.
pub open spec fn matching_ips(t: JsonTree, mask: Cidr) -> Seq<IpAddress> {
    choose|ips: Seq<IpAddress>| lists_ips(ips, t, mask)
}

/// The registrations for one instance. There are none for an instance that has no name or is
/// not running.
pub open spec fn planned_for(t: JsonTree, suffix: Seq<char>, mask: Cidr) -> Seq<
    (IpAddress, Seq<char>),
> {
    match text_field(t, "name"@) {
        None => Seq::empty(),
        Some(name) => if running(t) {
            matching_ips(t, mask).map_values(|ip: IpAddress| (ip, host_name(name, suffix)))
        } else {
            Seq::empty()
        },
    }
}

/// The registrations for the instances, one after the other.
pub open spec fn planned(items: Seq<JsonTree>, suffix: Seq<char>, mask: Cidr) -> Seq<
    (IpAddress, Seq<char>),
>
    decreases items.len(),
{
    if items.len() == 0 {
        Seq::empty()
    } else {
        planned(items.drop_last(), suffix, mask) + planned_for(items.last(), suffix, mask)
    }
}

/// The registrations for what was listed, which must be an array.
pub open spec fn plan_value(root: JsonTree, suffix: Seq<char>, mask: Cidr) -> Result<
    Seq<(IpAddress, Seq<char>)>,
    Seq<char>,
> {
    match root {
        JsonTree::Array(items) => Ok(planned(items, suffix, mask)),
        _ => Err("expected lxc ls JSON output to be an array"@),
    }
}

/// The registrations for what `lxc ls --format json` wrote, by the value that was read off
/// it.
pub open spec fn output_value(root: Option<JsonTree>, suffix: Seq<char>, mask: Cidr) -> Result<
    Seq<(IpAddress, Seq<char>)>,
    Seq<char>,
> {
    match root {
        Some(t) => plan_value(t, suffix, mask),
        None => Err("failed to parse lxc ls --format json output"@),
    }
}

/// A host to register under an address.
#[derive(Debug)]
pub struct PlannedHost {
    pub ip: IpAddress,
    pub host: String,
}

pub open spec fn plan_view(s: Seq<PlannedHost>) -> Seq<(IpAddress, Seq<char>)> {
    s.map_values(|p: PlannedHost| (p.ip, p.host@))
}

pub open spec fn plan_is(
    res: Result<Vec<PlannedHost>, Failure>,
    stated: Result<Seq<(IpAddress, Seq<char>)>, Seq<char>>,
) -> bool {
    match (res, stated) {
        (Ok(v), Ok(w)) => plan_view(v@) == w,
        (Err(e), Err(m)) => e.message@ == m,
        _ => false,
    }
}

spec fn as_entries(ips: Seq<IpAddress>) -> Seq<(IpAddress, ())> {
    ips.map_values(|ip: IpAddress| (ip, ()))
}

/// There is one way to list the addresses of an instance.
pub proof fn law_one_list_of_ips(a: Seq<IpAddress>, b: Seq<IpAddress>, t: JsonTree, mask: Cidr)
    requires
        lists_ips(a, t, mask),
        lists_ips(b, t, mask),
    ensures
        a == b,
{
    let x = as_entries(a);
    let y = as_entries(b);
    assert(ascending(x));
    assert(ascending(y));
    lemma_entry_map(x);
    lemma_entry_map(y);
    assert forall|ip: IpAddress| entry_map(x).contains_key(ip) <==> entry_map(y).contains_key(
        ip,
    ) by {
        assert(a.contains(ip) <==> b.contains(ip));
        if entry_map(x).contains_key(ip) {
            let i = choose|i: int| 0 <= i < x.len() && #[trigger] x[i].0@ == ip;
            assert(a[i] == ip);
            let j = choose|j: int| 0 <= j < b.len() && b[j] == ip;
            assert(y[j].0@ == ip);
        }
        if entry_map(y).contains_key(ip) {
            let j = choose|j: int| 0 <= j < y.len() && #[trigger] y[j].0@ == ip;
            assert(b[j] == ip);
            let i = choose|i: int| 0 <= i < a.len() && a[i] == ip;
            assert(x[i].0@ == ip);
        }
    }
    assert(entry_map(x) =~= entry_map(y));
    law_one_order_of_entries(x, y);
    assert forall|i: int| 0 <= i < a.len() implies a[i] == b[i] by {
        assert(x[i].0@ == y[i].0@);
    }
    assert(a =~= b);
}

spec fn mentioned(t: JsonTree) -> Set<IpAddress> {
    Set::new(|ip: IpAddress| mentions(t, ip))
}

/// What the first `n` parts of an object or an array mention.
spec fn mentioned_by_parts(t: JsonTree, n: int) -> Set<IpAddress> {
    match t {
        JsonTree::Object(s) => Set::new(
            |ip: IpAddress| exists|i: int| 0 <= i < n && mentions((#[trigger] s[i]).1, ip),
        ),
        JsonTree::Array(s) => Set::new(
            |ip: IpAddress| exists|i: int| 0 <= i < n && mentions(#[trigger] s[i], ip),
        ),
        _ => Set::empty(),
    }
}

spec fn part_count(t: JsonTree) -> nat {
    match t {
        JsonTree::Object(s) => s.len(),
        JsonTree::Array(s) => s.len(),
        _ => 0,
    }
}

proof fn lemma_finitely_many_by_parts(t: JsonTree, n: nat)
    requires
        n <= part_count(t),
    ensures
        mentioned_by_parts(t, n as int).finite(),
    decreases t, n,
{
    let now = mentioned_by_parts(t, n as int);
    if n == 0 {
        assert(now =~= Set::empty());
    } else {
        let last = n - 1;
        lemma_finitely_many_by_parts(t, last as nat);
        let before = mentioned_by_parts(t, last);
        match t {
            JsonTree::Object(s) => {
                assert(decreases_to!(t => t->Object_0));
                assert(decreases_to!(s => s[last]));
                assert(decreases_to!(s[last] => s[last].1));
                lemma_finitely_many(s[last].1);
                assert(now =~= before.union(mentioned(s[last].1)));
            },
            JsonTree::Array(s) => {
                assert(decreases_to!(t => t->Array_0));
                assert(decreases_to!(s => s[last]));
                lemma_finitely_many(s[last]);
                assert(now =~= before.union(mentioned(s[last])));
            },
            _ => {},
        }
    }
}

proof fn lemma_finitely_many(t: JsonTree)
    ensures
        mentioned(t).finite(),
    decreases t, part_count(t) + 1,
{
    lemma_finitely_many_by_parts(t, part_count(t));
    let parts = mentioned_by_parts(t, part_count(t) as int);
    match t {
        JsonTree::Object(s) => match text_field(t, "address"@) {
            Some(a) => match ip_value(a) {
                Some(ip) => {
                    assert(mentioned(t) =~= parts.insert(ip));
                },
                None => {
                    assert(mentioned(t) =~= parts);
                },
            },
            None => {
                assert(mentioned(t) =~= parts);
            },
        },
        _ => {
            assert(mentioned(t) =~= parts);
        },
    }
}

proof fn lemma_greatest(s: Set<IpAddress>) -> (greatest: IpAddress)
    requires
        s.finite(),
        s.len() > 0,
    ensures
        s.contains(greatest),
        forall|ip: IpAddress| #[trigger]
            s.contains(ip) ==> ip == greatest || ip_less(ip, greatest),
    decreases s.len(),
{
    let one = s.choose();
    let rest = s.remove(one);
    if rest.len() == 0 {
        assert(rest =~= Set::empty());
        assert forall|ip: IpAddress| #[trigger] s.contains(ip) implies ip == one || ip_less(
            ip,
            one,
        ) by {
            if ip != one {
                assert(rest.contains(ip));
            }
        }
        one
    } else {
        let other = lemma_greatest(rest);
        lemma_ip_less_order(one, other, one);
        let greatest = if ip_less(one, other) {
            other
        } else {
            one
        };
        assert forall|ip: IpAddress| #[trigger] s.contains(ip) implies ip == greatest || ip_less(
            ip,
            greatest,
        ) by {
            if ip != one {
                assert(rest.contains(ip));
                lemma_ip_less_order(ip, other, one);
            }
        }
        greatest
    }
}

proof fn lemma_listed_in_order(s: Set<IpAddress>) -> (ips: Seq<IpAddress>)
    requires
        s.finite(),
    ensures
        forall|i: int, j: int|
            0 <= i < j < ips.len() ==> ip_less(#[trigger] ips[i], #[trigger] ips[j]),
        forall|ip: IpAddress| #[trigger] ips.contains(ip) <==> s.contains(ip),
    decreases s.len(),
{
    if s.len() == 0 {
        assert(s =~= Set::empty());
        Seq::empty()
    } else {
        let greatest = lemma_greatest(s);
        let rest = s.remove(greatest);
        let before = lemma_listed_in_order(rest);
        let ips = before.push(greatest);
        assert forall|i: int, j: int| 0 <= i < j < ips.len() implies ip_less(
            #[trigger] ips[i],
            #[trigger] ips[j],
        ) by {
            assert(before.contains(before[i]));
            assert(rest.contains(before[i]));
            assert(s.contains(before[i]));
        }
        assert forall|ip: IpAddress| #[trigger] ips.contains(ip) <==> s.contains(ip) by {
            if ips.contains(ip) {
                let i = choose|i: int| 0 <= i < ips.len() && ips[i] == ip;
                if i < before.len() {
                    assert(before.contains(before[i]));
                }
            }
            if s.contains(ip) {
                if ip == greatest {
                    assert(ips[before.len() as int] == ip);
                } else {
                    assert(rest.contains(ip));
                    assert(before.contains(ip));
                    let i = choose|i: int| 0 <= i < before.len() && before[i] == ip;
                    assert(ips[i] == ip);
                }
            }
        }
        ips
    }
}

/// Every instance has its list of addresses.
pub proof fn law_every_instance_has_its_ips(t: JsonTree, mask: Cidr)
    ensures
        lists_ips(matching_ips(t, mask), t, mask),
{
    let wanted = Set::new(|ip: IpAddress| matches_mask(t, mask, ip));
    match field(t, "state"@) {
        Some(state) => {
            lemma_finitely_many(state);
            assert(wanted.subset_of(mentioned(state)));
        },
        None => {
            assert(wanted =~= Set::empty());
        },
    }
    let ips = lemma_listed_in_order(wanted);
    assert(lists_ips(ips, t, mask));
}

/// An address under `state.network` is in the state.
pub proof fn law_network_is_in_the_state(t: JsonTree, state: JsonTree, network: JsonTree, ip: IpAddress)
    requires
        field(t, "state"@) == Some(state),
        field(state, "network"@) == Some(network),
        mentions(network, ip),
    ensures
        mentions(state, ip),
{
    lemma_field_in(state->Object_0, "network"@);
    let s = state->Object_0;
    let i = choose|i: int| 0 <= i < s.len() && #[trigger] s[i] == ("network"@, network);
    assert(mentions(s[i].1, ip));
}

proof fn lemma_field_in(s: Seq<(Seq<char>, JsonTree)>, key: Seq<char>)
    ensures
        field_in(s, key) matches Some(v) ==> exists|i: int|
            0 <= i < s.len() && #[trigger] s[i] == (key, v),
    decreases s.len(),
{
    if s.len() > 0 {
        if s[0].0 == key {
            assert(s[0] == (key, s[0].1));
        } else {
            let rest = s.skip(1);
            lemma_field_in(rest, key);
            match field_in(rest, key) {
                Some(v) => {
                    let i = choose|i: int| 0 <= i < rest.len() && #[trigger] rest[i] == (key, v);
                    assert(s[i + 1] == (key, v));
                },
                None => {},
            }
        }
    }
}

impl Json {
    /// The value under a key.
    pub fn get(&self, key: &str) -> (res: Option<&Json>)
        ensures
            match res {
                Some(v) => field(self.tree(), key@) == Some(v.tree()),
                None => field(self.tree(), key@) is None,
            },
    {
        match self {
            Json::Object(entries) => {
                let ghost s = self.tree()->Object_0;
                let mut i: usize = 0;
                assert(s.skip(0) =~= s);
                while i < entries.len()
                    invariant
                        *self == Json::Object(*entries),
                        self.tree() == JsonTree::Object(s),
                        i <= entries@.len(),
                        s.len() == entries@.len(),
                        field_in(s, key@) == field_in(s.skip(i as int), key@),
                    decreases entries@.len() - i,
                {
                    assert(s.skip(i as int)[0] == (entries@[i as int].0@, entries@[i as int].1.tree()));
                    if same_str(entries[i].0.as_str(), key) {
                        return Some(&entries[i].1);
                    }
                    assert(s.skip(i as int).skip(1) =~= s.skip(i + 1));
                    i += 1;
                }
                None
            },
            _ => None,
        }
    }

    /// The text under a key.
    pub fn get_text(&self, key: &str) -> (res: Option<&str>)
        ensures
            match res {
                Some(v) => text_field(self.tree(), key@) == Some(v@),
                None => text_field(self.tree(), key@) is None,
            },
    {
        match self.get(key) {
            Some(Json::Text(s)) => Some(s.as_str()),
            _ => None,
        }
    }
}

/// Whether an instance is running.
pub fn is_running(instance: &Json) -> (res: bool)
    ensures
        res == running(instance.tree()),
{
    let own = instance.get_text("status");
    let found = match own {
        Some(s) => Some(s),
        None => match instance.get("state") {
            Some(state) => state.get_text("status"),
            None => None,
        },
    };
    match found {
        Some(s) => same(&lowered(&chars_of(s)), &chars_of("running")),
        None => false,
    }
}

/// Adds the addresses in the value that are in the range.
fn collect_matching_ips(value: &Json, mask: Cidr, ips: &mut SortedMap<IpAddress, ()>)
    requires
        mask.wf(),
        old(ips).wf(),
    ensures
        final(ips).wf(),
        forall|ip: IpAddress| #[trigger]
            final(ips)@.contains_key(ip) <==> old(ips)@.contains_key(ip) || (mentions(
                value.tree(),
                ip,
            ) && mask.has(ip)),
    decreases value,
{
    let ghost before = ips@;
    match value {
        Json::Object(entries) => {
            let ghost s = value.tree()->Object_0;
            let own: Option<IpAddress> = match value.get_text("address") {
                Some(a) => IpAddress::parse(a),
                None => None,
            };
            match own {
                Some(ip) => {
                    if mask.contains(ip) {
                        ips.insert(ip, ());
                    }
                },
                None => {},
            }
            let mut i: usize = 0;
            while i < entries.len()
                invariant
                    mask.wf(),
                    ips.wf(),
                    *value == Json::Object(*entries),
                    value.tree() == JsonTree::Object(s),
                    i <= entries@.len(),
                    s.len() == entries@.len(),
                    forall|ip: IpAddress| #[trigger]
                        ips@.contains_key(ip) <==> before.contains_key(ip) || ((own == Some(ip)
                            || exists|j: int| 0 <= j < i && mentions((#[trigger] s[j]).1, ip))
                            && mask.has(ip)),
                decreases entries@.len() - i,
            {
                assert(s[i as int].1 == entries@[i as int].1.tree());
                let ghost middle = ips@;
                assert(decreases_to!(value => entries));
                assert(decreases_to!(entries@ => entries@[i as int]));
                assert(decreases_to!(entries@[i as int] => entries@[i as int].1));
                collect_matching_ips(&entries[i].1, mask, ips);
                proof {
                    assert forall|ip: IpAddress| #[trigger]
                        ips@.contains_key(ip) <==> before.contains_key(ip) || ((own == Some(ip)
                            || exists|j: int| 0 <= j < i + 1 && mentions((#[trigger] s[j]).1, ip))
                            && mask.has(ip)) by {
                        assert(middle.contains_key(ip) <==> before.contains_key(ip) || ((own
                            == Some(ip) || exists|j: int|
                            0 <= j < i && mentions((#[trigger] s[j]).1, ip)) && mask.has(ip)));
                        assert(mentions(s[i as int].1, ip) == mentions(
                            entries@[i as int].1.tree(),
                            ip,
                        ));
                    }
                }
                i += 1;
            }
        },
        Json::Array(items) => {
            let ghost s = value.tree()->Array_0;
            let mut i: usize = 0;
            while i < items.len()
                invariant
                    mask.wf(),
                    ips.wf(),
                    *value == Json::Array(*items),
                    value.tree() == JsonTree::Array(s),
                    i <= items@.len(),
                    s.len() == items@.len(),
                    forall|ip: IpAddress| #[trigger]
                        ips@.contains_key(ip) <==> before.contains_key(ip) || ((exists|j: int|
                            0 <= j < i && mentions(#[trigger] s[j], ip)) && mask.has(ip)),
                decreases items@.len() - i,
            {
                assert(s[i as int] == items@[i as int].tree());
                let ghost middle = ips@;
                assert(decreases_to!(value => items));
                assert(decreases_to!(items@ => items@[i as int]));
                collect_matching_ips(&items[i], mask, ips);
                proof {
                    assert forall|ip: IpAddress| #[trigger]
                        ips@.contains_key(ip) <==> before.contains_key(ip) || ((exists|j: int|
                            0 <= j < i + 1 && mentions(#[trigger] s[j], ip)) && mask.has(ip)) by {
                        assert(middle.contains_key(ip) <==> before.contains_key(ip) || ((exists|
                            j: int,
                        |
                            0 <= j < i && mentions(#[trigger] s[j], ip)) && mask.has(ip)));
                        assert(mentions(s[i as int], ip) == mentions(items@[i as int].tree(), ip));
                    }
                }
                i += 1;
            }
        },
        _ => {},
    }
}

/// The addresses of an instance that are in the range.
pub fn extract_matching_ips(instance: &Json, mask: Cidr) -> (res: Vec<IpAddress>)
    requires
        mask.wf(),
    ensures
        lists_ips(res@, instance.tree(), mask),
        res@ == matching_ips(instance.tree(), mask),
{
    let mut ips: SortedMap<IpAddress, ()> = SortedMap::new();
    match instance.get("state") {
        Some(state) => collect_matching_ips(state, mask, &mut ips),
        None => {},
    }
    let mut res: Vec<IpAddress> = Vec::new();
    let mut i: usize = 0;
    while i < ips.entries.len()
        invariant
            i <= ips.entries@.len(),
            res@.len() == i,
            forall|j: int| 0 <= j < i ==> res@[j] == ips.entries@[j].0,
        decreases ips.entries@.len() - i,
    {
        res.push(ips.entries[i].0);
        i += 1;
    }
    proof {
        let t = instance.tree();
        let s = ips.entries@;
        lemma_entry_map(s);
        assert forall|i: int, j: int| 0 <= i < j < res@.len() implies ip_less(
            #[trigger] res@[i],
            #[trigger] res@[j],
        ) by {
            assert(ip_less(s[i].0@, s[j].0@));
        }
        assert forall|ip: IpAddress| #[trigger] res@.contains(ip) <==> matches_mask(
            t,
            mask,
            ip,
        ) by {
            assert(ips@.contains_key(ip) <==> matches_mask(t, mask, ip));
            if res@.contains(ip) {
                let j = choose|j: int| 0 <= j < res@.len() && res@[j] == ip;
                assert(s[j].0@ == ip);
            }
            if ips@.contains_key(ip) {
                let j = choose|j: int| 0 <= j < s.len() && #[trigger] s[j].0@ == ip;
                assert(res@[j] == ip);
            }
        }
        assert(lists_ips(res@, t, mask));
        law_one_list_of_ips(res@, matching_ips(t, mask), t, mask);
    }
    res
}

fn plan_instance(instance: &Json, suffix: &str, mask: Cidr) -> (res: Vec<PlannedHost>)
    requires
        mask.wf(),
    ensures
        plan_view(res@) == planned_for(instance.tree(), suffix@, mask),
{
    let mut res: Vec<PlannedHost> = Vec::new();
    assert(plan_view(res@) =~= Seq::empty());
    let name = match instance.get_text("name") {
        Some(n) => n,
        None => {
            return res;
        },
    };
    if !is_running(instance) {
        return res;
    }
    let ips = extract_matching_ips(instance, mask);
    let ghost all = planned_for(instance.tree(), suffix@, mask);
    let mut i: usize = 0;
    assert(all.take(0) =~= Seq::empty());
    while i < ips.len()
        invariant
            i <= ips@.len(),
            all == ips@.map_values(|ip: IpAddress| (ip, host_name(name@, suffix@))),
            plan_view(res@) == all.take(i as int),
        decreases ips@.len() - i,
    {
        let ghost before = res@;
        let host = format_host(name, suffix);
        let one = PlannedHost { ip: ips[i], host };
        res.push(one);
        assert(plan_view(res@) =~= plan_view(before).push((one.ip, one.host@)));
        assert(all.take(i + 1) =~= all.take(i as int).push(all[i as int]));
        i += 1;
    }
    assert(all.take(i as int) =~= all);
    res
}

/// The registrations for what was listed.
pub fn plan_registrations(root: &Json, suffix: &str, mask: Cidr) -> (res: Result<
    Vec<PlannedHost>,
    Failure,
>)
    requires
        mask.wf(),
    ensures
        plan_is(res, plan_value(root.tree(), suffix@, mask)),
{
    match root {
        Json::Array(items) => {
            let ghost all = root.tree()->Array_0;
            let mut res: Vec<PlannedHost> = Vec::new();
            let mut i: usize = 0;
            assert(plan_view(res@) =~= planned(all.take(0), suffix@, mask));
            while i < items.len()
                invariant
                    mask.wf(),
                    *root == Json::Array(*items),
                    root.tree() == JsonTree::Array(all),
                    i <= items@.len(),
                    all.len() == items@.len(),
                    plan_view(res@) == planned(all.take(i as int), suffix@, mask),
                decreases items@.len() - i,
            {
                assert(all[i as int] == items@[i as int].tree());
                let ghost before = res@;
                let mut more = plan_instance(&items[i], suffix, mask);
                let ghost added = more@;
                res.append(&mut more);
                proof {
                    assert(plan_view(res@) =~= plan_view(before) + plan_view(added));
                    let next = all.take(i + 1);
                    assert(next.drop_last() =~= all.take(i as int));
                    assert(next.last() == all[i as int]);
                }
                i += 1;
            }
            assert(all.take(i as int) =~= all);
            Ok(res)
        },
        _ => Err(plain_failure("expected lxc ls JSON output to be an array")),
    }
}

/// The registrations for what `lxc ls --format json` wrote.
pub fn planned_registrations(output: &[u8], suffix: &str, mask: Cidr) -> (res: Result<
    Vec<PlannedHost>,
    Failure,
>)
    requires
        mask.wf(),
    ensures
        plan_is(res, output_value(json_parsed(output@), suffix@, mask)),
{
    match Json::parse(output) {
        Some(root) => plan_registrations(&root, suffix, mask),
        None => Err(plain_failure("failed to parse lxc ls --format json output")),
    }
}

/// What is planned is the host name of a named, running instance under one of its addresses
/// in the range.
pub proof fn law_plan_keeps_to_the_mask(
    items: Seq<JsonTree>,
    suffix: Seq<char>,
    mask: Cidr,
    ip: IpAddress,
    host: Seq<char>,
)
    requires
        planned(items, suffix, mask).contains((ip, host)),
    ensures
        mask.has(ip),
        exists|i: int| #[trigger] plans(items, i, suffix, mask, ip, host),
    decreases items.len(),
{
    let all = planned(items, suffix, mask);
    if items.len() > 0 {
        let rest = items.drop_last();
        let before = planned(rest, suffix, mask);
        let own = planned_for(items.last(), suffix, mask);
        let k = choose|k: int| 0 <= k < all.len() && all[k] == (ip, host);
        if k < before.len() {
            assert(before[k] == (ip, host));
            law_plan_keeps_to_the_mask(rest, suffix, mask, ip, host);
            let i = choose|i: int| #[trigger] plans(rest, i, suffix, mask, ip, host);
            assert(plans(items, i, suffix, mask, ip, host));
        } else {
            assert(own[k - before.len()] == (ip, host));
            let ips = matching_ips(items.last(), mask);
            assert(ips[k - before.len()] == ip);
            assert(ips.contains(ip));
            law_every_instance_has_its_ips(items.last(), mask);
            assert(plans(items, items.len() - 1, suffix, mask, ip, host));
        }
    }
}

/// Every named, running instance is planned under each of its addresses in the range.
pub proof fn law_plan_leaves_nothing_out(
    items: Seq<JsonTree>,
    i: int,
    suffix: Seq<char>,
    mask: Cidr,
    ip: IpAddress,
    host: Seq<char>,
)
    requires
        plans(items, i, suffix, mask, ip, host),
    ensures
        planned(items, suffix, mask).contains((ip, host)),
    decreases items.len(),
{
    let all = planned(items, suffix, mask);
    let rest = items.drop_last();
    let before = planned(rest, suffix, mask);
    let own = planned_for(items.last(), suffix, mask);
    if i < rest.len() {
        assert(rest[i] == items[i]);
        law_plan_leaves_nothing_out(rest, i, suffix, mask, ip, host);
        let k = choose|k: int| 0 <= k < before.len() && before[k] == (ip, host);
        assert(all[k] == (ip, host));
    } else {
        law_every_instance_has_its_ips(items[i], mask);
        let ips = matching_ips(items[i], mask);
        assert(ips.contains(ip));
        let k = choose|k: int| 0 <= k < ips.len() && ips[k] == ip;
        assert(own[k] == (ip, host));
        assert(all[before.len() + k] == (ip, host));
    }
}

/// Whether the instance at a place is to be registered with this name under this address.
pub open spec fn plans(
    items: Seq<JsonTree>,
    i: int,
    suffix: Seq<char>,
    mask: Cidr,
    ip: IpAddress,
    host: Seq<char>,
) -> bool {
    &&& 0 <= i < items.len()
    &&& running(items[i])
    &&& matches_mask(items[i], mask, ip)
    &&& text_field(items[i], "name"@) matches Some(name)
    &&& host == host_name(name, suffix)
}

} // verus!
