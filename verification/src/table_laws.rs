//! What holds of the stored registrations across operations.

use crate::hosts::HostEntry;
use crate::ip::{ip_text, ip_value, law_ip_text_reads_back, IpAddress};
use crate::replace_mode::ReplaceMode;
use crate::table::{
    after_add, after_delete, changed, changed_by, entry_of, expired, hosts_of_rows, loaded,
    normalized, stored_as, stored_last_as, stored_ttl, without, HostRow, Registration, RowChange,
    Rows, Selection, TableState,
};
use crate::text::{lemma_text_less_irreflexive, text_less};
use vstd::prelude::*;

verus! {

/// A host that was added stands under its address with the time to live and the
/// registration time of that call, whatever stood there before.
pub proof fn law_added_pair_is_stored(
    t: TableState,
    ip: IpAddress,
    host: Seq<char>,
    ttl: u64,
    now: i64,
    mode: ReplaceMode,
)
    ensures
        ({
            let rows = after_add(t, ip, host, ttl, now, mode).rows;
            &&& rows.contains_key((ip_text(ip), host))
            &&& rows[(ip_text(ip), host)].ttl_seconds == stored_ttl(ttl)
            &&& rows[(ip_text(ip), host)].registered_at_epoch_secs == now
        }),
{
}

/// Where a mode replaces other hosts under the address, the added host is the only one
/// there; where it does not, the other hosts there stay as they were, but for the host
/// itself.
pub proof fn law_hosts_under_the_address(
    t: TableState,
    ip: IpAddress,
    host: Seq<char>,
    ttl: u64,
    now: i64,
    mode: ReplaceMode,
    other: Seq<char>,
)
    requires
        other != host,
    ensures
        ({
            let rows = after_add(t, ip, host, ttl, now, mode).rows;
            let key = (ip_text(ip), other);
            if mode == ReplaceMode::Both || mode == ReplaceMode::Host {
                !rows.contains_key(key)
            } else {
                &&& rows.contains_key(key) == t.rows.contains_key(key)
                &&& rows.contains_key(key) ==> rows[key] == t.rows[key]
            }
        }),
{
}

/// Where a mode replaces other addresses of the host, the added address is its only one;
/// where it does not, the host stays under the others as it was.
pub proof fn law_addresses_of_the_host(
    t: TableState,
    ip: IpAddress,
    host: Seq<char>,
    ttl: u64,
    now: i64,
    mode: ReplaceMode,
    other: Seq<char>,
)
    requires
        other != ip_text(ip),
    ensures
        ({
            let rows = after_add(t, ip, host, ttl, now, mode).rows;
            let key = (other, host);
            if mode == ReplaceMode::Both || mode == ReplaceMode::Ip {
                !rows.contains_key(key)
            } else {
                &&& rows.contains_key(key) == t.rows.contains_key(key)
                &&& rows.contains_key(key) ==> rows[key] == t.rows[key]
            }
        }),
{
}

/// A pair of another address and another host is never touched by an addition.
pub proof fn law_addition_leaves_other_pairs(
    t: TableState,
    ip: IpAddress,
    host: Seq<char>,
    ttl: u64,
    now: i64,
    mode: ReplaceMode,
    key: (Seq<char>, Seq<char>),
)
    requires
        key.0 != ip_text(ip),
        key.1 != host,
    ensures
        ({
            let rows = after_add(t, ip, host, ttl, now, mode).rows;
            &&& rows.contains_key(key) == t.rows.contains_key(key)
            &&& rows.contains_key(key) ==> rows[key] == t.rows[key]
        }),
{
}

/// Adding the same pair once more, in the same mode, changes nothing but its time to live
/// and its registration time.
pub proof fn law_adding_again_refreshes(
    t: TableState,
    ip: IpAddress,
    host: Seq<char>,
    ttl: u64,
    now: i64,
    ttl2: u64,
    now2: i64,
    mode: ReplaceMode,
)
    ensures
        after_add(after_add(t, ip, host, ttl, now, mode), ip, host, ttl2, now2, mode).rows
            == after_add(t, ip, host, ttl2, now2, mode).rows,
{
    let once = after_add(t, ip, host, ttl, now, mode);
    let twice = after_add(once, ip, host, ttl2, now2, mode);
    assert(twice.rows =~= after_add(t, ip, host, ttl2, now2, mode).rows);
}

/// A host with a time to live is there until that many seconds have passed, and gone from
/// then on; one without stays at every time.
pub proof fn law_time_to_live(
    t: TableState,
    ip: IpAddress,
    host: Seq<char>,
    ttl: u64,
    now: i64,
    mode: ReplaceMode,
    later: i64,
)
    requires
        ttl <= i64::MAX,
    ensures
        ({
            let added = after_add(t, ip, host, ttl, now, mode);
            let rows = after_delete(added, Selection::Expired(later as int)).rows;
            rows.contains_key((ip_text(ip), host)) <==> ttl == 0 || later < now + ttl
        }),
{
}

/// The removal of what has expired takes nothing else: a row is gone exactly where its
/// time to live was positive and is over, and the others stay as they were.
pub proof fn law_purge_takes_only_the_expired(
    t: TableState,
    now: int,
    key: (Seq<char>, Seq<char>),
)
    ensures
        ({
            let rows = after_delete(t, Selection::Expired(now)).rows;
            &&& rows.contains_key(key) <==> t.rows.contains_key(key) && !expired(t.rows[key], now)
            &&& rows.contains_key(key) ==> rows[key] == t.rows[key]
        }),
{
}

/// Purging at two times, the second no earlier, leaves what purging at the second leaves.
pub proof fn law_purging_in_steps(t: TableState, now: int, later: int)
    requires
        now <= later,
    ensures
        after_delete(after_delete(t, Selection::Expired(now)), Selection::Expired(later)).rows
            == after_delete(t, Selection::Expired(later)).rows,
{
    let first = after_delete(t, Selection::Expired(now));
    assert(after_delete(first, Selection::Expired(later)).rows =~= after_delete(
        t,
        Selection::Expired(later),
    ).rows);
}

/// A deletion that is repeated finds nothing, and does not count as a change.
pub proof fn law_deleting_again_changes_nothing(t: TableState, s: Selection)
    ensures
        after_delete(after_delete(t, s), s) == after_delete(t, s),
{
    let once = after_delete(t, s);
    assert(without(once.rows, s) =~= once.rows);
}

/// After the deletion of an address no host is under it; of a pair, that pair is gone; and
/// no other row is touched.
pub proof fn law_deletion_takes_what_it_names(
    t: TableState,
    ip: Seq<char>,
    host: Seq<char>,
    key: (Seq<char>, Seq<char>),
)
    ensures
        ({
            let by_ip = after_delete(t, Selection::Ip(ip)).rows;
            let by_pair = after_delete(t, Selection::Pair(ip, host)).rows;
            &&& by_ip.contains_key(key) <==> t.rows.contains_key(key) && key.0 != ip
            &&& by_ip.contains_key(key) ==> by_ip[key] == t.rows[key]
            &&& by_pair.contains_key(key) <==> t.rows.contains_key(key) && key != (ip, host)
            &&& by_pair.contains_key(key) ==> by_pair[key] == t.rows[key]
        }),
{
}

/// Deleting a pair undoes its addition alongside the others.
pub proof fn law_delete_undoes_add(t: TableState, ip: IpAddress, host: Seq<char>, ttl: u64, now: i64)
    requires
        !t.rows.contains_key((ip_text(ip), host)),
    ensures
        after_delete(
            after_add(t, ip, host, ttl, now, ReplaceMode::Neither),
            Selection::Pair(ip_text(ip), host),
        ).rows == t.rows,
{
    let added = after_add(t, ip, host, ttl, now, ReplaceMode::Neither);
    assert(after_delete(added, Selection::Pair(ip_text(ip), host)).rows =~= t.rows);
}

/// The counter of changes grows with every addition, and with a deletion exactly where a
/// row went; the other counter stays.
pub proof fn law_counter_grows_with_changes(
    t: TableState,
    s: Selection,
    ip: IpAddress,
    host: Seq<char>,
    ttl: u64,
    now: i64,
    mode: ReplaceMode,
)
    ensures
        after_add(t, ip, host, ttl, now, mode).db_generation == t.db_generation + 1,
        after_add(t, ip, host, ttl, now, mode).file_generation == t.file_generation,
        after_delete(t, s).db_generation == t.db_generation <==> after_delete(t, s).rows == t.rows,
        after_delete(t, s).db_generation == t.db_generation || after_delete(t, s).db_generation
            == t.db_generation + 1,
        after_delete(t, s).file_generation == t.file_generation,
{
}

/// Where no export was pending, one is pending after every change and after nothing else.
pub proof fn law_changes_are_pending(
    t: TableState,
    s: Selection,
    ip: IpAddress,
    host: Seq<char>,
    ttl: u64,
    now: i64,
    mode: ReplaceMode,
)
    requires
        t.db_generation == t.file_generation,
    ensures
        ({
            let added = after_add(t, ip, host, ttl, now, mode);
            let deleted = after_delete(t, s);
            &&& added.db_generation != added.file_generation
            &&& deleted.db_generation != deleted.file_generation <==> deleted.rows != t.rows
        }),
{
}

/// Additions and deletions keep the addresses in their own text form.
pub proof fn law_addresses_stay_normalized(
    t: TableState,
    s: Selection,
    ip: IpAddress,
    host: Seq<char>,
    ttl: u64,
    now: i64,
    mode: ReplaceMode,
)
    requires
        normalized(t.rows),
    ensures
        normalized(after_add(t, ip, host, ttl, now, mode).rows),
        normalized(after_delete(t, s).rows),
{
    law_ip_text_reads_back(ip);
    let added = after_add(t, ip, host, ttl, now, mode).rows;
    assert forall|k: (Seq<char>, Seq<char>)| #[trigger] added.contains_key(k) implies ip_value(
        k.0,
    ) is Some && ip_text(ip_value(k.0)->0) == k.0 by {
        if k != (ip_text(ip), host) {
            assert(t.rows.contains_key(k));
        }
    }
    let deleted = after_delete(t, s).rows;
    assert forall|k: (Seq<char>, Seq<char>)| #[trigger] deleted.contains_key(k) implies ip_value(
        k.0,
    ) is Some && ip_text(ip_value(k.0)->0) == k.0 by {
        assert(t.rows.contains_key(k));
    }
}

/// With addresses in their own text form, the hosts under an address are those of the rows
/// under its text.
pub proof fn law_hosts_are_the_rows(
    m: Rows,
    hosts: Map<(IpAddress, Seq<char>), HostEntry>,
    ip: IpAddress,
    host: Seq<char>,
)
    requires
        normalized(m),
        hosts_of_rows(m, hosts),
    ensures
        hosts.contains_key((ip, host)) <==> m.contains_key((ip_text(ip), host)),
        hosts.contains_key((ip, host)) ==> hosts[(ip, host)] == entry_of(m[(ip_text(ip), host)]),
{
    law_ip_text_reads_back(ip);
    let text = ip_text(ip);
    assert forall|u: Seq<char>| #[trigger] stored_as(m, ip, host, u) implies u == text by {
        assert(m.contains_key((u, host)));
    }
    if m.contains_key((text, host)) {
        assert(stored_as(m, ip, host, text));
        lemma_text_less_irreflexive(text);
        assert(stored_last_as(m, ip, host, text));
    }
    if hosts.contains_key((ip, host)) {
        let u = choose|u: Seq<char>| stored_as(m, ip, host, u);
        assert(stored_as(m, ip, host, u));
    }
}

/// What was added is what is listed: the host under the address, with the time to live and
/// the registration time of the call.
pub proof fn law_added_host_is_listed(
    t: TableState,
    ip: IpAddress,
    host: Seq<char>,
    ttl: u64,
    now: i64,
    mode: ReplaceMode,
    hosts: Map<(IpAddress, Seq<char>), HostEntry>,
)
    requires
        normalized(t.rows),
        ttl <= i64::MAX,
        hosts_of_rows(after_add(t, ip, host, ttl, now, mode).rows, hosts),
    ensures
        hosts.contains_key((ip, host)),
        hosts[(ip, host)] == (HostEntry { ttl_seconds: ttl, registered_at_epoch_secs: now }),
{
    law_addresses_stay_normalized(t, Selection::Expired(0), ip, host, ttl, now, mode);
    law_hosts_are_the_rows(after_add(t, ip, host, ttl, now, mode).rows, hosts, ip, host);
}

/// An added host is listed at a later time as long as its time to live is not over, and at
/// every time where it has none.
pub proof fn law_added_host_is_listed_while_it_lives(
    t: TableState,
    ip: IpAddress,
    host: Seq<char>,
    ttl: u64,
    now: i64,
    mode: ReplaceMode,
    later: i64,
    hosts: Map<(IpAddress, Seq<char>), HostEntry>,
)
    requires
        normalized(t.rows),
        ttl <= i64::MAX,
        hosts_of_rows(
            after_delete(
                after_add(t, ip, host, ttl, now, mode),
                Selection::Expired(later as int),
            ).rows,
            hosts,
        ),
    ensures
        hosts.contains_key((ip, host)) <==> ttl == 0 || later < now + ttl,
{
    let added = after_add(t, ip, host, ttl, now, mode);
    let s = Selection::Expired(later as int);
    law_time_to_live(t, ip, host, ttl, now, mode, later);
    law_addresses_stay_normalized(t, s, ip, host, ttl, now, mode);
    law_addresses_stay_normalized(added, s, ip, host, ttl, now, mode);
    law_hosts_are_the_rows(after_delete(added, s).rows, hosts, ip, host);
}

/// With both sides replaced, the address has only this host and the host only this address.
pub proof fn law_both_sides_exclusive(
    t: TableState,
    ip: IpAddress,
    host: Seq<char>,
    ttl: u64,
    now: i64,
    hosts: Map<(IpAddress, Seq<char>), HostEntry>,
    ip2: IpAddress,
    host2: Seq<char>,
)
    requires
        normalized(t.rows),
        hosts_of_rows(after_add(t, ip, host, ttl, now, ReplaceMode::Both).rows, hosts),
        hosts.contains_key((ip2, host2)),
        ip2 == ip || host2 == host,
    ensures
        ip2 == ip && host2 == host,
{
    let added = after_add(t, ip, host, ttl, now, ReplaceMode::Both).rows;
    law_addresses_stay_normalized(t, Selection::Expired(0), ip, host, ttl, now, ReplaceMode::Both);
    law_hosts_are_the_rows(added, hosts, ip2, host2);
    if ip_text(ip2) == ip_text(ip) {
        crate::ip::law_ip_text_tells_addresses_apart(ip, ip2);
    }
}

/// A time to live too large for its column is stored as a negative number: the host is listed
/// as staying for ever, and stays.
pub proof fn law_too_long_a_time_to_live(
    t: TableState,
    ip: IpAddress,
    host: Seq<char>,
    ttl: u64,
    now: i64,
    mode: ReplaceMode,
    later: i64,
)
    requires
        ttl > i64::MAX,
    ensures
        ({
            let key = (ip_text(ip), host);
            let added = after_add(t, ip, host, ttl, now, mode);
            let rows = after_delete(added, Selection::Expired(later as int)).rows;
            &&& rows.contains_key(key)
            &&& rows[key].ttl_seconds == ttl - 0x1_0000_0000_0000_0000
            &&& entry_of(rows[key]).ttl_seconds == 0
        }),
{
}

/// A listed host has the time to live and the registration time of its row; a time to live that
/// is not positive is listed as 0.
pub proof fn law_listed_entry(r: Registration)
    ensures
        entry_of(r).registered_at_epoch_secs == r.registered_at_epoch_secs,
        r.ttl_seconds > 0 ==> entry_of(r).ttl_seconds == r.ttl_seconds,
        r.ttl_seconds <= 0 ==> entry_of(r).ttl_seconds == 0,
{
}

/// A loaded table holds the rows that it was loaded from, and no other.
pub proof fn law_loaded_rows(rows: Seq<HostRow>, k: (Seq<char>, Seq<char>))
    ensures
        loaded(rows).contains_key(k) <==> exists|i: int| #[trigger] is_row_at(rows, i, k),
    decreases rows.len(),
{
    if rows.len() > 0 {
        let rest = rows.drop_last();
        let n = rest.len() as int;
        law_loaded_rows(rest, k);
        assert(rows[n] == rows.last());
        if is_row_at(rows, n, k) {
        } else {
            if exists|i: int| #[trigger] is_row_at(rows, i, k) {
                let i = choose|i: int| #[trigger] is_row_at(rows, i, k);
                assert(is_row_at(rest, i, k));
            }
            if exists|i: int| #[trigger] is_row_at(rest, i, k) {
                let i = choose|i: int| #[trigger] is_row_at(rest, i, k);
                assert(is_row_at(rows, i, k));
            }
        }
    }
}

/// Of several rows with the same address and host the last counts.
pub proof fn law_last_row_counts(rows: Seq<HostRow>, i: int, k: (Seq<char>, Seq<char>))
    requires
        is_row_at(rows, i, k),
        forall|j: int| i < j < rows.len() ==> !#[trigger] is_row_at(rows, j, k),
    ensures
        loaded(rows).contains_key(k),
        loaded(rows)[k].ttl_seconds == rows[i].ttl_seconds,
        loaded(rows)[k].registered_at_epoch_secs == rows[i].registered_at_epoch_secs,
    decreases rows.len(),
{
    let rest = rows.drop_last();
    let n = rest.len() as int;
    assert(rows[n] == rows.last());
    if i < n {
        assert(!is_row_at(rows, n, k));
        assert forall|j: int| i < j < rest.len() implies !#[trigger] is_row_at(rest, j, k) by {
            assert(!is_row_at(rows, j, k));
        }
        law_last_row_counts(rest, i, k);
    }
}

/// Whether the row at a place is that of an address and a host.
pub open spec fn is_row_at(rows: Seq<HostRow>, i: int, k: (Seq<char>, Seq<char>)) -> bool {
    0 <= i < rows.len() && rows[i].ip@ == k.0 && rows[i].host@ == k.1
}

/// A step takes out or puts in the one row that it names, and leaves the others.
pub proof fn law_one_step(m: Rows, c: RowChange, k: (Seq<char>, Seq<char>))
    ensures
        match c {
            RowChange::Remove { ip, host } => {
                &&& changed(m, c).contains_key(k) <==> m.contains_key(k) && !(k.0 == ip@ && k.1
                    == host@)
                &&& changed(m, c).contains_key(k) ==> changed(m, c)[k] == m[k]
            },
            RowChange::Put { row } => {
                let own = k.0 == row.ip@ && k.1 == row.host@;
                &&& changed(m, c).contains_key(k) <==> own || m.contains_key(k)
                &&& own ==> changed(m, c)[k] == (Registration {
                    ttl_seconds: row.ttl_seconds,
                    registered_at_epoch_secs: row.registered_at_epoch_secs,
                })
                &&& !own && m.contains_key(k) ==> changed(m, c)[k] == m[k]
            },
        },
{
}

/// Steps are taken one after the other.
pub proof fn law_steps_in_order(m: Rows, s: Seq<RowChange>, c: RowChange)
    ensures
        changed_by(m, Seq::<RowChange>::empty()) == m,
        changed_by(m, s.push(c)) == changed(changed_by(m, s), c),
{
    assert(s.push(c).drop_last() =~= s);
}

/// Where an address is stored in several texts, the host has the time to live and the
/// registration time of the row with the last of them.
pub proof fn law_last_text_counts(
    m: Rows,
    hosts: Map<(IpAddress, Seq<char>), HostEntry>,
    ip: IpAddress,
    host: Seq<char>,
    text: Seq<char>,
)
    requires
        hosts_of_rows(m, hosts),
        m.contains_key((text, host)),
        ip_value(text) == Some(ip),
        forall|other: Seq<char>| #[trigger]
            m.contains_key((other, host)) && ip_value(other) == Some(ip) ==> !text_less(text, other),
    ensures
        hosts.contains_key((ip, host)),
        hosts[(ip, host)].registered_at_epoch_secs == m[(text, host)].registered_at_epoch_secs,
        m[(text, host)].ttl_seconds > 0 ==> hosts[(ip, host)].ttl_seconds
            == m[(text, host)].ttl_seconds,
        m[(text, host)].ttl_seconds <= 0 ==> hosts[(ip, host)].ttl_seconds == 0,
{
    assert(stored_as(m, ip, host, text));
    assert forall|other: Seq<char>| #[trigger] stored_as(m, ip, host, other) implies !text_less(
        text,
        other,
    ) by {
        assert(m.contains_key((other, host)));
    }
    assert(stored_last_as(m, ip, host, text));
}

/// A host is active only where a row stores it under a text of its address.
pub proof fn law_active_hosts_are_stored(
    m: Rows,
    hosts: Map<(IpAddress, Seq<char>), HostEntry>,
    ip: IpAddress,
    host: Seq<char>,
)
    requires
        hosts_of_rows(m, hosts),
    ensures
        hosts.contains_key((ip, host)) <==> exists|text: Seq<char>| #[trigger]
            m.contains_key((text, host)) && ip_value(text) == Some(ip),
{
    if hosts.contains_key((ip, host)) {
        let text = choose|text: Seq<char>| stored_as(m, ip, host, text);
        assert(m.contains_key((text, host)));
    }
    if exists|text: Seq<char>| #[trigger] m.contains_key((text, host)) && ip_value(text) == Some(ip) {
        let text = choose|text: Seq<char>| #[trigger]
            m.contains_key((text, host)) && ip_value(text) == Some(ip);
        assert(stored_as(m, ip, host, text));
    }
}

/// The deletion of a host takes its rows under every address, and no other.
pub proof fn law_deletion_of_a_host(t: TableState, host: Seq<char>, key: (Seq<char>, Seq<char>))
    ensures
        ({
            let rows = after_delete(t, Selection::Host(host)).rows;
            &&& rows.contains_key(key) <==> t.rows.contains_key(key) && key.1 != host
            &&& rows.contains_key(key) ==> rows[key] == t.rows[key]
        }),
{
}

} // verus!
