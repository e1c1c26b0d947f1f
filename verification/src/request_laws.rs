//! What holds of requests that follow each other.

use crate::ip::{ip_text, ip_value, law_ip_text_reads_back, IpAddress};
use crate::replace_mode::{mode_value, requested_mode, ReplaceMode};
use crate::requests::{
    after_add_host, after_delete_host, after_delete_ip, host_refusal, host_value, listed_name,
    lists_names, purged, refusal, removed_count, AddHostRequest, HeadersView,
};
use crate::table::{expired, normalized, stored_as, Registration, Rows, Selection, TableState};
use crate::table_laws::law_addresses_stay_normalized;
use crate::text::{lower, text_less, trim_space};
use crate::text_laws::{
    is_blank, is_blank_core, is_lowered, law_lower, lemma_lower_is, lemma_own_core,
    lemma_trim_space_is,
};
use vstd::prelude::*;
use vstd::set_lib::lemma_set_disjoint_lens;

verus! {

/// Whether two texts name the same host: they differ at most in the case of their letters and
/// in the white space round them.
pub open spec fn same_host(a: Seq<char>, b: Seq<char>) -> bool {
    lower(trim_space(a)) == lower(trim_space(b))
}

/// Whether no row has expired.
pub open spec fn none_expired(m: Rows, now: i64) -> bool {
    forall|k: (Seq<char>, Seq<char>)| #[trigger]
        m.contains_key(k) ==> !expired(m[k], now as int)
}

/// The keys of the rows under the text of an address.
pub open spec fn keys_under(m: Rows, ip: Seq<char>) -> Set<(Seq<char>, Seq<char>)> {
    m.dom().filter(|k: (Seq<char>, Seq<char>)| k.0 == ip)
}

/// Where nothing has expired, purging changes nothing.
proof fn lemma_nothing_to_purge(t: TableState, now: i64)
    requires
        none_expired(t.rows, now),
    ensures
        purged(t, now) == t,
{
    assert(purged(t, now).rows =~= t.rows);
}

/// A host that is added again is not refused for its name, and has one row under the address:
/// with the time to live and the registration time of the second request, whatever those of
/// the first were.
pub proof fn law_second_request_refreshes_the_host(
    t: TableState,
    first: AddHostRequest,
    first_time: i64,
    second: AddHostRequest,
    second_time: i64,
    auth: Option<(Seq<char>, Seq<char>)>,
    headers: HeadersView,
)
    requires
        normalized(t.rows),
        host_value(first.host@) is Ok,
        first.ip == second.ip,
        same_host(first.host@, second.host@),
        second.ttl matches Some(ttl) ==> ttl <= i64::MAX,
    ensures
        host_refusal(auth, headers, second.host@) == refusal(auth, headers, true),
        ({
            let host = host_value(first.host@)->Ok_0;
            let key = (ip_text(first.ip), host);
            let once = after_add_host(t, first, first_time);
            let rows = after_add_host(once, second, second_time).rows;
            let ttl = match second.ttl {
                Some(ttl) => ttl as int,
                None => 0,
            };
            &&& rows.contains_key(key)
            &&& rows[key].ttl_seconds == ttl
            &&& rows[key].registered_at_epoch_secs == second_time
            &&& forall|k: (Seq<char>, Seq<char>)| #[trigger]
                rows.contains_key(k) && k.1 == host && ip_value(k.0) == Some(first.ip) ==> k == key
        }),
{
    let host = host_value(first.host@)->Ok_0;
    let once = after_add_host(t, first, first_time);
    let twice = after_add_host(once, second, second_time);
    let gone = Selection::Expired(first_time as int);
    let gone_later = Selection::Expired(second_time as int);
    let first_mode = requested_mode(first.replace_mode, first.replace, first.replace_ip);
    let second_mode = requested_mode(second.replace_mode, second.replace, second.replace_ip);
    let ttl1 = first.ttl.unwrap_or(0);
    let ttl2 = second.ttl.unwrap_or(0);
    let start = purged(t, first_time);
    law_addresses_stay_normalized(t, gone, first.ip, host, ttl1, first_time, first_mode);
    law_addresses_stay_normalized(start, gone, first.ip, host, ttl1, first_time, first_mode);
    law_addresses_stay_normalized(once, gone_later, first.ip, host, ttl2, second_time, second_mode);
    let middle = purged(once, second_time);
    law_addresses_stay_normalized(middle, gone, first.ip, host, ttl2, second_time, second_mode);
    assert(normalized(twice.rows));
}

/// Deleting a host undoes its addition alongside the others: one row goes, the rows are those
/// from before, and a further deletion takes nothing and changes nothing.
pub proof fn law_delete_request_undoes_add_request(
    t: TableState,
    request: AddHostRequest,
    added_at: i64,
    host: Seq<char>,
    deleted_at: i64,
    deleted_again_at: i64,
    auth: Option<(Seq<char>, Seq<char>)>,
    headers: HeadersView,
)
    requires
        t.rows.dom().finite(),
        host_value(request.host@) is Ok,
        requested_mode(request.replace_mode, request.replace, request.replace_ip)
            == ReplaceMode::Neither,
        request.ttl is None || request.ttl == Some(0u64),
        same_host(request.host@, host),
        !t.rows.contains_key((ip_text(request.ip), host_value(request.host@)->Ok_0)),
        none_expired(t.rows, added_at),
        none_expired(t.rows, deleted_at),
        none_expired(t.rows, deleted_again_at),
    ensures
        host_refusal(auth, headers, host) == refusal(auth, headers, true),
        ({
            let added = after_add_host(t, request, added_at);
            let deleted = after_delete_host(added, request.ip, host, deleted_at);
            let again = after_delete_host(deleted, request.ip, host, deleted_again_at);
            &&& removed_count(added, deleted_at, deleted) == 1
            &&& deleted.rows == t.rows
            &&& removed_count(deleted, deleted_again_at, again) == 0
            &&& again == deleted
        }),
{
    let key = (ip_text(request.ip), host_value(request.host@)->Ok_0);
    let added = after_add_host(t, request, added_at);
    let deleted = after_delete_host(added, request.ip, host, deleted_at);
    let again = after_delete_host(deleted, request.ip, host, deleted_again_at);
    lemma_nothing_to_purge(t, added_at);
    let row = Registration { ttl_seconds: 0, registered_at_epoch_secs: added_at };
    assert(added.rows =~= t.rows.insert(key, row));
    assert forall|k: (Seq<char>, Seq<char>)| #[trigger] added.rows.contains_key(k) implies !expired(
        added.rows[k],
        deleted_at as int,
    ) by {
        if k != key {
            assert(t.rows.contains_key(k));
        }
    }
    lemma_nothing_to_purge(added, deleted_at);
    assert(deleted.rows =~= t.rows);
    assert(added.rows.dom() =~= t.rows.dom().insert(key));
    lemma_nothing_to_purge(deleted, deleted_again_at);
    assert(again.rows =~= deleted.rows);
}

/// Deleting an address takes every row under it that has not expired, and no other; the
/// counter of changes grows once for these, if there are any, and once for what had expired,
/// if there is any.
pub proof fn law_delete_ip_request_counts_what_it_takes(t: TableState, ip: IpAddress, now: i64)
    requires
        t.rows.dom().finite(),
    ensures
        ({
            let live = purged(t, now).rows;
            let under = keys_under(live, ip_text(ip));
            let after = after_delete_ip(t, ip, now);
            &&& removed_count(t, now, after) == under.len()
            &&& after.rows == live.remove_keys(under)
            &&& after.db_generation == t.db_generation + (if none_expired(t.rows, now) {
                0int
            } else {
                1int
            }) + (if under.len() > 0 {
                1int
            } else {
                0int
            })
            &&& after.file_generation == t.file_generation
        }),
{
    let live = purged(t, now).rows;
    let under = keys_under(live, ip_text(ip));
    let after = after_delete_ip(t, ip, now);
    assert(live.dom().subset_of(t.rows.dom()));
    assert(live.dom().finite());
    assert(after.rows =~= live.remove_keys(under));
    assert(after.rows.dom().subset_of(live.dom()));
    assert(after.rows.dom().disjoint(under));
    lemma_set_disjoint_lens(after.rows.dom(), under);
    assert(after.rows.dom() + under =~= live.dom());
    if none_expired(t.rows, now) {
        lemma_nothing_to_purge(t, now);
    } else {
        let k = choose|k: (Seq<char>, Seq<char>)| #[trigger]
            t.rows.contains_key(k) && expired(t.rows[k], now as int);
        assert(!live.contains_key(k));
    }
    if under.len() == 0 {
        assert(under =~= Set::empty());
        assert(after.rows =~= live);
    } else {
        let k = under.choose();
        assert(live.contains_key(k) && !after.rows.contains_key(k));
    }
}

/// Deleting an address once more takes nothing and changes nothing, as long as no other row
/// expires meanwhile.
pub proof fn law_second_delete_ip_request_takes_nothing(
    t: TableState,
    ip: IpAddress,
    now: i64,
    later: i64,
)
    requires
        none_expired(after_delete_ip(t, ip, now).rows, later),
    ensures
        ({
            let once = after_delete_ip(t, ip, now);
            let twice = after_delete_ip(once, ip, later);
            removed_count(once, later, twice) == 0 && twice == once
        }),
{
    let once = after_delete_ip(t, ip, now);
    let twice = after_delete_ip(once, ip, later);
    lemma_nothing_to_purge(once, later);
    assert(twice.rows =~= once.rows);
}

/// A name is stored without the white space round it and with its capital letters in lower
/// case, and else character for character; a name of white space alone is refused.
pub proof fn law_stored_name(raw: Seq<char>, core: Seq<char>, name: Seq<char>)
    requires
        is_blank_core(raw, core),
    ensures
        host_value(raw) == Ok::<Seq<char>, Seq<char>>(name) <==> core.len() > 0 && is_lowered(
            core,
            name,
        ),
        core.len() == 0 <==> host_value(raw) == Err::<Seq<char>, Seq<char>>(
            "host must not be empty"@,
        ),
        host_value(raw) is Err <==> core.len() == 0,
{
    lemma_trim_space_is(raw, core);
    law_lower(core);
    if is_lowered(core, name) {
        lemma_lower_is(core, name);
    }
}

/// Whether a name has no white space at its ends and no capital letter.
pub open spec fn is_plain_name(name: Seq<char>) -> bool {
    &&& name.len() > 0
    &&& !is_blank(name[0])
    &&& !is_blank(name[name.len() - 1])
    &&& forall|i: int| 0 <= i < name.len() ==> !(65 <= (#[trigger] name[i]) as int <= 90)
}

/// A name without white space at its ends and without capital letters is stored as it is.
pub proof fn law_plain_name_is_kept(name: Seq<char>)
    requires
        is_plain_name(name),
    ensures
        host_value(name) == Ok::<Seq<char>, Seq<char>>(name),
{
    lemma_own_core(name);
    law_stored_name(name, name, name);
}

/// Whether the time to live of a row is over.
pub open spec fn is_over(r: Registration, now: i64) -> bool {
    r.ttl_seconds > 0 && r.registered_at_epoch_secs + r.ttl_seconds <= now
}

/// Whether a request takes other hosts from under its address: its mode says so, or its older
/// flag, or it says nothing of the kind.
pub open spec fn takes_other_hosts(request: AddHostRequest) -> bool {
    match request.replace_mode {
        Some(mode) => mode == ReplaceMode::Both || mode == ReplaceMode::Host,
        None => request.replace == Some(true) || (request.replace is None && request.replace_ip
            is None),
    }
}

/// Whether a request takes its host from under other addresses.
pub open spec fn takes_other_ips(request: AddHostRequest) -> bool {
    match request.replace_mode {
        Some(mode) => mode == ReplaceMode::Both || mode == ReplaceMode::Ip,
        None => request.replace_ip == Some(true) || (request.replace is None && request.replace_ip
            is None),
    }
}

/// Before a request is carried out, exactly the rows whose time to live is over go, and the
/// counter of changes grows by one where there were any.
pub proof fn law_what_has_expired_goes(t: TableState, now: i64, k: (Seq<char>, Seq<char>))
    ensures
        purged(t, now).rows.contains_key(k) <==> t.rows.contains_key(k) && !is_over(t.rows[k], now),
        purged(t, now).rows.contains_key(k) ==> purged(t, now).rows[k] == t.rows[k],
        purged(t, now).file_generation == t.file_generation,
        purged(t, now).db_generation == t.db_generation || purged(t, now).db_generation
            == t.db_generation + 1,
        t.rows.contains_key(k) && is_over(t.rows[k], now) ==> purged(t, now).db_generation
            == t.db_generation + 1,
        (forall|j: (Seq<char>, Seq<char>)| #[trigger]
            t.rows.contains_key(j) ==> !is_over(t.rows[j], now)) ==> purged(t, now).db_generation
            == t.db_generation,
{
    let live = purged(t, now).rows;
    if t.rows.contains_key(k) && is_over(t.rows[k], now) {
        assert(!live.contains_key(k));
    }
    if forall|j: (Seq<char>, Seq<char>)| #[trigger]
        t.rows.contains_key(j) ==> !is_over(t.rows[j], now) {
        assert(live =~= t.rows);
    }
}

/// After a host is added, the rows are the pair that was asked for, with its time to live and
/// the time of the request, and of the rows from before those that have not expired and that
/// the request does not take: other hosts of its address, or its host under other addresses.
pub proof fn law_rows_after_add_request(
    t: TableState,
    request: AddHostRequest,
    now: i64,
    name: Seq<char>,
    k: (Seq<char>, Seq<char>),
)
    requires
        host_value(request.host@) == Ok::<Seq<char>, Seq<char>>(name),
    ensures
        ({
            let after = after_add_host(t, request, now);
            let key = (ip_text(request.ip), name);
            let ttl = match request.ttl {
                Some(ttl) => ttl as int,
                None => 0,
            };
            &&& after.rows.contains_key(k) <==> k == key || (t.rows.contains_key(k) && !is_over(
                t.rows[k],
                now,
            ) && !(k.0 == key.0 && takes_other_hosts(request)) && !(k.1 == name && takes_other_ips(
                request,
            )))
            &&& after.rows.contains_key(k) && k != key ==> after.rows[k] == t.rows[k]
            &&& after.rows[key].registered_at_epoch_secs == now
            &&& ttl <= 0x7fff_ffff_ffff_ffff ==> after.rows[key].ttl_seconds == ttl
            &&& ttl > 0x7fff_ffff_ffff_ffff ==> after.rows[key].ttl_seconds == ttl
                - 0x1_0000_0000_0000_0000
            &&& after.db_generation == purged(t, now).db_generation + 1
            &&& after.file_generation == t.file_generation
        }),
{
}

/// A plain name that is added is stored itself, under the text of its address.
pub proof fn law_added_name_is_stored(t: TableState, request: AddHostRequest, now: i64)
    requires
        is_plain_name(request.host@),
    ensures
        after_add_host(t, request, now).rows.contains_key((ip_text(request.ip), request.host@)),
{
    law_plain_name_is_kept(request.host@);
    law_rows_after_add_request(
        t,
        request,
        now,
        request.host@,
        (ip_text(request.ip), request.host@),
    );
}

/// After a deletion, the rows are those from before that have not expired and are not named:
/// those under the address, or the one of the host under it.
pub proof fn law_rows_after_delete_requests(
    t: TableState,
    ip: IpAddress,
    raw: Seq<char>,
    name: Seq<char>,
    now: i64,
    k: (Seq<char>, Seq<char>),
)
    requires
        host_value(raw) == Ok::<Seq<char>, Seq<char>>(name),
    ensures
        ({
            let by_ip = after_delete_ip(t, ip, now).rows;
            let by_host = after_delete_host(t, ip, raw, now).rows;
            let live = t.rows.contains_key(k) && !is_over(t.rows[k], now);
            &&& by_ip.contains_key(k) <==> live && k.0 != ip_text(ip)
            &&& by_ip.contains_key(k) ==> by_ip[k] == t.rows[k]
            &&& by_host.contains_key(k) <==> live && !(k.0 == ip_text(ip) && k.1 == name)
            &&& by_host.contains_key(k) ==> by_host[k] == t.rows[k]
        }),
{
}

/// How many rows went is how many fewer there are than there were without the expired ones.
pub proof fn law_removed_rows_are_counted(t: TableState, now: i64, after: TableState)
    ensures
        removed_count(t, now, after) + after.rows.dom().len() == purged(t, now).rows.dom().len(),
{
}

/// The names in an answer are exactly those stored under the address, each once, in their
/// order.
pub proof fn law_answer_names_the_hosts(m: Rows, ip: IpAddress, names: Seq<String>, name: Seq<char>)
    requires
        normalized(m),
        lists_names(m, ip, names),
    ensures
        m.contains_key((ip_text(ip), name)) <==> exists|i: int|
            0 <= i < names.len() && #[trigger] names[i]@ == name,
        forall|i: int, j: int|
            0 <= i < j < names.len() ==> text_less(#[trigger] names[i]@, #[trigger] names[j]@),
{
    law_ip_text_reads_back(ip);
    assert(listed_name(names, name) <==> exists|text: Seq<char>| stored_as(m, ip, name, text));
    if m.contains_key((ip_text(ip), name)) {
        assert(stored_as(m, ip, name, ip_text(ip)));
    }
    if exists|text: Seq<char>| stored_as(m, ip, name, text) {
        let text = choose|text: Seq<char>| stored_as(m, ip, name, text);
        assert(m.contains_key((text, name)));
    }
}

/// A mode is named by one of four words, in any case and with white space round it, and by
/// nothing else.
pub proof fn law_mode_words(raw: Seq<char>, core: Seq<char>, mode: ReplaceMode)
    requires
        is_blank_core(raw, core),
    ensures
        mode_value(raw) == Ok::<ReplaceMode, Seq<char>>(mode) <==> is_lowered(
            core,
            match mode {
                ReplaceMode::Both => "both"@,
                ReplaceMode::Host => "host"@,
                ReplaceMode::Ip => "ip"@,
                ReplaceMode::Neither => "none"@,
            },
        ),
{
    lemma_trim_space_is(raw, core);
    law_lower(core);
    let word = match mode {
        ReplaceMode::Both => "both"@,
        ReplaceMode::Host => "host"@,
        ReplaceMode::Ip => "ip"@,
        ReplaceMode::Neither => "none"@,
    };
    if is_lowered(core, word) {
        lemma_lower_is(core, word);
    }
    reveal_strlit("both");
    reveal_strlit("host");
    reveal_strlit("ip");
    reveal_strlit("none");
    assert("both"@[0] != "host"@[0] && "both"@[0] != "none"@[0] && "host"@[0] != "none"@[0]);
    assert("ip"@.len() == 2);
}

} // verus!
