//! What the agent does on a request.

use crate::api_error::{answer, csrf_answer, unauthorized_answer, ApiError};
use crate::config::{auth_view, BasicAuthConfig};
use crate::failure::{plain_failure, Failure};
use crate::guard::{
    authorized, cookie_header, csrf_cookie, ensure_authorized, ensure_csrf, generate_csrf_token,
    is_token, token_accepted,
};
use crate::hosts::{
    gathered, group_by_ip, group_views, holds, law_lines_are_sorted, lemma_gathered_entries, named,
    names_under, triples, HostEntry, HostsByIp, IpHosts, IpHostsView,
};
use crate::ip::{ip_less, ip_text, law_ip_text_tells_addresses_apart, lemma_ip_less_order, IpAddress};
use crate::replace_mode::{requested_mode, ReplaceMode};
use crate::sorted::{lemma_entry_map, SortedMap};
use crate::table::{
    after_add, after_delete, entry_of, hosts_of_rows, normalized, stored_as, HostTable, RowFilter,
    Rows, Selection, TableState,
};
use crate::table_laws::law_hosts_are_the_rows;
use crate::text::{
    chars_of, lemma_lower_idempotent, lemma_trim_idempotent, lemma_trim_lower, lower, lowered,
    string_of, text_less, trim_space, trimmed, Strip,
};
use crate::time::{format_registered_time, is_registered_time};
use crate::ui::{render_ui_html, ui_page};
use vstd::prelude::*;

verus! {

/// The headers of a request that decide whether it is carried out. One that is not text
/// counts as missing.
#[derive(Debug)]
pub struct RequestHeaders {
    pub authorization: Option<String>,
    pub cookie: Option<String>,
    pub csrf_token: Option<String>,
}

/// The headers, by their texts.
pub struct HeadersView {
    pub authorization: Option<Seq<char>>,
    pub cookie: Option<Seq<char>>,
    pub csrf_token: Option<Seq<char>>,
}

pub open spec fn opt_text(s: Option<String>) -> Option<Seq<char>> {
    match s {
        Some(t) => Some(t@),
        None => None,
    }
}

impl View for RequestHeaders {
    type V = HeadersView;

    open spec fn view(&self) -> HeadersView {
        HeadersView {
            authorization: opt_text(self.authorization),
            cookie: opt_text(self.cookie),
            csrf_token: opt_text(self.csrf_token),
        }
    }
}

/// The request to register a host under an address.
#[derive(Debug)]
pub struct AddHostRequest {
    pub ip: IpAddress,
    pub host: String,
    pub replace_mode: Option<ReplaceMode>,
    pub replace: Option<bool>,
    pub replace_ip: Option<bool>,
    pub ttl: Option<u64>,
}

/// The hosts under an address.
#[derive(Debug)]
pub struct HostsResponse {
    pub ip: String,
    pub hosts: Vec<String>,
}

/// A host in a list.
#[derive(Debug)]
pub struct HostView {
    pub name: String,
    pub ttl_seconds: u64,
    pub registered_time: String,
}

/// The page of the user interface, and the cookie that goes with it.
#[derive(Debug)]
pub struct UiPage {
    pub cookie: String,
    pub html: String,
}

/// A host name as it is stored: without white space round it, in lower case, not empty.
pub open spec fn host_value(raw: Seq<char>) -> Result<Seq<char>, Seq<char>> {
    let host = lower(trim_space(raw));
    if host.len() == 0 {
        Err("host must not be empty"@)
    } else {
        Ok(host)
    }
}

/// Why a request is refused before it is looked at, if it is; a request that changes
/// something must also pass the check of the token.
pub open spec fn refusal(
    auth: Option<(Seq<char>, Seq<char>)>,
    headers: HeadersView,
    changes: bool,
) -> Option<(int, Seq<char>)> {
    if !authorized(auth, headers.authorization) {
        Some(unauthorized_answer())
    } else if changes && !token_accepted(headers.cookie, headers.csrf_token) {
        Some(csrf_answer())
    } else {
        None
    }
}

/// Why a request about a host is refused, if it is.
pub open spec fn host_refusal(
    auth: Option<(Seq<char>, Seq<char>)>,
    headers: HeadersView,
    host: Seq<char>,
) -> Option<(int, Seq<char>)> {
    match refusal(auth, headers, true) {
        Some(a) => Some(a),
        None => match host_value(host) {
            Ok(_) => None,
            Err(m) => Some(answer(400, m)),
        },
    }
}

/// The state without what has expired.
pub open spec fn purged(t: TableState, now: i64) -> TableState {
    after_delete(t, Selection::Expired(now as int))
}

/// The state after a request to add a host is carried out.
pub open spec fn after_add_host(t: TableState, request: AddHostRequest, now: i64) -> TableState {
    after_add(
        purged(t, now),
        request.ip,
        host_value(request.host@)->Ok_0,
        request.ttl.unwrap_or(0),
        now,
        requested_mode(request.replace_mode, request.replace, request.replace_ip),
    )
}

/// The state after a request to delete an address is carried out.
pub open spec fn after_delete_ip(t: TableState, ip: IpAddress, now: i64) -> TableState {
    after_delete(purged(t, now), Selection::Ip(ip_text(ip)))
}

/// The state after a request to delete a host from under an address is carried out.
pub open spec fn after_delete_host(
    t: TableState,
    ip: IpAddress,
    host: Seq<char>,
    now: i64,
) -> TableState {
    after_delete(purged(t, now), Selection::Pair(ip_text(ip), host_value(host)->Ok_0))
}

/// How many rows a deletion took, after what had expired was gone.
pub open spec fn removed_count(t: TableState, now: i64, after: TableState) -> int {
    purged(t, now).rows.dom().len() - after.rows.dom().len()
}

/// Whether the names are those stored under an address, in their order.
pub open spec fn lists_names(m: Rows, ip: IpAddress, names: Seq<String>) -> bool {
    &&& forall|i: int, j: int|
        0 <= i < j < names.len() ==> text_less(#[trigger] names[i]@, #[trigger] names[j]@)
    &&& forall|name: Seq<char>| #[trigger]
        listed_name(names, name) <==> exists|text: Seq<char>| stored_as(m, ip, name, text)
}

pub open spec fn listed_name(names: Seq<String>, name: Seq<char>) -> bool {
    exists|i: int| 0 <= i < names.len() && #[trigger] names[i]@ == name
}

/// Whether the views show these hosts.
pub open spec fn shows(views: Seq<HostView>, hosts: Seq<(Seq<char>, HostEntry)>) -> bool {
    &&& views.len() == hosts.len()
    &&& forall|i: int|
        0 <= i < hosts.len() ==> {
            &&& (#[trigger] views[i]).name@ == hosts[i].0
            &&& views[i].ttl_seconds == hosts[i].1.ttl_seconds
            &&& is_registered_time(
                hosts[i].1.registered_at_epoch_secs as int,
                views[i].registered_time@,
            )
        }
}

/// Whether the list shows the hosts under their addresses, and nothing else.
pub open spec fn shows_groups(
    list: Map<Seq<char>, Vec<HostView>>,
    groups: Seq<IpHostsView>,
) -> bool {
    &&& forall|i: int|
        0 <= i < groups.len() ==> list.contains_key(ip_text((#[trigger] groups[i]).ip)) && shows(
            list[ip_text(groups[i].ip)]@,
            groups[i].hosts,
        )
    &&& forall|text: Seq<char>| #[trigger]
        list.contains_key(text) ==> exists|i: int|
            0 <= i < groups.len() && ip_text((#[trigger] groups[i]).ip) == text
}

/// Whether the list shows what the rows hold.
pub open spec fn shows_rows(list: Map<Seq<char>, Vec<HostView>>, m: Rows) -> bool {
    exists|hosts: HostsByIp|
        hosts.wf() && hosts_of_rows(m, hosts@) && #[trigger] shows_groups(
            list,
            gathered(triples(hosts.entries@)),
        )
}

/// A host name as it is stored.
pub fn normalize_host(host: &str) -> (res: Result<String, Failure>)
    ensures
        match (res, host_value(host@)) {
            (Ok(h), Ok(w)) => h@ == w,
            (Err(e), Err(m)) => e.message@ == m,
            _ => false,
        },
{
    let name = lowered(&trimmed(&chars_of(host), Strip::WhiteSpace));
    if name.len() == 0 {
        Err(plain_failure("host must not be empty"))
    } else {
        Ok(string_of(&name))
    }
}

/// A host name as it is stored, or the answer to a request with no name in it.
pub fn normalize_host_for_api(host: &str) -> (res: Result<String, ApiError>)
    ensures
        match (res, host_value(host@)) {
            (Ok(h), Ok(w)) => h@ == w,
            (Err(e), Err(m)) => e@ == answer(400, m),
            _ => false,
        },
{
    match normalize_host(host) {
        Ok(h) => Ok(h),
        Err(e) => Err(ApiError::bad_request(&e.message)),
    }
}

/// The answer to a request that something inside got in the way of.
pub fn internal_api_error(error: &Failure) -> (res: ApiError)
    ensures
        res@ == answer(500, error.message@),
{
    ApiError::internal(&error.message)
}

fn as_text(s: &Option<String>) -> (res: Option<&str>)
    ensures
        crate::guard::opt_view(res) == opt_text(*s),
{
    match s {
        Some(t) => Some(t.as_str()),
        None => None,
    }
}

/// Lets a request through, or says why not.
pub fn let_through(auth: &Option<BasicAuthConfig>, headers: &RequestHeaders, changes: bool) -> (res:
    Result<(), ApiError>)
    ensures
        match res {
            Ok(_) => refusal(auth_view(*auth), headers@, changes) is None,
            Err(e) => refusal(auth_view(*auth), headers@, changes) == Some(e@),
        },
{
    match ensure_authorized(auth, as_text(&headers.authorization)) {
        Ok(_) => {},
        Err(e) => {
            return Err(e);
        },
    }
    if changes {
        ensure_csrf(as_text(&headers.cookie), as_text(&headers.csrf_token))
    } else {
        Ok(())
    }
}

/// Registers a host under an address: first what has expired goes, then what the mode
/// replaces, and the answer lists the hosts that are now under the address.
pub fn add_host(
    table: &mut HostTable,
    auth: &Option<BasicAuthConfig>,
    headers: &RequestHeaders,
    request: &AddHostRequest,
    now: i64,
) -> (res: Result<HostsResponse, ApiError>)
    requires
        old(table).wf(),
        old(table)@.db_generation < i64::MAX - 1,
    ensures
        final(table).wf(),
        match res {
            Err(e) => {
                &&& host_refusal(auth_view(*auth), headers@, request.host@) == Some(e@)
                &&& final(table)@ == old(table)@
            },
            Ok(r) => {
                &&& host_refusal(auth_view(*auth), headers@, request.host@) is None
                &&& final(table)@ == after_add_host(old(table)@, *request, now)
                &&& r.ip@ == ip_text(request.ip)
                &&& lists_names(final(table)@.rows, request.ip, r.hosts@)
            },
        },
{
    match let_through(auth, headers, true) {
        Ok(_) => {},
        Err(e) => {
            return Err(e);
        },
    }
    let host = match normalize_host_for_api(&request.host) {
        Ok(h) => h,
        Err(e) => {
            return Err(e);
        },
    };
    let ttl: u64 = match request.ttl {
        Some(t) => t,
        None => 0,
    };
    let mode = ReplaceMode::requested(request.replace_mode, request.replace, request.replace_ip);
    table.purge_expired(now);
    table.add(request.ip, &host, ttl, now, mode);
    let hosts = table.load_hosts();
    let names = names_under(&hosts, request.ip);
    proof {
        assert forall|name: Seq<char>| #[trigger]
            listed_name(names@, name) <==> exists|text: Seq<char>|
                stored_as(table@.rows, request.ip, name, text) by {
            assert(hosts@.contains_key((request.ip, name)) <==> exists|text: Seq<char>|
                stored_as(table@.rows, request.ip, name, text));
        }
    }
    Ok(HostsResponse { ip: request.ip.text(), hosts: names })
}

/// Deletes every host under an address and says how many there were.
pub fn delete_ip(
    table: &mut HostTable,
    auth: &Option<BasicAuthConfig>,
    headers: &RequestHeaders,
    ip: IpAddress,
    now: i64,
) -> (res: Result<usize, ApiError>)
    requires
        old(table).wf(),
        old(table)@.db_generation < i64::MAX - 1,
    ensures
        final(table).wf(),
        match res {
            Err(e) => {
                &&& refusal(auth_view(*auth), headers@, true) == Some(e@)
                &&& final(table)@ == old(table)@
            },
            Ok(removed) => {
                &&& refusal(auth_view(*auth), headers@, true) is None
                &&& final(table)@ == after_delete_ip(old(table)@, ip, now)
                &&& removed == removed_count(old(table)@, now, final(table)@)
            },
        },
{
    match let_through(auth, headers, true) {
        Ok(_) => {},
        Err(e) => {
            return Err(e);
        },
    }
    table.purge_expired(now);
    Ok(table.delete_where(&RowFilter::Ip(ip.text())))
}

/// Deletes a host from under an address and says how many rows that were.
pub fn delete_host(
    table: &mut HostTable,
    auth: &Option<BasicAuthConfig>,
    headers: &RequestHeaders,
    ip: IpAddress,
    host: &str,
    now: i64,
) -> (res: Result<usize, ApiError>)
    requires
        old(table).wf(),
        old(table)@.db_generation < i64::MAX - 1,
    ensures
        final(table).wf(),
        match res {
            Err(e) => {
                &&& host_refusal(auth_view(*auth), headers@, host@) == Some(e@)
                &&& final(table)@ == old(table)@
            },
            Ok(removed) => {
                &&& host_refusal(auth_view(*auth), headers@, host@) is None
                &&& final(table)@ == after_delete_host(old(table)@, ip, host@, now)
                &&& removed == removed_count(old(table)@, now, final(table)@)
            },
        },
{
    match let_through(auth, headers, true) {
        Ok(_) => {},
        Err(e) => {
            return Err(e);
        },
    }
    let name = match normalize_host_for_api(host) {
        Ok(h) => h,
        Err(e) => {
            return Err(e);
        },
    };
    table.purge_expired(now);
    Ok(table.delete_where(&RowFilter::Pair(ip.text(), name)))
}

fn view_hosts(group: &IpHosts) -> (res: Vec<HostView>)
    ensures
        shows(res@, group@.hosts),
{
    let mut res: Vec<HostView> = Vec::new();
    let mut i: usize = 0;
    while i < group.hosts.len()
        invariant
            i <= group.hosts@.len(),
            shows(res@, named(group.hosts@).take(i as int)),
        decreases group.hosts@.len() - i,
    {
        let ghost before = res@;
        let entry: HostEntry = group.hosts[i].1;
        let view = HostView {
            name: group.hosts[i].0.clone(),
            ttl_seconds: entry.ttl_seconds,
            registered_time: format_registered_time(entry.registered_at_epoch_secs),
        };
        res.push(view);
        proof {
            let next = named(group.hosts@).take(i + 1);
            assert forall|j: int| 0 <= j < next.len() implies {
                &&& (#[trigger] res@[j]).name@ == next[j].0
                &&& res@[j].ttl_seconds == next[j].1.ttl_seconds
                &&& is_registered_time(
                    next[j].1.registered_at_epoch_secs as int,
                    res@[j].registered_time@,
                )
            } by {
                if j < i {
                    assert(res@[j] == before[j]);
                    assert(next[j] == named(group.hosts@).take(i as int)[j]);
                }
            }
        }
        i += 1;
    }
    assert(named(group.hosts@).take(i as int) =~= named(group.hosts@));
    res
}

/// The hosts under the texts of their addresses, in the order of those texts.
pub fn serialize_hosts_map(hosts: &HostsByIp) -> (res: SortedMap<String, Vec<HostView>>)
    requires
        hosts.wf(),
    ensures
        res.wf(),
        shows_groups(res@, gathered(triples(hosts.entries@))),
{
    let groups = group_by_ip(hosts);
    let ghost views = group_views(groups@);
    proof {
        law_lines_are_sorted(*hosts);
    }
    let mut res: SortedMap<String, Vec<HostView>> = SortedMap::new();
    let mut i: usize = 0;
    while i < groups.len()
        invariant
            i <= groups@.len(),
            views == group_views(groups@),
            views.len() == groups@.len(),
            forall|a: int, b: int|
                0 <= a < b < views.len() ==> ip_less(#[trigger] views[a].ip, #[trigger] views[b].ip),
            res.wf(),
            shows_groups(res@, views.take(i as int)),
        decreases groups@.len() - i,
    {
        let ghost before = res@;
        let text = groups[i].ip.text();
        let list = view_hosts(&groups[i]);
        proof {
            assert(views[i as int] == groups@[i as int]@);
        }
        let ghost key = text@;
        res.insert(text, list);
        proof {
            let next = views.take(i + 1);
            let done = views.take(i as int);
            assert(res@ == before.insert(key, list));
            assert forall|j: int| 0 <= j < next.len() implies res@.contains_key(
                ip_text((#[trigger] next[j]).ip),
            ) && shows(res@[ip_text(next[j].ip)]@, next[j].hosts) by {
                if j < i {
                    assert(done[j] == next[j]);
                    if ip_text(next[j].ip) == key {
                        law_ip_text_tells_addresses_apart(next[j].ip, views[i as int].ip);
                        assert(ip_less(views[j].ip, views[i as int].ip));
                        lemma_ip_less_order(views[j].ip, views[j].ip, views[j].ip);
                    }
                }
            }
            assert forall|t: Seq<char>| #[trigger] res@.contains_key(t) implies exists|j: int|
                0 <= j < next.len() && ip_text((#[trigger] next[j]).ip) == t by {
                if t == key {
                    assert(ip_text(next[i as int].ip) == t);
                } else {
                    assert(before.contains_key(t));
                    let j = choose|j: int|
                        0 <= j < done.len() && ip_text((#[trigger] done[j]).ip) == t;
                    assert(ip_text(next[j].ip) == t);
                }
            }
        }
        i += 1;
    }
    assert(views.take(i as int) =~= views);
    res
}

/// Lists every host, after what has expired is gone.
pub fn list_all(
    table: &mut HostTable,
    auth: &Option<BasicAuthConfig>,
    headers: &RequestHeaders,
    now: i64,
) -> (res: Result<SortedMap<String, Vec<HostView>>, ApiError>)
    requires
        old(table).wf(),
        old(table)@.db_generation < i64::MAX,
    ensures
        final(table).wf(),
        match res {
            Err(e) => {
                &&& refusal(auth_view(*auth), headers@, false) == Some(e@)
                &&& final(table)@ == old(table)@
            },
            Ok(list) => {
                &&& refusal(auth_view(*auth), headers@, false) is None
                &&& final(table)@ == purged(old(table)@, now)
                &&& list.wf()
                &&& shows_rows(list@, final(table)@.rows)
            },
        },
{
    match let_through(auth, headers, false) {
        Ok(_) => {},
        Err(e) => {
            return Err(e);
        },
    }
    table.purge_expired(now);
    let hosts = table.load_hosts();
    let list = serialize_hosts_map(&hosts);
    assert(shows_groups(list@, gathered(triples(hosts.entries@))));
    Ok(list)
}

/// Hands out the page with a fresh token in it and in the cookie.
pub fn ui_index(auth: &Option<BasicAuthConfig>, headers: &RequestHeaders) -> (res: Result<
    UiPage,
    ApiError,
>)
    ensures
        match res {
            Err(e) => refusal(auth_view(*auth), headers@, false) == Some(e@),
            Ok(page) => {
                &&& refusal(auth_view(*auth), headers@, false) is None
                &&& exists|token: Seq<char>| #[trigger]
                    is_token(token) && page.cookie@ == cookie_header(token) && page.html@
                        == ui_page(token)
            },
        },
{
    match let_through(auth, headers, false) {
        Ok(_) => {},
        Err(e) => {
            return Err(e);
        },
    }
    let token = generate_csrf_token();
    let cookie = csrf_cookie(&token);
    let html = render_ui_html(&token);
    assert(is_token(token@));
    Ok(UiPage { cookie, html })
}

/// Whether the list shows a host under the text of an address.
pub open spec fn shows_host(
    list: Map<Seq<char>, Vec<HostView>>,
    ip: Seq<char>,
    host: Seq<char>,
    entry: HostEntry,
) -> bool {
    &&& list.contains_key(ip)
    &&& exists|i: int|
        {
            &&& 0 <= i < list[ip]@.len()
            &&& (#[trigger] list[ip]@[i]).name@ == host
            &&& list[ip]@[i].ttl_seconds == entry.ttl_seconds
            &&& is_registered_time(
                entry.registered_at_epoch_secs as int,
                list[ip]@[i].registered_time@,
            )
        }
}

/// With addresses in their own text form, the list shows every stored host, with its time to
/// live and its registration time.
pub proof fn law_list_shows_what_is_stored(
    list: Map<Seq<char>, Vec<HostView>>,
    m: Rows,
    ip: IpAddress,
    host: Seq<char>,
)
    requires
        normalized(m),
        shows_rows(list, m),
        m.contains_key((ip_text(ip), host)),
    ensures
        shows_host(list, ip_text(ip), host, entry_of(m[(ip_text(ip), host)])),
{
    let hosts = choose|hosts: HostsByIp|
        hosts.wf() && hosts_of_rows(m, hosts@) && #[trigger] shows_groups(
            list,
            gathered(triples(hosts.entries@)),
        );
    let entries = hosts.entries@;
    let groups = gathered(triples(entries));
    law_hosts_are_the_rows(m, hosts@, ip, host);
    law_lines_are_sorted(hosts);
    assert(hosts@.contains_key((ip, host)));
    assert(holds(groups, ip, host));
    let (i, a) = choose|i: int, a: int|
        0 <= i < groups.len() && groups[i].ip == ip && 0 <= a < groups[i].hosts.len() && (
        #[trigger] groups[i].hosts[a]).0 == host;
    lemma_gathered_entries(triples(entries), i, a);
    lemma_listed_entry(hosts, ip, host, groups[i].hosts[a].1);
    let views = list[ip_text(groups[i].ip)]@;
    assert(shows(views, groups[i].hosts));
    assert(views[a].name@ == host);
}

/// With addresses in their own text form, the list shows nothing that is not stored.
pub proof fn law_list_shows_nothing_else(
    list: Map<Seq<char>, Vec<HostView>>,
    m: Rows,
    text: Seq<char>,
    i: int,
)
    requires
        normalized(m),
        shows_rows(list, m),
        list.contains_key(text),
        0 <= i < list[text]@.len(),
    ensures
        m.contains_key((text, list[text]@[i].name@)),
{
    let hosts = choose|hosts: HostsByIp|
        hosts.wf() && hosts_of_rows(m, hosts@) && #[trigger] shows_groups(
            list,
            gathered(triples(hosts.entries@)),
        );
    let entries = hosts.entries@;
    let groups = gathered(triples(entries));
    let n = choose|n: int| 0 <= n < groups.len() && ip_text((#[trigger] groups[n]).ip) == text;
    let host = list[text]@[i].name@;
    assert(groups[n].hosts[i].0 == host);
    lemma_gathered_entries(triples(entries), n, i);
    lemma_listed_entry(hosts, groups[n].ip, host, groups[n].hosts[i].1);
    law_hosts_are_the_rows(m, hosts@, groups[n].ip, host);
}

/// The hosts under an address are listed in the order of their names, each once.
pub proof fn law_list_is_sorted(
    list: Map<Seq<char>, Vec<HostView>>,
    m: Rows,
    text: Seq<char>,
    i: int,
    j: int,
)
    requires
        shows_rows(list, m),
        list.contains_key(text),
        0 <= i < j < list[text]@.len(),
    ensures
        text_less(list[text]@[i].name@, list[text]@[j].name@),
{
    let hosts = choose|hosts: HostsByIp|
        hosts.wf() && hosts_of_rows(m, hosts@) && #[trigger] shows_groups(
            list,
            gathered(triples(hosts.entries@)),
        );
    let groups = gathered(triples(hosts.entries@));
    law_lines_are_sorted(hosts);
    let n = choose|n: int| 0 <= n < groups.len() && ip_text((#[trigger] groups[n]).ip) == text;
    assert(shows(list[text]@, groups[n].hosts));
    assert(list[text]@[i].name@ == groups[n].hosts[i].0);
    assert(list[text]@[j].name@ == groups[n].hosts[j].0);
}

proof fn lemma_listed_entry(hosts: HostsByIp, ip: IpAddress, host: Seq<char>, entry: HostEntry)
    requires
        hosts.wf(),
        triples(hosts.entries@).contains((ip, host, entry)),
    ensures
        hosts@.contains_key((ip, host)),
        hosts@[(ip, host)] == entry,
{
    let s = hosts.entries@;
    let k = choose|k: int| 0 <= k < triples(s).len() && triples(s)[k] == (ip, host, entry);
    lemma_entry_map(s);
    assert(s[k].0@ == (ip, host));
    assert(s[k].1 == entry);
}

/// A stored host name is its own stored form.
pub proof fn law_normalizing_twice_is_normalizing_once(raw: Seq<char>)
    requires
        host_value(raw) is Ok,
    ensures
        host_value(host_value(raw)->Ok_0) == host_value(raw),
{
    let t = trim_space(raw);
    lemma_trim_idempotent(raw, Strip::WhiteSpace);
    lemma_trim_lower(t);
    lemma_lower_idempotent(t);
}

/// Host names that differ only in the case of their letters are the same host.
pub proof fn law_case_does_not_matter(a: Seq<char>, b: Seq<char>)
    requires
        lower(a) == lower(b),
    ensures
        host_value(a) == host_value(b),
{
    lemma_trim_lower(a);
    lemma_trim_lower(b);
}

} // verus!
