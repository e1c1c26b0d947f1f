//! What the contracts see of a value: its fields, as they are.

use crate::api_error::{answer, ApiError};
use crate::config::{auth_view, value_texts, view_result_is, BasicAuthConfig, Config};
use crate::export::Export;
use crate::failure::{result_is, Failure};
use crate::guard::{cookie_header, opt_view};
use crate::hosts::IpHosts;
use crate::ip::{ip_less, IpAddress};
use crate::lxc::{plan_is, plan_view, PlannedHost};
use crate::register::{
    arg_texts, user_view, AgentTarget, Args, BasicAuth, HttpRequest, Invocation, InvocationView,
};
use crate::requests::{opt_text, RequestHeaders};
use crate::sorted::{lemma_entry_map, SortKey, SortedMap};
use crate::table::{RowFilter, Selection};
use crate::text::{text_less, texts};
use vstd::prelude::*;
use vstd::utf8::encode_utf8;

verus! {

/// A user is seen as its name and its password.
pub proof fn law_view_of_users(a: BasicAuthConfig, b: BasicAuth)
    ensures
        a@ == (a.username@, a.password@),
        b@ == (b.username@, b.password@),
        auth_view(Some(a)) == Some((a.username@, a.password@)),
        auth_view(None) is None,
        user_view(Some(b)) == Some((b.username@, b.password@)),
        user_view(None) is None,
{
}

/// A configuration is seen as its settings.
pub proof fn law_view_of_config(c: Config)
    ensures
        c@.target == c.target@,
        c@.flush_interval_ms == c.flush_interval_ms,
        c@.bind == c.bind@,
        c@.port == c.port,
        c@.basic_auth == auth_view(c.basic_auth),
        c@.dnsmasq_pid_file == c.dnsmasq_pid_file@,
        c@.db_file == c.db_file@,
{
}

/// Headers are seen as their texts.
pub proof fn law_view_of_headers(h: RequestHeaders, s: String, t: &str)
    ensures
        h@.authorization == opt_text(h.authorization),
        h@.cookie == opt_text(h.cookie),
        h@.csrf_token == opt_text(h.csrf_token),
        opt_text(Some(s)) == Some(s@),
        opt_text(None) is None,
        opt_view(Some(t)) == Some(t@),
        opt_view(None) is None,
{
}

/// An answer is seen as its status and its message.
pub proof fn law_view_of_answers(e: ApiError, status: int, message: Seq<char>)
    ensures
        e@ == (e.status as int, e.message@),
        answer(status, message) == (status, message),
{
}

/// A filter is seen as what it names.
pub proof fn law_view_of_filters(now: i64, ip: String, host: String)
    ensures
        RowFilter::Expired(now)@ == Selection::Expired(now as int),
        RowFilter::Ip(ip)@ == Selection::Ip(ip@),
        RowFilter::Host(host)@ == Selection::Host(host@),
        RowFilter::Pair(ip, host)@ == Selection::Pair(ip@, host@),
{
}

/// The hosts under an address are seen as their names and entries.
pub proof fn law_view_of_groups(g: IpHosts, i: int)
    ensures
        g@.ip == g.ip,
        g@.hosts.len() == g.hosts@.len(),
        0 <= i < g.hosts@.len() ==> g@.hosts[i] == (g.hosts@[i].0@, g.hosts@[i].1),
{
}

/// An export is seen as its fields, its text by the bytes of its encoding.
pub proof fn law_view_of_exports(e: Export)
    ensures
        e@.rendered == encode_utf8(e.rendered@),
        e@.db_generation == e.db_generation,
        e@.forced == e.forced,
        e@.replaced == e.replaced,
        e@.action == e.action,
{
}

/// A command line is seen as its fields.
pub proof fn law_view_of_command_lines(a: Args, t: AgentTarget, words: Seq<String>, i: int)
    ensures
        a@.lxc_path == a.lxc_path@,
        a@.suffix == a.suffix@,
        a@.mask == a.mask,
        a@.agent == a.agent@,
        a@.user == user_view(a.user),
        a@.replace_mode == a.replace_mode,
        t@.authority == t.authority@,
        t@.socket_addr == t.socket_addr,
        t@.path == t.path@,
        Invocation::Run(a)@ == InvocationView::Run(a@),
        Invocation::Help@ == InvocationView::Help,
        arg_texts(words).len() == words.len(),
        0 <= i < words.len() ==> arg_texts(words)[i] == words[i]@,
{
}

/// A request is seen as the bytes of its head and then those of its body.
pub proof fn law_view_of_requests(r: HttpRequest)
    ensures
        r@ == encode_utf8(r.head@) + r.body@,
{
}

/// A plan is seen as addresses and names, in its order.
pub proof fn law_view_of_plans(
    s: Seq<PlannedHost>,
    i: int,
    res: Result<Vec<PlannedHost>, Failure>,
    stated: Result<Seq<(IpAddress, Seq<char>)>, Seq<char>>,
)
    ensures
        plan_view(s).len() == s.len(),
        0 <= i < s.len() ==> plan_view(s)[i] == (s[i].ip, s[i].host@),
        plan_is(res, stated) <==> match res {
            Ok(v) => stated == Ok::<Seq<(IpAddress, Seq<char>)>, Seq<char>>(plan_view(v@)),
            Err(e) => stated == Err::<Seq<(IpAddress, Seq<char>)>, Seq<char>>(e.message@),
        },
{
}

/// A result is the one that is stated where both are the same value or the same message.
pub proof fn law_stated_results<T, U: View>(
    a: Result<T, Failure>,
    b: Result<T, Seq<char>>,
    c: Result<U, Failure>,
    d: Result<U::V, Seq<char>>,
)
    ensures
        result_is(a, b) <==> match a {
            Ok(v) => b == Ok::<T, Seq<char>>(v),
            Err(e) => b == Err::<T, Seq<char>>(e.message@),
        },
        view_result_is(c, d) <==> match c {
            Ok(v) => d == Ok::<U::V, Seq<char>>(v@),
            Err(e) => d == Err::<U::V, Seq<char>>(e.message@),
        },
{
}

/// Pieces and values are seen as their texts.
pub proof fn law_view_of_texts(v: Seq<Vec<char>>, m: Map<Seq<char>, String>, i: int, key: Seq<char>)
    ensures
        texts(v).len() == v.len(),
        0 <= i < v.len() ==> texts(v)[i] == v[i]@,
        value_texts(m).contains_key(key) <==> m.contains_key(key),
        m.contains_key(key) ==> value_texts(m)[key] == m[key]@,
{
}

/// A sorted map is seen as its entries: every key with its value, and no other.
pub proof fn law_view_of_sorted_maps<K: SortKey, V>(m: SortedMap<K, V>, i: int, key: K::V)
    requires
        m.wf(),
    ensures
        0 <= i < m.entries@.len() ==> m@.contains_key(m.entries@[i].0@) && m@[m.entries@[i].0@]
            == m.entries@[i].1,
        m@.contains_key(key) ==> exists|j: int|
            0 <= j < m.entries@.len() && #[trigger] m.entries@[j].0@ == key,
        forall|j: int, k: int|
            0 <= j < k < m.entries@.len() ==> K::less(
                #[trigger] m.entries@[j].0@,
                #[trigger] m.entries@[k].0@,
            ),
{
    lemma_entry_map(m.entries@);
    if 0 <= i < m.entries@.len() {
        assert(m.entries@[i].0@ == m.entries@[i].0@);
    }
}

/// Texts and addresses have their own order; pairs go by their first part, and by their second
/// where the first is the same.
pub proof fn law_order_of_keys(
    a: (Seq<char>, Seq<char>),
    b: (Seq<char>, Seq<char>),
    x: (IpAddress, Seq<char>),
    y: (IpAddress, Seq<char>),
)
    ensures
        String::less(a.0, b.0) <==> text_less(a.0, b.0),
        IpAddress::less(x.0, y.0) <==> ip_less(x.0, y.0),
        <(String, String)>::less(a, b) <==> text_less(a.0, b.0) || (a.0 == b.0 && text_less(
            a.1,
            b.1,
        )),
        <(IpAddress, String)>::less(x, y) <==> ip_less(x.0, y.0) || (x.0 == y.0 && text_less(
            x.1,
            y.1,
        )),
{
}

/// The cookie hands the token out for the paths of the agent, to no script and to no other
/// site.
pub proof fn law_cookie_attributes(token: Seq<char>)
    ensures
        cookie_header(token) == "dnsmasq_csrf="@ + token
            + "; Path=/dnsmasq; HttpOnly; SameSite=Strict"@,
{
}

} // verus!
