//! Which requests are let through, by what their headers say.

use crate::guard::{authorized, basic_part, cookie_in, cookie_value, token_accepted, user_in};
use crate::outside::base64_decoded;
use crate::requests::{host_refusal, host_value, refusal, HeadersView};
use crate::text::{split, split_once, trim_space};
use crate::text_laws::{is_blank_core, law_split_once, law_trim_space, lemma_trim_space_is};
use vstd::prelude::*;
use vstd::utf8::{decode_utf8, valid_utf8};

verus! {

/// Whether a header is `Basic ` and the Base64 of `username:password`.
pub open spec fn names_user(
    header: Seq<char>,
    encoded: Seq<char>,
    username: Seq<char>,
    password: Seq<char>,
) -> bool {
    &&& header == "Basic "@ + encoded
    &&& base64_decoded(encoded) matches Some(bytes)
    &&& valid_utf8(bytes)
    &&& decode_utf8(bytes) == username + seq![':'] + password
}

/// Where no user is configured, every request is let through; where one is, exactly those whose
/// `Authorization` header names this user and this password, character for character. A user
/// name with a colon cannot be named.
pub proof fn law_who_is_let_through(
    username: Seq<char>,
    password: Seq<char>,
    header: Option<Seq<char>>,
)
    ensures
        authorized(None, header),
        authorized(Some((username, password)), header) <==> header is Some && !username.contains(
            ':',
        ) && exists|
            encoded: Seq<char>,
        | #[trigger] names_user(header->0, encoded, username, password),
{
    let basic = "Basic "@;
    let user = (username, password);
    match header {
        None => {},
        Some(value) => {
            if authorized(Some(user), header) {
                let encoded = basic_part(value)->0;
                assert(value =~= basic + encoded) by {
                    assert(basic =~= value.subrange(0, basic.len() as int));
                }
                let text = decode_utf8(base64_decoded(encoded)->0);
                law_split_once(text, ':', username, password);
                assert(names_user(value, encoded, username, password));
            }
            if !username.contains(':') && exists|encoded: Seq<char>| #[trigger]
                names_user(value, encoded, username, password) {
                let encoded = choose|encoded: Seq<char>| #[trigger]
                    names_user(value, encoded, username, password);
                assert(basic =~= value.subrange(0, basic.len() as int));
                assert(value.skip(basic.len() as int) =~= encoded);
                let text = decode_utf8(base64_decoded(encoded)->0);
                law_split_once(text, ':', username, password);
                assert(user_in(base64_decoded(encoded)) == Some(user));
            }
        },
    }
}

/// Whether an item of a `Cookie` header is `name=value`, white space aside.
pub open spec fn is_pair(item: Seq<char>, name: Seq<char>, value: Seq<char>) -> bool {
    is_blank_core(item, name + seq!['='] + value) && !name.contains('=')
}

/// Whether the item at a place is a cookie of this name, and every item before it a cookie of
/// another name.
pub open spec fn first_cookie_at(
    items: Seq<Seq<char>>,
    k: int,
    name: Seq<char>,
    value: Seq<char>,
) -> bool {
    &&& 0 <= k < items.len()
    &&& is_pair(items[k], name, value)
    &&& forall|j: int| 0 <= j < k ==> is_other_cookie(#[trigger] items[j], name)
}

pub open spec fn is_other_cookie(item: Seq<char>, name: Seq<char>) -> bool {
    exists|other: Seq<char>, value: Seq<char>| #[trigger]
        is_pair(item, other, value) && other != name
}

proof fn lemma_pair(item: Seq<char>, name: Seq<char>, value: Seq<char>)
    ensures
        is_pair(item, name, value) <==> split_once(trim_space(item), '=') == Some((name, value)),
{
    let t = trim_space(item);
    law_trim_space(item);
    law_split_once(t, '=', name, value);
    if is_pair(item, name, value) {
        lemma_trim_space_is(item, name + seq!['='] + value);
    }
}

proof fn lemma_cookie_in(items: Seq<Seq<char>>, name: Seq<char>, value: Seq<char>)
    ensures
        cookie_in(items, name) == Some(value) <==> exists|k: int| #[trigger]
            first_cookie_at(items, k, name, value),
    decreases items.len(),
{
    if items.len() == 0 {
    } else {
        let rest = items.skip(1);
        lemma_cookie_in(rest, name, value);
        lemma_pair(items[0], name, value);
        match split_once(trim_space(items[0]), '=') {
            None => {
                if exists|k: int| #[trigger] first_cookie_at(items, k, name, value) {
                    let k = choose|k: int| #[trigger] first_cookie_at(items, k, name, value);
                    if k > 0 {
                        assert(is_other_cookie(items[0], name));
                        let (o, v) = choose|o: Seq<char>, v: Seq<char>| #[trigger]
                            is_pair(items[0], o, v) && o != name;
                        lemma_pair(items[0], o, v);
                    }
                }
            },
            Some(p) => {
                lemma_pair(items[0], p.0, p.1);
                if p.0 == name {
                    if p.1 == value {
                        assert(first_cookie_at(items, 0, name, value));
                    }
                    if exists|k: int| #[trigger] first_cookie_at(items, k, name, value) {
                        let k = choose|k: int| #[trigger] first_cookie_at(items, k, name, value);
                        if k > 0 {
                            assert(is_other_cookie(items[0], name));
                            let (o, v) = choose|o: Seq<char>, v: Seq<char>| #[trigger]
                                is_pair(items[0], o, v) && o != name;
                            lemma_pair(items[0], o, v);
                        }
                    }
                } else {
                    assert(is_other_cookie(items[0], name));
                    if exists|k: int| #[trigger] first_cookie_at(rest, k, name, value) {
                        let k = choose|k: int| #[trigger] first_cookie_at(rest, k, name, value);
                        assert forall|j: int| 0 <= j < k + 1 implies is_other_cookie(
                            #[trigger] items[j],
                            name,
                        ) by {
                            if j > 0 {
                                assert(items[j] == rest[j - 1]);
                            }
                        }
                        assert(first_cookie_at(items, k + 1, name, value));
                    }
                    if exists|k: int| #[trigger] first_cookie_at(items, k, name, value) {
                        let k = choose|k: int| #[trigger] first_cookie_at(items, k, name, value);
                        assert(k > 0);
                        assert forall|j: int| 0 <= j < k - 1 implies is_other_cookie(
                            #[trigger] rest[j],
                            name,
                        ) by {
                            assert(rest[j] == items[j + 1]);
                        }
                        assert(first_cookie_at(rest, k - 1, name, value));
                    }
                }
            },
        }
    }
}

/// The value of a cookie is that of the first item with its name, where every item before it is
/// a cookie too.
pub proof fn law_cookie_value(raw: Seq<char>, name: Seq<char>, value: Seq<char>)
    ensures
        cookie_value(Some(raw), name) == Some(value) <==> exists|k: int| #[trigger]
            first_cookie_at(split(raw, ';'), k, name, value),
        cookie_value(None, name) is None,
{
    lemma_cookie_in(split(raw, ';'), name, value);
}

/// A request with the token cookie may change something exactly where its header repeats the
/// token; one without the cookie always may.
pub proof fn law_which_token_is_accepted(
    cookie: Option<Seq<char>>,
    token: Option<Seq<char>>,
    expected: Seq<char>,
)
    ensures
        cookie_value(cookie, "dnsmasq_csrf"@) is None ==> token_accepted(cookie, token),
        cookie_value(cookie, "dnsmasq_csrf"@) == Some(expected) ==> (token_accepted(cookie, token)
            <==> token == Some(expected)),
{
}

/// A request is refused with 401 exactly where it is not let through, and else with 403 exactly
/// where it would change something without an accepted token; one about a host is refused with
/// 400 where it passes both and names no host.
pub proof fn law_when_requests_are_refused(
    auth: Option<(Seq<char>, Seq<char>)>,
    headers: HeadersView,
    changes: bool,
    host: Seq<char>,
)
    ensures
        refusal(auth, headers, changes) == (if !authorized(auth, headers.authorization) {
            Some((401int, "unauthorized"@))
        } else if changes && !token_accepted(headers.cookie, headers.csrf_token) {
            Some((403int, "csrf validation failed"@))
        } else {
            None
        }),
        refusal(auth, headers, true) is Some ==> host_refusal(auth, headers, host) == refusal(
            auth,
            headers,
            true,
        ),
        refusal(auth, headers, true) is None && host_value(host) is Ok ==> host_refusal(
            auth,
            headers,
            host,
        ) is None,
        refusal(auth, headers, true) is None && host_value(host) is Err ==> host_refusal(
            auth,
            headers,
            host,
        ) == Some((400int, host_value(host)->Err_0)),
{
}

} // verus!
