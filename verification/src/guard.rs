//! Who may call the agent: basic authentication, and the token against forged requests.

use crate::api_error::{csrf_answer, unauthorized_answer, ApiError};
use crate::config::{auth_view, BasicAuthConfig};
use crate::outside::{
    base64_decode, base64_decoded, base64_encode, base64_encoded, is_alphanumeric,
    random_alphanumeric, utf8_text,
};
use crate::text::{
    begins_with, chars_of, cut, cut_once, lemma_find_is, lemma_trim_fixed, piece, same,
    same_str, split, split_once, string_of, texts, trim_space, trimmed, Strip,
};
use vstd::prelude::*;
use vstd::string::StringExecFns;
use vstd::utf8::{decode_utf8, encode_utf8, encode_utf8_decode_utf8, encode_utf8_valid_utf8, valid_utf8};

verus! {

/// User and password in decoded bytes: UTF-8, with a colon between the two.
pub open spec fn user_in(decoded: Option<Seq<u8>>) -> Option<(Seq<char>, Seq<char>)> {
    match decoded {
        Some(bytes) => if valid_utf8(bytes) {
            split_once(decode_utf8(bytes), ':')
        } else {
            None
        },
        None => None,
    }
}

/// What stands behind `Basic ` in the value of an `Authorization` header.
pub open spec fn basic_part(header: Seq<char>) -> Option<Seq<char>> {
    if "Basic "@.is_prefix_of(header) {
        Some(header.skip("Basic "@.len() as int))
    } else {
        None
    }
}

/// Whether a request with this `Authorization` header may be carried out: no user is
/// configured, or the header names that user and its password.
pub open spec fn authorized(
    auth: Option<(Seq<char>, Seq<char>)>,
    header: Option<Seq<char>>,
) -> bool {
    match auth {
        None => true,
        Some(user) => match header {
            None => false,
            Some(value) => match basic_part(value) {
                None => false,
                Some(encoded) => user_in(base64_decoded(encoded)) == Some(user),
            },
        },
    }
}

/// The value of a cookie in a `Cookie` header, where every item before it is a pair.
pub open spec fn cookie_in(items: Seq<Seq<char>>, name: Seq<char>) -> Option<Seq<char>>
    decreases items.len(),
{
    if items.len() == 0 {
        None
    } else {
        match split_once(trim_space(items[0]), '=') {
            None => None,
            Some(p) => if p.0 == name {
                Some(p.1)
            } else {
                cookie_in(items.skip(1), name)
            },
        }
    }
}

pub open spec fn cookie_value(header: Option<Seq<char>>, name: Seq<char>) -> Option<Seq<char>> {
    match header {
        Some(raw) => cookie_in(split(raw, ';'), name),
        None => None,
    }
}

/// Whether a request with these `Cookie` and `X-CSRF-Token` headers may change anything: it
/// has no token in a cookie, or has the same one in the header.
pub open spec fn token_accepted(cookie: Option<Seq<char>>, token: Option<Seq<char>>) -> bool {
    match cookie_value(cookie, "dnsmasq_csrf"@) {
        None => true,
        Some(expected) => token == Some(expected),
    }
}

pub open spec fn opt_view(s: Option<&str>) -> Option<Seq<char>> {
    match s {
        Some(t) => Some(t@),
        None => None,
    }
}

/// Whether the decoded bytes name the user and its password.
pub fn credentials_match(auth: &BasicAuthConfig, decoded: Option<Vec<u8>>) -> (res: bool)
    ensures
        res == (user_in(
            match decoded {
                Some(b) => Some(b@),
                None => None,
            },
        ) == Some(auth@)),
{
    let bytes = match decoded {
        Some(b) => b,
        None => {
            return false;
        },
    };
    let text = match utf8_text(bytes) {
        Some(t) => t,
        None => {
            return false;
        },
    };
    match cut_once(&chars_of(&text), ':') {
        Some(p) => same(&p.0, &chars_of(&auth.username)) && same(&p.1, &chars_of(&auth.password)),
        None => false,
    }
}

/// Lets a request through whose `Authorization` header names the configured user, and every
/// request where none is configured.
pub fn ensure_authorized(auth: &Option<BasicAuthConfig>, header: Option<&str>) -> (res: Result<
    (),
    ApiError,
>)
    ensures
        match res {
            Ok(_) => authorized(auth_view(*auth), opt_view(header)),
            Err(e) => !authorized(auth_view(*auth), opt_view(header)) && e@ == unauthorized_answer(),
        },
{
    let user = match auth {
        Some(u) => u,
        None => {
            return Ok(());
        },
    };
    let value = match header {
        Some(v) => chars_of(v),
        None => {
            return Err(ApiError::unauthorized());
        },
    };
    let scheme = chars_of("Basic ");
    if !begins_with(&value, &scheme) {
        return Err(ApiError::unauthorized());
    }
    let encoded = piece(&value, scheme.len(), value.len());
    assert(encoded@ =~= value@.skip("Basic "@.len() as int));
    let decoded = match base64_decode(&string_of(&encoded)) {
        Ok(bytes) => Some(bytes),
        Err(_) => None,
    };
    if credentials_match(user, decoded) {
        Ok(())
    } else {
        Err(ApiError::unauthorized())
    }
}

/// What a client sends in its `Authorization` header.
pub open spec fn credentials(username: Seq<char>, password: Seq<char>) -> Seq<char> {
    "Basic "@ + base64_encoded(encode_utf8(username + ":"@ + password))
}

/// The value of the `Authorization` header for a user. An agent with that user configured
/// accepts it.
pub fn basic_credentials(username: &str, password: &str) -> (res: String)
    requires
        encode_utf8(username@ + ":"@ + password@).len() <= usize::MAX / 4,
    ensures
        res@ == credentials(username@, password@),
        !username@.contains(':') ==> authorized(Some((username@, password@)), Some(res@)),
{
    let mut raw = String::new();
    raw.append(username);
    raw.append(":");
    raw.append(password);
    assert(raw@ =~= username@ + ":"@ + password@);
    let encoded = base64_encode(raw.as_str().as_bytes());
    let mut res = String::new();
    res.append("Basic ");
    res.append(&encoded);
    proof {
        assert(res@ =~= "Basic "@ + encoded@);
        assert(res@.skip("Basic "@.len() as int) =~= encoded@);
        encode_utf8_valid_utf8(raw@);
        encode_utf8_decode_utf8(raw@);
        if !username@.contains(':') {
            reveal_strlit(":");
            let k = username@.len() as int;
            assert(raw@[k] == ':');
            assert forall|j: int| 0 <= j < k implies raw@[j] != ':' by {
                assert(raw@[j] == username@[j]);
            }
            lemma_find_is(raw@, ':', k);
            assert(raw@.take(k) =~= username@);
            assert(raw@.skip(k + 1) =~= password@);
        }
    }
    res
}

/// The value of the cookie `name` in a `Cookie` header.
pub fn get_cookie(header: Option<&str>, name: &str) -> (res: Option<String>)
    ensures
        match res {
            Some(v) => cookie_value(opt_view(header), name@) == Some(v@),
            None => cookie_value(opt_view(header), name@) is None,
        },
{
    let raw = match header {
        Some(h) => chars_of(h),
        None => {
            return None;
        },
    };
    let wanted = chars_of(name);
    let items = cut(&raw, ';');
    let ghost all = split(raw@, ';');
    let mut i: usize = 0;
    assert(all.skip(0) =~= all);
    while i < items.len()
        invariant
            i <= items@.len(),
            all == texts(items@),
            wanted@ == name@,
            cookie_value(opt_view(header), name@) == cookie_in(all, name@),
            cookie_in(all, name@) == cookie_in(all.skip(i as int), name@),
        decreases items@.len() - i,
    {
        let item = trimmed(&items[i], Strip::WhiteSpace);
        assert(all.skip(i as int)[0] == items@[i as int]@);
        assert(all.skip(i as int).skip(1) =~= all.skip(i + 1));
        match cut_once(&item, '=') {
            None => {
                return None;
            },
            Some(p) => {
                if same(&p.0, &wanted) {
                    return Some(string_of(&p.1));
                }
            },
        }
        i += 1;
    }
    None
}

/// Lets a request through that either has no token in a cookie or repeats it in a header.
pub fn ensure_csrf(cookie: Option<&str>, token: Option<&str>) -> (res: Result<(), ApiError>)
    ensures
        match res {
            Ok(_) => token_accepted(opt_view(cookie), opt_view(token)),
            Err(e) => !token_accepted(opt_view(cookie), opt_view(token)) && e@ == csrf_answer(),
        },
{
    let cookie_token = match get_cookie(cookie, "dnsmasq_csrf") {
        Some(t) => t,
        None => {
            return Ok(());
        },
    };
    let header_token = match token {
        Some(t) => t,
        None => {
            return Err(ApiError::csrf_failed());
        },
    };
    if same_str(header_token, &cookie_token) {
        Ok(())
    } else {
        Err(ApiError::csrf_failed())
    }
}

/// Whether `s` could be a token: 32 ASCII letters and digits.
pub open spec fn is_token(s: Seq<char>) -> bool {
    s.len() == 32 && forall|i: int| 0 <= i < s.len() ==> is_alphanumeric(#[trigger] s[i])
}

/// A fresh random token.
pub fn generate_csrf_token() -> (res: String)
    ensures
        is_token(res@),
{
    let mut res = String::new();
    let mut i: usize = 0;
    while i < 32
        invariant
            i <= 32,
            res@.len() == i,
            forall|j: int| 0 <= j < i ==> is_alphanumeric(#[trigger] res@[j]),
        decreases 32 - i,
    {
        let c: u8 = random_alphanumeric();
        res.push(c as char);
        i += 1;
    }
    res
}

/// The `Set-Cookie` header that hands a token out.
pub open spec fn cookie_header(token: Seq<char>) -> Seq<char> {
    "dnsmasq_csrf="@ + token + "; Path=/dnsmasq; HttpOnly; SameSite=Strict"@
}

/// The `Set-Cookie` header that hands a token out.
pub fn csrf_cookie(token: &str) -> (res: String)
    ensures
        res@ == cookie_header(token@),
{
    let mut res = String::new();
    res.append("dnsmasq_csrf=");
    res.append(token);
    res.append("; Path=/dnsmasq; HttpOnly; SameSite=Strict");
    assert(res@ =~= cookie_header(token@));
    res
}

/// The token comes back: of the cookie that hands it out, the browser sends what stands
/// before the first semicolon, and a request with that cookie is accepted with exactly this
/// token in its header.
pub proof fn law_issued_token_is_accepted(token: Seq<char>, header: Option<Seq<char>>)
    requires
        is_token(token),
    ensures
        split_once(cookie_header(token), ';') is Some,
        token_accepted(Some((split_once(cookie_header(token), ';')->0).0), header) <==> header
            == Some(token),
{
    reveal_strlit("dnsmasq_csrf=");
    reveal_strlit("dnsmasq_csrf");
    reveal_strlit("; Path=/dnsmasq; HttpOnly; SameSite=Strict");
    let full = cookie_header(token);
    let name = "dnsmasq_csrf"@;
    let pair = "dnsmasq_csrf="@ + token;
    let k = pair.len() as int;
    assert(full[k] == ';');
    assert forall|j: int| 0 <= j < k implies full[j] != ';' by {
        if j < 13 {
        } else {
            assert(full[j] == token[j - 13]);
            assert(is_alphanumeric(token[j - 13]));
        }
    }
    lemma_find_is(full, ';', k);
    assert(full.take(k) =~= pair);
    assert(!pair.contains(';')) by {
        assert forall|j: int| 0 <= j < k implies pair[j] != ';' by {
            assert(full[j] == pair[j]);
        }
    }
    let items = split(pair, ';');
    assert(items =~= seq![pair]);
    assert(is_alphanumeric(token[31]));
    assert(pair.last() == token[31]);
    lemma_trim_fixed(pair, Strip::WhiteSpace);
    assert(pair[12] == '=');
    assert forall|j: int| 0 <= j < 12 implies pair[j] != '=' by {}
    lemma_find_is(pair, '=', 12);
    assert(pair.take(12) =~= name);
    assert(pair.skip(13) =~= token);
    assert(cookie_in(items, name) == Some(token));
}

/// A request whose cookie holds a token, and which does not repeat that token, is refused.
pub proof fn law_wrong_token_is_refused(cookie: Seq<char>, token: Option<Seq<char>>)
    requires
        cookie_value(Some(cookie), "dnsmasq_csrf"@) is Some,
        token != cookie_value(Some(cookie), "dnsmasq_csrf"@),
    ensures
        !token_accepted(Some(cookie), token),
{
}

/// With a user configured, a request without the header is refused; and of all users and
/// passwords only the configured ones are accepted.
pub proof fn law_only_the_configured_user(
    auth: (Seq<char>, Seq<char>),
    header: Option<Seq<char>>,
    other: (Seq<char>, Seq<char>),
)
    requires
        authorized(Some(auth), header),
    ensures
        header is Some,
        authorized(Some(other), header) <==> other == auth,
{
}

} // verus!
