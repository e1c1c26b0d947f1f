//! What a configuration file comes to, line by line.

use crate::config::{
    config_value, listen_value, required, says_nothing, settings, user_value, ConfigView,
};
use crate::ip::{ip_text, socket_value, IpAddress, SocketAddress};
use crate::number::{decimal_text, number_value, unsigned_value};
use crate::number_laws::law_decimal_text;
use crate::text::{split, split_once, trim_space};
use crate::text_laws::{is_blank_core, law_split_once, law_trim_space, lemma_trim_space_is};
use vstd::prelude::*;

verus! {

/// Whether a line is blank or a comment, white space aside.
pub open spec fn is_silent(line: Seq<char>) -> bool {
    exists|core: Seq<char>| #[trigger]
        is_blank_core(line, core) && (core.len() == 0 || core[0] == '#')
}

/// Whether a line is `key=value`: cut at its first equals sign, white space aside.
pub open spec fn sets(line: Seq<char>, key: Seq<char>, value: Seq<char>) -> bool {
    exists|a: Seq<char>, b: Seq<char>|
        {
            &&& is_blank_core(line, #[trigger] (a + seq!['='] + b))
            &&& (a + seq!['='] + b)[0] != '#'
            &&& !a.contains('=')
            &&& is_blank_core(a, key)
            &&& is_blank_core(b, value)
        }
}

/// Whether a line sets a key, and no later line does.
pub open spec fn sets_last(lines: Seq<Seq<char>>, i: int, key: Seq<char>, value: Seq<char>) -> bool {
    &&& 0 <= i < lines.len()
    &&& sets(lines[i], key, value)
    &&& forall|j: int, other: Seq<char>| i < j < lines.len() ==> !#[trigger] sets(lines[j], key, other)
}

/// Whether a line means something.
pub open spec fn is_fine(line: Seq<char>) -> bool {
    is_silent(line) || exists|key: Seq<char>, value: Seq<char>| #[trigger] sets(line, key, value)
}

proof fn lemma_silent(line: Seq<char>)
    ensures
        is_silent(line) <==> says_nothing(line),
{
    law_trim_space(line);
    if is_silent(line) {
        let core = choose|core: Seq<char>| #[trigger]
            is_blank_core(line, core) && (core.len() == 0 || core[0] == '#');
        lemma_trim_space_is(line, core);
    }
}

proof fn lemma_sets(line: Seq<char>, key: Seq<char>, value: Seq<char>)
    ensures
        sets(line, key, value) <==> !says_nothing(line) && split_once(trim_space(line), '=') is Some
            && trim_space((split_once(trim_space(line), '=')->0).0) == key && trim_space(
            (split_once(trim_space(line), '=')->0).1,
        ) == value,
{
    let t = trim_space(line);
    law_trim_space(line);
    if sets(line, key, value) {
        let (a, b) = choose|a: Seq<char>, b: Seq<char>|
            {
                &&& is_blank_core(line, #[trigger] (a + seq!['='] + b))
                &&& (a + seq!['='] + b)[0] != '#'
                &&& !a.contains('=')
                &&& is_blank_core(a, key)
                &&& is_blank_core(b, value)
            };
        lemma_trim_space_is(line, a + seq!['='] + b);
        law_split_once(t, '=', a, b);
        lemma_trim_space_is(a, key);
        lemma_trim_space_is(b, value);
    }
    if !says_nothing(line) && split_once(t, '=') is Some {
        let p = split_once(t, '=')->0;
        law_split_once(t, '=', p.0, p.1);
        law_trim_space(p.0);
        law_trim_space(p.1);
        assert(t == p.0 + seq!['='] + p.1);
        assert(sets(line, trim_space(p.0), trim_space(p.1)));
    }
}

proof fn lemma_fine(line: Seq<char>)
    ensures
        is_fine(line) <==> says_nothing(line) || split_once(trim_space(line), '=') is Some,
{
    lemma_silent(line);
    if is_fine(line) && !is_silent(line) {
        let (k, v) = choose|k: Seq<char>, v: Seq<char>| #[trigger] sets(line, k, v);
        lemma_sets(line, k, v);
    }
    if !says_nothing(line) && split_once(trim_space(line), '=') is Some {
        let p = split_once(trim_space(line), '=')->0;
        lemma_sets(line, trim_space(p.0), trim_space(p.1));
        assert(sets(line, trim_space(p.0), trim_space(p.1)));
    }
}

/// A key has the value that the last line with this key gives it, and no other; the lines are
/// refused exactly where one means nothing, and the first such line is the one that is named.
pub proof fn law_settings_by_line(lines: Seq<Seq<char>>, key: Seq<char>, value: Seq<char>)
    ensures
        match settings(lines) {
            Ok(m) => {
                &&& forall|i: int| 0 <= i < lines.len() ==> is_fine(#[trigger] lines[i])
                &&& m.contains_key(key) && m[key] == value <==> exists|i: int| #[trigger]
                    sets_last(lines, i, key, value)
            },
            Err(n) => {
                &&& 1 <= n <= lines.len()
                &&& !is_fine(lines[n - 1])
                &&& forall|i: int| 0 <= i < n - 1 ==> is_fine(#[trigger] lines[i])
            },
        },
    decreases lines.len(),
{
    if lines.len() > 0 {
        let rest = lines.drop_last();
        let last = lines.last();
        let n = rest.len() as int;
        assert(lines[n] == last);
        law_settings_by_line(rest, key, value);
        lemma_fine(last);
        match settings(rest) {
            Err(_) => {
                assert forall|i: int| 0 <= i < settings(lines)->Err_0 - 1 implies is_fine(
                    #[trigger] lines[i],
                ) by {
                    assert(rest[i] == lines[i]);
                }
            },
            Ok(m) => {
                assert forall|i: int| 0 <= i < n implies is_fine(#[trigger] lines[i]) by {
                    assert(rest[i] == lines[i]);
                }
                if settings(lines) is Ok {
                    lemma_last_line(lines, m, key, value);
                }
            },
        }
    }
}

proof fn lemma_last_line(
    lines: Seq<Seq<char>>,
    before: Map<Seq<char>, Seq<char>>,
    key: Seq<char>,
    value: Seq<char>,
)
    requires
        lines.len() > 0,
        settings(lines.drop_last()) == Ok::<Map<Seq<char>, Seq<char>>, int>(before),
        settings(lines) is Ok,
        before.contains_key(key) && before[key] == value <==> exists|i: int| #[trigger]
            sets_last(lines.drop_last(), i, key, value),
    ensures
        ({
            let m = settings(lines)->Ok_0;
            m.contains_key(key) && m[key] == value <==> exists|i: int| #[trigger]
                sets_last(lines, i, key, value)
        }),
{
    let rest = lines.drop_last();
    let last = lines.last();
    let n = rest.len() as int;
    let m = settings(lines)->Ok_0;
    assert(lines[n] == last);
    assert forall|v: Seq<char>| #[trigger] sets(lines[n], key, v) <==> !says_nothing(last) && trim_space(
        (split_once(trim_space(last), '=')->0).0,
    ) == key && trim_space((split_once(trim_space(last), '=')->0).1) == v by {
        lemma_sets(last, key, v);
    }
    let p = split_once(trim_space(last), '=')->0;
    if !says_nothing(last) && trim_space(p.0) == key {
        let v = trim_space(p.1);
        assert(m == before.insert(key, v));
        assert(sets(lines[n], key, v));
        if value == v {
            assert(sets_last(lines, n, key, value));
        }
        if exists|i: int| #[trigger] sets_last(lines, i, key, value) {
            let i = choose|i: int| #[trigger] sets_last(lines, i, key, value);
            if i < n {
                assert(!sets(lines[n], key, v));
            }
        }
    } else {
        assert(m.contains_key(key) == before.contains_key(key));
        assert(before.contains_key(key) ==> m[key] == before[key]);
        if exists|i: int| #[trigger] sets_last(rest, i, key, value) {
            let i = choose|i: int| #[trigger] sets_last(rest, i, key, value);
            assert forall|j: int, other: Seq<char>| i < j < lines.len() implies !#[trigger] sets(
                lines[j],
                key,
                other,
            ) by {
                if j < n {
                    assert(!sets(rest[j], key, other));
                }
            }
            assert(rest[i] == lines[i]);
            assert(sets_last(lines, i, key, value));
        }
        if exists|i: int| #[trigger] sets_last(lines, i, key, value) {
            let i = choose|i: int| #[trigger] sets_last(lines, i, key, value);
            assert(i < n);
            assert(rest[i] == lines[i]);
            assert forall|j: int, other: Seq<char>| i < j < rest.len() implies !#[trigger] sets(
                rest[j],
                key,
                other,
            ) by {
                assert(!sets(lines[j], key, other));
            }
            assert(sets_last(rest, i, key, value));
        }
    }
}

/// A user is cut at the first colon, both parts as they are; without a colon there is none.
pub proof fn law_user_text(
    raw: Seq<char>,
    complaint: Seq<char>,
    name: Seq<char>,
    password: Seq<char>,
)
    ensures
        user_value(raw, complaint) == Ok::<(Seq<char>, Seq<char>), Seq<char>>((name, password))
            <==> raw == name + seq![':'] + password && !name.contains(':'),
        user_value(raw, complaint) is Err <==> !raw.contains(':'),
        user_value(raw, complaint) matches Err(m) ==> m == complaint,
{
    law_split_once(raw, ':', name, password);
}

/// A required value is the value of its key, and is missed exactly where the key is not set.
pub proof fn law_required_value(m: Map<Seq<char>, Seq<char>>, key: Seq<char>)
    ensures
        m.contains_key(key) ==> required(m, key) == Ok::<Seq<char>, Seq<char>>(m[key]),
        !m.contains_key(key) ==> required(m, key) is Err,
{
}

/// Whether the settings make a configuration: what is required is there, the numbers are
/// numbers that fit, and the user, if there is one, has a password.
pub open spec fn makes_config(m: Map<Seq<char>, Seq<char>>) -> bool {
    &&& m.contains_key("target"@)
    &&& m.contains_key("flush_interval_ms"@)
    &&& m.contains_key("bind"@)
    &&& m.contains_key("port"@)
    &&& m.contains_key("dnsmasq_pid_file"@)
    &&& m.contains_key("db_file"@)
    &&& fits(m["flush_interval_ms"@], 0xffff_ffff_ffff_ffff)
    &&& fits(m["port"@], 0xffff)
    &&& m.contains_key("basic_auth"@) ==> m["basic_auth"@].contains(':')
}

/// Whether a text is a number from 0 to `max`.
pub open spec fn fits(text: Seq<char>, max: int) -> bool {
    unsigned_value(text) is Some && 0 <= unsigned_value(text)->0 <= max
}

/// Whether a configuration holds the settings: every text as it is, the numbers that the texts
/// write, and the user cut at the first colon, character for character.
pub open spec fn holds_settings(c: ConfigView, m: Map<Seq<char>, Seq<char>>) -> bool {
    &&& c.target == m["target"@]
    &&& c.bind == m["bind"@]
    &&& c.dnsmasq_pid_file == m["dnsmasq_pid_file"@]
    &&& c.db_file == m["db_file"@]
    &&& unsigned_value(m["flush_interval_ms"@]) == Some(c.flush_interval_ms)
    &&& unsigned_value(m["port"@]) == Some(c.port)
    &&& match c.basic_auth {
        Some(u) => {
            &&& m.contains_key("basic_auth"@)
            &&& m["basic_auth"@] == u.0 + seq![':'] + u.1
            &&& !u.0.contains(':')
        },
        None => !m.contains_key("basic_auth"@),
    }
}

/// A file makes a configuration exactly where its lines do, and the configuration holds what
/// the lines set.
pub proof fn law_config_holds_its_settings(path: Seq<char>, raw: Seq<char>)
    ensures
        match settings(split(raw, '\n')) {
            Err(_) => config_value(path, raw) is Err,
            Ok(m) => {
                &&& config_value(path, raw) is Ok <==> makes_config(m)
                &&& config_value(path, raw) matches Ok(c) ==> holds_settings(c, m)
            },
        },
{
    match settings(split(raw, '\n')) {
        Ok(m) => {
            if m.contains_key("basic_auth"@) {
                let v = m["basic_auth"@];
                match split_once(v, ':') {
                    Some(p) => {
                        law_split_once(v, ':', p.0, p.1);
                    },
                    None => {
                        law_split_once(v, ':', v, v);
                    },
                }
            }
        },
        Err(_) => {},
    }
}

/// An agent bound to a version four address listens there, at its port.
pub proof fn law_listens_where_it_is_bound(c: ConfigView, v: u32, port: u16)
    requires
        c.bind == ip_text(IpAddress::V4(v)),
        c.port == port,
    ensures
        listen_value(c) == Ok::<SocketAddress, Seq<char>>(
            SocketAddress { ip: IpAddress::V4(v), port, scope: 0 },
        ),
{
    let digits = decimal_text(port as int);
    law_decimal_text(port as int, digits);
    reveal_strlit(":");
    assert(":"@ =~= seq![':']);
    assert(number_value(digits, 10) == Some(port as int));
    let place = c.bind + ":"@ + decimal_text(c.port);
    assert(place == ip_text(IpAddress::V4(v)) + seq![':'] + digits);
    crate::address_laws::law_socket_text_v4(place, v, port);
}

/// What is complained of is the first line that means nothing; where there is none, the first
/// setting that is missing or wrong, in a fixed order.
pub proof fn law_config_complaints(path: Seq<char>, raw: Seq<char>)
    ensures
        match settings(split(raw, '\n')) {
            Err(n) => config_value(path, raw) == Err::<ConfigView, Seq<char>>(
                "invalid config at "@ + path + ":"@ + decimal_text(n) + ": expected key=value"@,
            ),
            Ok(m) => config_value(path, raw) matches Err(complaint) ==> complaint == (
            if !m.contains_key("target"@) {
                "missing required config key `"@ + "target"@ + "`"@
            } else if !m.contains_key("flush_interval_ms"@) {
                "missing required config key `"@ + "flush_interval_ms"@ + "`"@
            } else if !fits(m["flush_interval_ms"@], 0xffff_ffff_ffff_ffff) {
                "invalid flush_interval_ms"@
            } else if !m.contains_key("bind"@) {
                "missing required config key `"@ + "bind"@ + "`"@
            } else if !m.contains_key("port"@) {
                "missing required config key `"@ + "port"@ + "`"@
            } else if !fits(m["port"@], 0xffff) {
                "invalid port"@
            } else if m.contains_key("basic_auth"@) && !m["basic_auth"@].contains(':') {
                "basic_auth must be username:password"@
            } else if !m.contains_key("dnsmasq_pid_file"@) {
                "missing required config key `"@ + "dnsmasq_pid_file"@ + "`"@
            } else {
                "missing required config key `"@ + "db_file"@ + "`"@
            }),
        },
{
    match settings(split(raw, '\n')) {
        Ok(m) => {
            if m.contains_key("basic_auth"@) {
                let v = m["basic_auth"@];
                law_split_once(v, ':', v, v);
            }
        },
        Err(_) => {},
    }
}

/// An agent listens where its address, a colon and its port say, and nowhere else.
pub proof fn law_listens_at_address_and_port(c: ConfigView, a: SocketAddress)
    ensures
        ({
            let place = c.bind + seq![':'] + decimal_text(c.port);
            &&& listen_value(c) == Ok::<SocketAddress, Seq<char>>(a) <==> socket_value(place) == Some(a)
            &&& listen_value(c) is Err ==> listen_value(c) == Err::<SocketAddress, Seq<char>>(
                "invalid bind address "@ + place,
            )
        }),
{
    reveal_strlit(":");
    assert(":"@ =~= seq![':']);
}

} // verus!
