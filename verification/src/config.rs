//! The configuration file of the agent.

use crate::failure::{failure, plain_failure, result_is, Failure};
use crate::ip::{socket_value, SocketAddress};
use crate::number::{decimal_text, read_unsigned, unsigned_value, within, write_decimal};
use crate::sorted::SortedMap;
use crate::text::{
    chars_of, cut, cut_once, lemma_find, split, split_once, string_of, texts, trim_space, trimmed,
    Strip,
};
use vstd::prelude::*;
use vstd::string::StringExecFns;

verus! {

/// The user that may call the agent.
#[derive(Debug)]
pub struct BasicAuthConfig {
    pub username: String,
    pub password: String,
}

impl View for BasicAuthConfig {
    type V = (Seq<char>, Seq<char>);

    open spec fn view(&self) -> (Seq<char>, Seq<char>) {
        (self.username@, self.password@)
    }
}

/// The settings of the agent.
#[derive(Debug)]
pub struct Config {
    pub target: String,
    pub flush_interval_ms: u64,
    pub bind: String,
    pub port: u16,
    pub basic_auth: Option<BasicAuthConfig>,
    pub dnsmasq_pid_file: String,
    pub db_file: String,
}

/// The settings, by their texts.
pub struct ConfigView {
    pub target: Seq<char>,
    pub flush_interval_ms: int,
    pub bind: Seq<char>,
    pub port: int,
    pub basic_auth: Option<(Seq<char>, Seq<char>)>,
    pub dnsmasq_pid_file: Seq<char>,
    pub db_file: Seq<char>,
}

pub open spec fn auth_view(auth: Option<BasicAuthConfig>) -> Option<(Seq<char>, Seq<char>)> {
    match auth {
        Some(a) => Some(a@),
        None => None,
    }
}

impl View for Config {
    type V = ConfigView;

    open spec fn view(&self) -> ConfigView {
        ConfigView {
            target: self.target@,
            flush_interval_ms: self.flush_interval_ms as int,
            bind: self.bind@,
            port: self.port as int,
            basic_auth: auth_view(self.basic_auth),
            dnsmasq_pid_file: self.dnsmasq_pid_file@,
            db_file: self.db_file@,
        }
    }
}

/// Values under their keys.
pub type ConfigValues = SortedMap<String, String>;

pub open spec fn value_texts(m: Map<Seq<char>, String>) -> Map<Seq<char>, Seq<char>> {
    m.map_values(|s: String| s@)
}

/// Whether a line says nothing: it is blank or a comment.
pub open spec fn says_nothing(line: Seq<char>) -> bool {
    let t = trim_space(line);
    t.len() == 0 || t[0] == '#'
}

/// What the lines set, a later line before an earlier one; or the number of the first line
/// that sets nothing and is neither blank nor a comment.
pub open spec fn settings(lines: Seq<Seq<char>>) -> Result<Map<Seq<char>, Seq<char>>, int>
    decreases lines.len(),
{
    if lines.len() == 0 {
        Ok(Map::empty())
    } else {
        match settings(lines.drop_last()) {
            Err(n) => Err(n),
            Ok(m) => if says_nothing(lines.last()) {
                Ok(m)
            } else {
                match split_once(trim_space(lines.last()), '=') {
                    Some(p) => Ok(m.insert(trim_space(p.0), trim_space(p.1))),
                    None => Err(lines.len() as int),
                }
            },
        }
    }
}

/// The value of a key that must be there.
pub open spec fn required(m: Map<Seq<char>, Seq<char>>, key: Seq<char>) -> Result<
    Seq<char>,
    Seq<char>,
> {
    if m.contains_key(key) {
        Ok(m[key])
    } else {
        Err("missing required config key `"@ + key + "`"@)
    }
}

/// The user of `username:password`; the password may hold further colons.
pub open spec fn user_value(raw: Seq<char>, complaint: Seq<char>) -> Result<
    (Seq<char>, Seq<char>),
    Seq<char>,
> {
    match split_once(raw, ':') {
        Some(p) => Ok(p),
        None => Err(complaint),
    }
}

pub open spec fn auth_complaint() -> Seq<char> {
    "basic_auth must be username:password"@
}

/// The user that is configured, if one is.
pub open spec fn configured_auth(m: Map<Seq<char>, Seq<char>>) -> Result<
    Option<(Seq<char>, Seq<char>)>,
    Seq<char>,
> {
    if m.contains_key("basic_auth"@) {
        match user_value(m["basic_auth"@], auth_complaint()) {
            Ok(u) => Ok(Some(u)),
            Err(e) => Err(e),
        }
    } else {
        Ok(None)
    }
}

/// A number that must be there and in range.
pub open spec fn required_number(
    m: Map<Seq<char>, Seq<char>>,
    key: Seq<char>,
    max: int,
    complaint: Seq<char>,
) -> Result<int, Seq<char>> {
    match required(m, key) {
        Err(e) => Err(e),
        Ok(raw) => match within(unsigned_value(raw), 0, max) {
            Some(v) => Ok(v),
            None => Err(complaint),
        },
    }
}

/// The settings from the values, or the first thing that is missing or wrong.
pub open spec fn config_from(m: Map<Seq<char>, Seq<char>>) -> Result<ConfigView, Seq<char>> {
    match required(m, "target"@) {
        Err(e) => Err(e),
        Ok(target) => match required_number(
            m,
            "flush_interval_ms"@,
            u64::MAX as int,
            "invalid flush_interval_ms"@,
        ) {
            Err(e) => Err(e),
            Ok(flush_interval_ms) => match required(m, "bind"@) {
                Err(e) => Err(e),
                Ok(bind) => match required_number(m, "port"@, 65535, "invalid port"@) {
                    Err(e) => Err(e),
                    Ok(port) => match configured_auth(m) {
                        Err(e) => Err(e),
                        Ok(basic_auth) => match required(m, "dnsmasq_pid_file"@) {
                            Err(e) => Err(e),
                            Ok(dnsmasq_pid_file) => match required(m, "db_file"@) {
                                Err(e) => Err(e),
                                Ok(db_file) => Ok(
                                    ConfigView {
                                        target,
                                        flush_interval_ms,
                                        bind,
                                        port,
                                        basic_auth,
                                        dnsmasq_pid_file,
                                        db_file,
                                    },
                                ),
                            },
                        },
                    },
                },
            },
        },
    }
}

/// The settings that a file with this content makes, or what is wrong with it.
pub open spec fn config_value(path: Seq<char>, raw: Seq<char>) -> Result<ConfigView, Seq<char>> {
    match settings(split(raw, '\n')) {
        Err(n) => Err(
            "invalid config at "@ + path + ":"@ + decimal_text(n) + ": expected key=value"@,
        ),
        Ok(m) => config_from(m),
    }
}

/// That a result is the one stated, the value by its view.
pub open spec fn view_result_is<T: View>(
    res: Result<T, Failure>,
    stated: Result<T::V, Seq<char>>,
) -> bool {
    match (res, stated) {
        (Ok(v), Ok(w)) => v@ == w,
        (Err(e), Err(m)) => e.message@ == m,
        _ => false,
    }
}

/// A user name that was read off `username:password` holds no colon.
pub proof fn lemma_user_has_no_colon(raw: Seq<char>, complaint: Seq<char>)
    ensures
        user_value(raw, complaint) matches Ok(u) ==> !u.0.contains(':') && raw == u.0 + seq![':']
            + u.1,
{
    lemma_find(raw, ':');
    if raw.contains(':') {
        let k = crate::text::find(raw, ':');
        assert(!raw.take(k).contains(':'));
        assert(raw =~= raw.take(k) + seq![':'] + raw.skip(k + 1));
    }
}

/// Reads `username:password`.
pub fn parse_basic_auth(raw: &str) -> (res: Result<BasicAuthConfig, Failure>)
    ensures
        view_result_is(res, user_value(raw@, auth_complaint())),
        res matches Ok(u) ==> !u.username@.contains(':'),
{
    proof {
        lemma_user_has_no_colon(raw@, auth_complaint());
    }
    match cut_once(&chars_of(raw), ':') {
        Some(p) => Ok(BasicAuthConfig { username: string_of(&p.0), password: string_of(&p.1) }),
        None => Err(plain_failure("basic_auth must be username:password")),
    }
}

/// The value of a key that must be there.
pub fn required_config<'a>(values: &'a ConfigValues, key: &str) -> (res: Result<&'a str, Failure>)
    requires
        values.wf(),
    ensures
        match (res, required(value_texts(values@), key@)) {
            (Ok(v), Ok(w)) => v@ == w,
            (Err(e), Err(m)) => e.message@ == m,
            _ => false,
        },
{
    match values.find(&key.to_owned()) {
        Some(i) => Ok(values.entries[i].1.as_str()),
        None => Err(failure("missing required config key `", key, "`")),
    }
}

fn read_required_number(values: &ConfigValues, key: &str, max: u64, complaint: &str) -> (res:
    Result<u64, Failure>)
    requires
        values.wf(),
    ensures
        match (res, required_number(value_texts(values@), key@, max as int, complaint@)) {
            (Ok(v), Ok(w)) => v == w && v <= max,
            (Err(e), Err(m)) => e.message@ == m,
            _ => false,
        },
{
    match required_config(values, key) {
        Err(e) => Err(e),
        Ok(raw) => match read_unsigned(&chars_of(raw), max) {
            Some(v) => Ok(v),
            None => Err(plain_failure(complaint)),
        },
    }
}

fn read_settings(path: &str, raw: &str) -> (res: Result<ConfigValues, Failure>)
    ensures
        match (res, settings(split(raw@, '\n'))) {
            (Ok(v), Ok(m)) => v.wf() && value_texts(v@) == m,
            (Err(e), Err(n)) => e.message@ == "invalid config at "@ + path@ + ":"@ + decimal_text(n)
                + ": expected key=value"@,
            _ => false,
        },
{
    let lines = cut(&chars_of(raw), '\n');
    let ghost all = split(raw@, '\n');
    let mut values: ConfigValues = SortedMap::new();
    let mut i: usize = 0;
    assert(value_texts(values@) =~= Map::<Seq<char>, Seq<char>>::empty());
    assert(all.take(0) =~= Seq::<Seq<char>>::empty());
    while i < lines.len()
        invariant
            i <= lines@.len(),
            all == texts(lines@),
            all == split(raw@, '\n'),
            values.wf(),
            settings(all.take(i as int)) == Ok::<Map<Seq<char>, Seq<char>>, int>(
                value_texts(values@),
            ),
        decreases lines@.len() - i,
    {
        let line = trimmed(&lines[i], Strip::WhiteSpace);
        proof {
            let next = all.take(i + 1);
            assert(next.drop_last() =~= all.take(i as int));
            assert(next.last() == lines@[i as int]@);
        }
        if line.len() > 0 && line[0] != '#' {
            match cut_once(&line, '=') {
                Some(p) => {
                    let key = string_of(&trimmed(&p.0, Strip::WhiteSpace));
                    let value = string_of(&trimmed(&p.1, Strip::WhiteSpace));
                    let ghost before = values@;
                    values.insert(key, value);
                    assert(value_texts(values@) =~= value_texts(before).insert(key@, value@));
                },
                None => {
                    let number = string_of(&write_decimal(i as u64 + 1));
                    let mut message = String::new();
                    message.append("invalid config at ");
                    message.append(path);
                    message.append(":");
                    message.append(&number);
                    message.append(": expected key=value");
                    proof {
                        assert(settings(all.take(i + 1)) == Err::<Map<Seq<char>, Seq<char>>, int>(
                            i + 1,
                        ));
                        lemma_settings_error_stays(all, i + 1);
                        assert(message@ =~= "invalid config at "@ + path@ + ":"@ + decimal_text(
                            i + 1,
                        ) + ": expected key=value"@);
                    }
                    return Err(Failure { message });
                },
            }
        }
        i += 1;
    }
    assert(all.take(i as int) =~= all);
    Ok(values)
}

proof fn lemma_settings_error_stays(lines: Seq<Seq<char>>, n: int)
    requires
        0 <= n <= lines.len(),
        settings(lines.take(n)) is Err,
    ensures
        settings(lines) == settings(lines.take(n)),
    decreases lines.len(),
{
    if n < lines.len() {
        assert(lines.drop_last().take(n) =~= lines.take(n));
        lemma_settings_error_stays(lines.drop_last(), n);
    } else {
        assert(lines.take(n) =~= lines);
    }
}

/// The settings that the file at `path` makes with this content.
pub fn load_config(path: &str, raw: &str) -> (res: Result<Config, Failure>)
    ensures
        view_result_is(res, config_value(path@, raw@)),
{
    let values = match read_settings(path, raw) {
        Ok(v) => v,
        Err(e) => {
            return Err(e);
        },
    };
    let ghost m = value_texts(values@);
    let target = match required_config(&values, "target") {
        Ok(v) => v.to_owned(),
        Err(e) => {
            return Err(e);
        },
    };
    let flush_interval_ms = match read_required_number(
        &values,
        "flush_interval_ms",
        18446744073709551615,
        "invalid flush_interval_ms",
    ) {
        Ok(v) => v,
        Err(e) => {
            return Err(e);
        },
    };
    let bind = match required_config(&values, "bind") {
        Ok(v) => v.to_owned(),
        Err(e) => {
            return Err(e);
        },
    };
    let port = match read_required_number(&values, "port", 65535, "invalid port") {
        Ok(v) => v as u16,
        Err(e) => {
            return Err(e);
        },
    };
    let basic_auth = match values.find(&"basic_auth".to_owned()) {
        Some(i) => match parse_basic_auth(values.entries[i].1.as_str()) {
            Ok(u) => Some(u),
            Err(e) => {
                return Err(e);
            },
        },
        None => None,
    };
    let dnsmasq_pid_file = match required_config(&values, "dnsmasq_pid_file") {
        Ok(v) => v.to_owned(),
        Err(e) => {
            return Err(e);
        },
    };
    let db_file = match required_config(&values, "db_file") {
        Ok(v) => v.to_owned(),
        Err(e) => {
            return Err(e);
        },
    };
    Ok(Config { target, flush_interval_ms, bind, port, basic_auth, dnsmasq_pid_file, db_file })
}

/// Where the agent listens: the configured address and port.
pub open spec fn listen_value(c: ConfigView) -> Result<SocketAddress, Seq<char>> {
    let place = c.bind + ":"@ + decimal_text(c.port);
    match socket_value(place) {
        Some(a) => Ok(a),
        None => Err("invalid bind address "@ + place),
    }
}

/// Where the agent listens.
pub fn listen_address(config: &Config) -> (res: Result<SocketAddress, Failure>)
    ensures
        result_is(res, listen_value(config@)),
{
    let mut place = String::new();
    place.append(config.bind.as_str());
    place.append(":");
    place.append(&string_of(&write_decimal(config.port as u64)));
    assert(place@ =~= config@.bind + ":"@ + decimal_text(config@.port));
    match SocketAddress::parse(&place) {
        Some(a) => Ok(a),
        None => Err(crate::failure::failure_about("invalid bind address ", &place)),
    }
}

/// Blank lines and comments set nothing, wherever they stand.
pub proof fn law_comments_set_nothing(before: Seq<Seq<char>>, line: Seq<char>, after: Seq<Seq<char>>)
    requires
        says_nothing(line),
        settings(before.push(line) + after) is Ok,
    ensures
        settings(before.push(line) + after) == settings(before + after),
    decreases after.len(),
{
    let all = before.push(line) + after;
    let rest = before + after;
    if after.len() == 0 {
        assert(all.drop_last() =~= before);
        assert(rest =~= before);
    } else {
        assert(all.drop_last() =~= before.push(line) + after.drop_last());
        assert(rest.drop_last() =~= before + after.drop_last());
        law_comments_set_nothing(before, line, after.drop_last());
    }
}

/// A key has the value of the last line that sets it.
pub proof fn law_last_setting_counts(before: Seq<Seq<char>>, line: Seq<char>)
    requires
        settings(before) is Ok,
        !says_nothing(line),
        split_once(trim_space(line), '=') is Some,
    ensures
        ({
            let p = split_once(trim_space(line), '=')->0;
            &&& settings(before.push(line)) is Ok
            &&& settings(before.push(line))->Ok_0 == settings(before)->Ok_0.insert(
                trim_space(p.0),
                trim_space(p.1),
            )
        }),
{
    assert(before.push(line).drop_last() =~= before);
}

} // verus!
