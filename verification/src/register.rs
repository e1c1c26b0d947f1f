//! Registering hosts with an agent: the command line, the request and its reply.

use crate::cidr::{cidr_value, Cidr};
use crate::config::{user_value, view_result_is};
use crate::failure::{failure, failure_about, plain_failure, Failure};
use crate::guard::{basic_credentials, credentials};
use crate::ip::{ip_text, socket_value, IpAddress, SocketAddress};
use crate::number::{decimal_text, write_decimal};
use crate::outside::{base64_encoded, lossy_text, utf8_text_lossy};
use crate::replace_mode::{mode_value, requested_mode, ReplaceMode};
use crate::requests::AddHostRequest;
use crate::text::{
    begins_with, chars_of, cut_once, lemma_lower_idempotent, lemma_trim_ends, lower, lowered, piece,
    same_str, split_once, string_of, trim, trim_space, trimmed, Strip,
};
use vstd::prelude::*;
use vstd::string::StringExecFns;
use vstd::utf8::encode_utf8;

verus! {

/// How long a registered host stays, in seconds.
pub const TTL_SECONDS: u64 = 180;

/// The user that calls the agent.
#[derive(Debug)]
pub struct BasicAuth {
    pub username: String,
    pub password: String,
}

impl View for BasicAuth {
    type V = (Seq<char>, Seq<char>);

    open spec fn view(&self) -> (Seq<char>, Seq<char>) {
        (self.username@, self.password@)
    }
}

/// Where the agent is: what goes into the `Host` header, where to connect, and the path of
/// the request.
#[derive(Debug)]
pub struct AgentTarget {
    pub authority: String,
    pub socket_addr: SocketAddress,
    pub path: String,
}

/// Where the agent is, by the texts.
pub struct AgentView {
    pub authority: Seq<char>,
    pub socket_addr: SocketAddress,
    pub path: Seq<char>,
}

impl View for AgentTarget {
    type V = AgentView;

    open spec fn view(&self) -> AgentView {
        AgentView {
            authority: self.authority@,
            socket_addr: self.socket_addr,
            path: self.path@,
        }
    }
}

/// What the command line asks for.
#[derive(Debug)]
pub struct Args {
    pub lxc_path: String,
    pub suffix: String,
    pub mask: Cidr,
    pub agent: AgentTarget,
    pub user: Option<BasicAuth>,
    pub replace_mode: ReplaceMode,
}

/// What the command line asks for, by the texts.
pub struct ArgsView {
    pub lxc_path: Seq<char>,
    pub suffix: Seq<char>,
    pub mask: Cidr,
    pub agent: AgentView,
    pub user: Option<(Seq<char>, Seq<char>)>,
    pub replace_mode: ReplaceMode,
}

pub open spec fn user_view(user: Option<BasicAuth>) -> Option<(Seq<char>, Seq<char>)> {
    match user {
        Some(u) => Some(u@),
        None => None,
    }
}

impl View for Args {
    type V = ArgsView;

    open spec fn view(&self) -> ArgsView {
        ArgsView {
            lxc_path: self.lxc_path@,
            suffix: self.suffix@,
            mask: self.mask,
            agent: self.agent@,
            user: user_view(self.user),
            replace_mode: self.replace_mode,
        }
    }
}

/// A command line: a run, or a call for help.
#[derive(Debug)]
pub enum Invocation {
    Run(Args),
    Help,
}

/// A command line, by the texts.
pub enum InvocationView {
    Run(ArgsView),
    Help,
}

impl View for Invocation {
    type V = InvocationView;

    open spec fn view(&self) -> InvocationView {
        match self {
            Invocation::Run(a) => InvocationView::Run(a@),
            Invocation::Help => InvocationView::Help,
        }
    }
}

pub open spec fn user_complaint() -> Seq<char> {
    "--user must be username:password"@
}

/// Reads `username:password`.
pub fn parse_basic_auth(raw: &str) -> (res: Result<BasicAuth, Failure>)
    ensures
        view_result_is(res, user_value(raw@, user_complaint())),
{
    match cut_once(&chars_of(raw), ':') {
        Some(p) => Ok(BasicAuth { username: string_of(&p.0), password: string_of(&p.1) }),
        None => Err(plain_failure("--user must be username:password")),
    }
}

/// A part of a host name: without white space and then without dots round it, in lower case.
pub open spec fn name_part(raw: Seq<char>) -> Seq<char> {
    lower(trim(trim_space(raw), Strip::Only('.')))
}

/// The suffix of the host names.
pub open spec fn suffix_value(raw: Seq<char>) -> Result<Seq<char>, Seq<char>> {
    let suffix = name_part(raw);
    if suffix.len() == 0 {
        Err("--suffix must not be empty"@)
    } else {
        Ok(suffix)
    }
}

/// The host name of an instance.
pub open spec fn host_name(instance: Seq<char>, suffix: Seq<char>) -> Seq<char> {
    name_part(instance) + "."@ + suffix
}

/// The suffix of the host names.
pub fn normalize_suffix(raw: &str) -> (res: Result<String, Failure>)
    ensures
        view_result_is(res, suffix_value(raw@)),
{
    let inner = trimmed(&chars_of(raw), Strip::WhiteSpace);
    let suffix = lowered(&trimmed(&inner, Strip::Only('.')));
    if suffix.len() == 0 {
        Err(plain_failure("--suffix must not be empty"))
    } else {
        Ok(string_of(&suffix))
    }
}

/// The host name of an instance.
pub fn format_host(instance_name: &str, suffix: &str) -> (res: String)
    ensures
        res@ == host_name(instance_name@, suffix@),
{
    let inner = trimmed(&chars_of(instance_name), Strip::WhiteSpace);
    let name = string_of(&lowered(&trimmed(&inner, Strip::Only('.'))));
    let mut res = String::new();
    res.append(&name);
    res.append(".");
    res.append(suffix);
    assert(res@ =~= host_name(instance_name@, suffix@));
    res
}

/// A text without `http://` before it.
pub open spec fn without_scheme(raw: Seq<char>) -> Seq<char> {
    if "http://"@.is_prefix_of(raw) {
        raw.skip("http://"@.len() as int)
    } else {
        raw
    }
}

/// Address and base path: what stands before the first slash, and from there on without the
/// slashes at its end and with one before it.
pub open spec fn authority_and_base(place: Seq<char>) -> (Seq<char>, Seq<char>) {
    match split_once(place, '/') {
        Some(p) => (p.0, "/"@ + trim(p.1, Strip::Only('/'))),
        None => (place, Seq::empty()),
    }
}

/// The agent at `host:port` or `http://host:port`, with a base path or without.
pub open spec fn agent_value(raw: Seq<char>) -> Result<AgentView, Seq<char>> {
    if "https://"@.is_prefix_of(raw) {
        Err("https agents are not supported; use http://host:port or host:port"@)
    } else {
        let (authority, base) = authority_and_base(without_scheme(raw));
        match socket_value(authority) {
            None => Err("invalid agent socket address `"@ + authority + "`"@),
            Some(socket_addr) => Ok(
                AgentView { authority, socket_addr, path: base + "/dnsmasq/add_host"@ },
            ),
        }
    }
}

impl AgentTarget {
    /// Reads where the agent is.
    pub fn parse(raw: &str) -> (res: Result<AgentTarget, Failure>)
        ensures
            view_result_is(res, agent_value(raw@)),
    {
        let chars = chars_of(raw);
        if begins_with(&chars, &chars_of("https://")) {
            return Err(
                plain_failure("https agents are not supported; use http://host:port or host:port"),
            );
        }
        let scheme = chars_of("http://");
        let place = if begins_with(&chars, &scheme) {
            piece(&chars, scheme.len(), chars.len())
        } else {
            piece(&chars, 0, chars.len())
        };
        assert(place@ =~= without_scheme(raw@));
        let mut path = String::new();
        let authority = match cut_once(&place, '/') {
            Some(p) => {
                path.append("/");
                path.append(&string_of(&trimmed(&p.1, Strip::Only('/'))));
                assert(path@ =~= authority_and_base(place@).1);
                p.0
            },
            None => {
                assert(path@ =~= authority_and_base(place@).1);
                place
            },
        };
        let authority = string_of(&authority);
        path.append("/dnsmasq/add_host");
        match SocketAddress::parse(&authority) {
            Some(socket_addr) => Ok(AgentTarget { authority, socket_addr, path }),
            None => Err(failure("invalid agent socket address `", &authority, "`")),
        }
    }
}

/// What the flags so far have set.
pub struct Flags {
    pub lxc_path: Option<Seq<char>>,
    pub suffix: Option<Seq<char>>,
    pub mask: Option<Cidr>,
    pub agent: Option<AgentView>,
    pub user: Option<(Seq<char>, Seq<char>)>,
    pub replace_mode: ReplaceMode,
}

pub open spec fn no_flags() -> Flags {
    Flags {
        lxc_path: None,
        suffix: None,
        mask: None,
        agent: None,
        user: None,
        replace_mode: ReplaceMode::Both,
    }
}

/// Whether a value follows a flag.
pub open spec fn takes_value(flag: Seq<char>) -> bool {
    flag == "--lxc-path"@ || flag == "--suffix"@ || flag == "--mask"@ || flag == "--agent"@ || flag
        == "--user"@ || flag == "--replace-mode"@
}

/// What a flag with its value sets.
pub open spec fn set_flag(f: Flags, flag: Seq<char>, value: Seq<char>) -> Result<Flags, Seq<char>> {
    if flag == "--lxc-path"@ {
        Ok(Flags { lxc_path: Some(value), ..f })
    } else if flag == "--suffix"@ {
        match suffix_value(value) {
            Ok(v) => Ok(Flags { suffix: Some(v), ..f }),
            Err(m) => Err(m),
        }
    } else if flag == "--mask"@ {
        match cidr_value(value) {
            Ok(v) => Ok(Flags { mask: Some(v), ..f }),
            Err(m) => Err(m),
        }
    } else if flag == "--agent"@ {
        match agent_value(value) {
            Ok(v) => Ok(Flags { agent: Some(v), ..f }),
            Err(m) => Err(m),
        }
    } else if flag == "--user"@ {
        match user_value(value, user_complaint()) {
            Ok(v) => Ok(Flags { user: Some(v), ..f }),
            Err(m) => Err(m),
        }
    } else {
        match mode_value(value) {
            Ok(v) => Ok(Flags { replace_mode: v, ..f }),
            Err(m) => Err(m),
        }
    }
}

/// The run that the flags ask for, or the first that is missing.
pub open spec fn run_from(f: Flags) -> Result<InvocationView, Seq<char>> {
    match (f.lxc_path, f.suffix, f.mask, f.agent) {
        (Some(lxc_path), Some(suffix), Some(mask), Some(agent)) => Ok(
            InvocationView::Run(
                ArgsView {
                    lxc_path,
                    suffix,
                    mask,
                    agent,
                    user: f.user,
                    replace_mode: f.replace_mode,
                },
            ),
        ),
        (None, _, _, _) => Err("missing required --lxc-path"@),
        (_, None, _, _) => Err("missing required --suffix"@),
        (_, _, None, _) => Err("missing required --mask"@),
        (_, _, _, None) => Err("missing required --agent"@),
    }
}

/// What a command line asks for after some flags, or what is wrong first.
pub open spec fn invocation_after(f: Flags, args: Seq<Seq<char>>) -> Result<
    InvocationView,
    Seq<char>,
>
    decreases args.len(),
{
    if args.len() == 0 {
        run_from(f)
    } else if takes_value(args[0]) {
        if args.len() == 1 {
            Err("missing value for "@ + args[0])
        } else {
            match set_flag(f, args[0], args[1]) {
                Ok(next) => invocation_after(next, args.skip(2)),
                Err(m) => Err(m),
            }
        }
    } else if args[0] == "--help"@ || args[0] == "-h"@ {
        Ok(InvocationView::Help)
    } else {
        Err("unknown argument `"@ + args[0] + "`"@)
    }
}

pub open spec fn arg_texts(args: Seq<String>) -> Seq<Seq<char>> {
    args.map_values(|s: String| s@)
}

/// What the flags so far have set.
struct ReadFlags {
    lxc_path: Option<String>,
    suffix: Option<String>,
    mask: Option<Cidr>,
    agent: Option<AgentTarget>,
    user: Option<BasicAuth>,
    replace_mode: ReplaceMode,
}

impl ReadFlags {
    spec fn flags(self) -> Flags {
        Flags {
            lxc_path: crate::requests::opt_text(self.lxc_path),
            suffix: crate::requests::opt_text(self.suffix),
            mask: self.mask,
            agent: match self.agent {
                Some(a) => Some(a@),
                None => None,
            },
            user: user_view(self.user),
            replace_mode: self.replace_mode,
        }
    }

    spec fn wf(self) -> bool {
        self.mask matches Some(m) ==> m.wf()
    }

    fn set(&mut self, flag: &str, value: &str) -> (res: Result<(), Failure>)
        requires
            old(self).wf(),
            takes_value(flag@),
        ensures
            final(self).wf(),
            match (res, set_flag(old(self).flags(), flag@, value@)) {
                (Ok(_), Ok(next)) => final(self).flags() == next,
                (Err(e), Err(m)) => e.message@ == m,
                _ => false,
            },
    {
        if same_str(flag, "--lxc-path") {
            self.lxc_path = Some(value.to_owned());
        } else if same_str(flag, "--suffix") {
            match normalize_suffix(value) {
                Ok(v) => self.suffix = Some(v),
                Err(e) => {
                    return Err(e);
                },
            }
        } else if same_str(flag, "--mask") {
            match Cidr::from_str(value) {
                Ok(v) => self.mask = Some(v),
                Err(e) => {
                    return Err(e);
                },
            }
        } else if same_str(flag, "--agent") {
            match AgentTarget::parse(value) {
                Ok(v) => self.agent = Some(v),
                Err(e) => {
                    return Err(e);
                },
            }
        } else if same_str(flag, "--user") {
            match parse_basic_auth(value) {
                Ok(v) => self.user = Some(v),
                Err(e) => {
                    return Err(e);
                },
            }
        } else {
            match ReplaceMode::from_str(value) {
                Ok(v) => self.replace_mode = v,
                Err(e) => {
                    return Err(e);
                },
            }
        }
        Ok(())
    }

    fn run(self) -> (res: Result<Invocation, Failure>)
        requires
            self.wf(),
        ensures
            view_result_is(res, run_from(self.flags())),
            res matches Ok(Invocation::Run(a)) ==> a.mask.wf(),
    {
        let lxc_path = match self.lxc_path {
            Some(v) => v,
            None => {
                return Err(plain_failure("missing required --lxc-path"));
            },
        };
        let suffix = match self.suffix {
            Some(v) => v,
            None => {
                return Err(plain_failure("missing required --suffix"));
            },
        };
        let mask = match self.mask {
            Some(v) => v,
            None => {
                return Err(plain_failure("missing required --mask"));
            },
        };
        let agent = match self.agent {
            Some(v) => v,
            None => {
                return Err(plain_failure("missing required --agent"));
            },
        };
        let user = self.user;
        let replace_mode = self.replace_mode;
        Ok(Invocation::Run(Args { lxc_path, suffix, mask, agent, user, replace_mode }))
    }
}

fn expects_value(flag: &str) -> (res: bool)
    ensures
        res == takes_value(flag@),
{
    same_str(flag, "--lxc-path") || same_str(flag, "--suffix") || same_str(flag, "--mask")
        || same_str(flag, "--agent") || same_str(flag, "--user") || same_str(
        flag,
        "--replace-mode",
    )
}

impl Args {
    /// Reads a command line, without the name of the program.
    pub fn parse(args: &[String]) -> (res: Result<Invocation, Failure>)
        ensures
            view_result_is(res, invocation_after(no_flags(), arg_texts(args@))),
            res matches Ok(Invocation::Run(a)) ==> a.mask.wf(),
    {
        let ghost all = arg_texts(args@);
        let mut flags = ReadFlags {
            lxc_path: None,
            suffix: None,
            mask: None,
            agent: None,
            user: None,
            replace_mode: ReplaceMode::Both,
        };
        let mut i: usize = 0;
        assert(all.skip(0) =~= all);
        while i < args.len()
            invariant
                i <= args@.len(),
                all == arg_texts(args@),
                flags.wf(),
                invocation_after(no_flags(), all) == invocation_after(
                    flags.flags(),
                    all.skip(i as int),
                ),
            decreases args@.len() - i,
        {
            let flag = args[i].as_str();
            assert(all.skip(i as int)[0] == flag@);
            if expects_value(flag) {
                if args.len() - i == 1 {
                    return Err(failure_about("missing value for ", flag));
                }
                assert(all.skip(i as int)[1] == args@[i + 1]@);
                match flags.set(flag, args[i + 1].as_str()) {
                    Ok(_) => {},
                    Err(e) => {
                        return Err(e);
                    },
                }
                assert(all.skip(i as int).skip(2) =~= all.skip(i + 2));
                i += 2;
            } else if same_str(flag, "--help") || same_str(flag, "-h") {
                return Ok(Invocation::Help);
            } else {
                return Err(failure("unknown argument `", flag, "`"));
            }
        }
        flags.run()
    }
}

/// How the program is called.
pub fn usage() -> (res: &'static str)
    ensures
        res@
            == "Usage: lxc_dns_register --lxc-path /path/to/lxc --suffix titan --mask 192.168.0.0/24 --agent 192.168.33.22:8000 [--user username:password] [--replace-mode both|host|ip|none]"@,
{
    "Usage: lxc_dns_register --lxc-path /path/to/lxc --suffix titan --mask 192.168.0.0/24 --agent 192.168.33.22:8000 [--user username:password] [--replace-mode both|host|ip|none]"
}

/// What the agent is asked for: the host under the address, for the time to live.
pub fn registration(ip: IpAddress, host: &str, replace_mode: ReplaceMode) -> (res: AddHostRequest)
    ensures
        res.ip == ip,
        res.host@ == host@,
        res.ttl == Some(TTL_SECONDS),
        res.replace_mode == Some(replace_mode),
        res.replace is None,
        res.replace_ip is None,
        requested_mode(res.replace_mode, res.replace, res.replace_ip) == replace_mode,
{
    AddHostRequest {
        ip,
        host: host.to_owned(),
        replace_mode: Some(replace_mode),
        replace: None,
        replace_ip: None,
        ttl: Some(TTL_SECONDS),
    }
}

/// The `Authorization` header with its line end, where there is a user.
pub open spec fn authorization_line(user: Option<(Seq<char>, Seq<char>)>) -> Seq<char> {
    match user {
        Some(u) => "Authorization: "@ + credentials(u.0, u.1) + "\r\n"@,
        None => Seq::empty(),
    }
}

/// The request line and the headers that every request has, each with its line end.
pub open spec fn header_lines(agent: AgentView, body_len: int) -> Seq<char> {
    "POST "@ + agent.path + " HTTP/1.1\r\nHost: "@ + agent.authority
        + "\r\nContent-Type: application/json\r\nContent-Length: "@ + decimal_text(body_len)
        + "\r\nConnection: close\r\n"@
}

/// The head of the request: request line and headers, up to and with the blank line.
pub open spec fn head_text(
    agent: AgentView,
    user: Option<(Seq<char>, Seq<char>)>,
    body_len: int,
) -> Seq<char> {
    header_lines(agent, body_len) + authorization_line(user) + "\r\n"@
}

/// The head of the request that a body of so many bytes follows.
pub fn request_head(agent: &AgentTarget, user: &Option<BasicAuth>, body_len: usize) -> (res: String)
    requires
        user matches Some(u) ==> encode_utf8(u.username@ + ":"@ + u.password@).len() <= usize::MAX
            / 4,
    ensures
        res@ == head_text(agent@, user_view(*user), body_len as int),
{
    let mut res = String::new();
    res.append("POST ");
    res.append(&agent.path);
    res.append(" HTTP/1.1\r\nHost: ");
    res.append(&agent.authority);
    res.append("\r\nContent-Type: application/json\r\nContent-Length: ");
    res.append(&string_of(&write_decimal(body_len as u64)));
    res.append("\r\nConnection: close\r\n");
    let ghost before = res@;
    match user {
        Some(u) => {
            let value = basic_credentials(&u.username, &u.password);
            res.append("Authorization: ");
            res.append(&value);
            res.append("\r\n");
        },
        None => {},
    }
    assert(res@ =~= before + authorization_line(user_view(*user)));
    res.append("\r\n");
    assert(res@ =~= head_text(agent@, user_view(*user), body_len as int));
    res
}

/// A request: its head, and the body that follows it.
#[derive(Debug)]
pub struct HttpRequest {
    pub head: String,
    pub body: Vec<u8>,
}

/// A request, by the bytes that are sent.
impl View for HttpRequest {
    type V = Seq<u8>;

    open spec fn view(&self) -> Seq<u8> {
        encode_utf8(self.head@) + self.body@
    }
}

/// The bytes of the request with a body: the head, which gives the length of the body, and the
/// body as it is.
pub open spec fn request_bytes(
    agent: AgentView,
    user: Option<(Seq<char>, Seq<char>)>,
    body: Seq<u8>,
) -> Seq<u8> {
    encode_utf8(head_text(agent, user, body.len() as int)) + body
}

/// The request with a body.
pub fn framed_request(agent: &AgentTarget, user: &Option<BasicAuth>, body: Vec<u8>) -> (res:
    HttpRequest)
    requires
        user matches Some(u) ==> encode_utf8(u.username@ + ":"@ + u.password@).len() <= usize::MAX
            / 4,
    ensures
        res@ == request_bytes(agent@, user_view(*user), body@),
        res.head@ == head_text(agent@, user_view(*user), body@.len() as int),
        res.body@ == body@,
{
    let head = request_head(agent, user, body.len());
    HttpRequest { head, body }
}

/// Whether a reply reports success: its status line has a status from 200 to 299.
pub open spec fn reports_success(reply: Seq<char>) -> bool {
    "HTTP/1.1 2"@.is_prefix_of(reply) || "HTTP/1.0 2"@.is_prefix_of(reply)
}

/// What a reply says of a registration.
pub open spec fn reply_value(reply: Seq<char>, ip: IpAddress, host: Seq<char>) -> Result<
    (),
    Seq<char>,
> {
    if reports_success(reply) {
        Ok(())
    } else {
        Err(
            "agent registration failed for "@ + ip_text(ip) + " "@ + host + ": "@ + trim_space(
                reply,
            ),
        )
    }
}

/// Whether the text of a reply reports that the host was registered.
pub fn judge_reply(reply: &str, ip: IpAddress, host: &str) -> (res: Result<(), Failure>)
    ensures
        match (res, reply_value(reply@, ip, host@)) {
            (Ok(_), Ok(_)) => true,
            (Err(e), Err(m)) => e.message@ == m,
            _ => false,
        },
{
    let chars = chars_of(reply);
    if begins_with(&chars, &chars_of("HTTP/1.1 2")) || begins_with(&chars, &chars_of("HTTP/1.0 2")) {
        return Ok(());
    }
    let mut message = String::new();
    message.append("agent registration failed for ");
    message.append(&ip.text());
    message.append(" ");
    message.append(host);
    message.append(": ");
    message.append(&string_of(&trimmed(&chars, Strip::WhiteSpace)));
    assert(message@ =~= "agent registration failed for "@ + ip_text(ip) + " "@ + host@ + ": "@
        + trim_space(reply@));
    Err(Failure { message })
}

/// Whether a reply reports that the host was registered.
pub fn registration_outcome(reply: &[u8], ip: IpAddress, host: &str) -> (res: Result<(), Failure>)
    ensures
        match (res, reply_value(lossy_text(reply@), ip, host@)) {
            (Ok(_), Ok(_)) => true,
            (Err(e), Err(m)) => e.message@ == m,
            _ => false,
        },
{
    judge_reply(&utf8_text_lossy(reply), ip, host)
}

/// Of two values for one flag the later counts.
pub proof fn law_later_flag_counts(f: Flags, flag: Seq<char>, first: Seq<char>, second: Seq<char>)
    requires
        takes_value(flag),
        set_flag(f, flag, first) is Ok,
    ensures
        set_flag(set_flag(f, flag, first)->Ok_0, flag, second) == set_flag(f, flag, second),
{
}

/// Different flags may come in any order.
pub proof fn law_flags_in_any_order(
    f: Flags,
    flag: Seq<char>,
    value: Seq<char>,
    other: Seq<char>,
    other_value: Seq<char>,
)
    requires
        takes_value(flag),
        takes_value(other),
        flag != other,
        set_flag(f, flag, value) is Ok,
        set_flag(f, other, other_value) is Ok,
    ensures
        set_flag(set_flag(f, flag, value)->Ok_0, other, other_value) is Ok,
        set_flag(set_flag(f, flag, value)->Ok_0, other, other_value) == set_flag(
            set_flag(f, other, other_value)->Ok_0,
            flag,
            value,
        ),
{
}

/// `http://` before the place of an agent makes no difference.
pub proof fn law_scheme_makes_no_difference(place: Seq<char>)
    requires
        !"http://"@.is_prefix_of(place),
        !"https://"@.is_prefix_of(place),
    ensures
        agent_value("http://"@ + place) == agent_value(place),
{
    let raw = "http://"@ + place;
    reveal_strlit("http://");
    reveal_strlit("https://");
    assert("http://"@.is_prefix_of(raw)) by {
        assert("http://"@ =~= raw.subrange(0, "http://"@.len() as int));
    }
    assert(!"https://"@.is_prefix_of(raw)) by {
        assert(raw[4] == ':');
        assert("https://"@[4] == 's');
    }
    assert(raw.skip("http://"@.len() as int) =~= place);
}

proof fn lemma_encode_in_parts(a: Seq<char>, b: Seq<char>)
    ensures
        encode_utf8(a + b) == encode_utf8(a) + encode_utf8(b),
    decreases a.len(),
{
    if a.len() == 0 {
        assert(a + b =~= b);
        assert(encode_utf8(a) + encode_utf8(b) =~= encode_utf8(b));
    } else {
        assert((a + b).drop_first() =~= a.drop_first() + b);
        lemma_encode_in_parts(a.drop_first(), b);
        assert(encode_utf8(a + b) =~= encode_utf8(a) + encode_utf8(b));
    }
}

/// A user adds one line to a request and changes nothing else: the `Authorization` line stands
/// directly before the blank line that ends the headers, and the other headers, the length that
/// they give and the body are the same.
pub proof fn law_user_adds_one_line(agent: AgentView, u: (Seq<char>, Seq<char>), body: Seq<u8>)
    ensures
        ({
            let lines = encode_utf8(header_lines(agent, body.len() as int));
            let line = "Authorization: Basic "@ + base64_encoded(
                encode_utf8(u.0 + ":"@ + u.1),
            ) + "\r\n"@;
            let rest = encode_utf8("\r\n"@) + body;
            &&& request_bytes(agent, None, body) == lines + rest
            &&& request_bytes(agent, Some(u), body) == lines + encode_utf8(line) + rest
        }),
{
    let n = body.len() as int;
    let lines = header_lines(agent, n);
    let blank = "\r\n"@;
    let line = "Authorization: Basic "@ + base64_encoded(encode_utf8(u.0 + ":"@ + u.1)) + blank;
    reveal_strlit("Authorization: ");
    reveal_strlit("Basic ");
    reveal_strlit("Authorization: Basic ");
    assert("Authorization: "@ + "Basic "@ =~= "Authorization: Basic "@);
    assert(authorization_line(Some(u)) =~= line);
    assert(head_text(agent, None, n) =~= lines + blank);
    assert(head_text(agent, Some(u), n) =~= lines + line + blank);
    lemma_encode_in_parts(lines, blank);
    lemma_encode_in_parts(lines + line, blank);
    lemma_encode_in_parts(lines, line);
    let rest = encode_utf8(blank) + body;
    assert(request_bytes(agent, None, body) =~= encode_utf8(lines) + rest);
    assert(request_bytes(agent, Some(u), body) =~= encode_utf8(lines) + encode_utf8(line) + rest);
}

/// A suffix begins and ends with something other than a dot.
pub proof fn law_suffix_has_no_outer_dots(raw: Seq<char>)
    requires
        suffix_value(raw) is Ok,
    ensures
        ({
            let suffix = suffix_value(raw)->Ok_0;
            suffix.len() > 0 && suffix[0] != '.' && suffix.last() != '.'
        }),
{
    lemma_trim_ends(trim_space(raw), Strip::Only('.'));
}

/// The host name of an instance is in lower case.
pub proof fn law_host_name_is_lower_case(instance: Seq<char>, raw_suffix: Seq<char>)
    requires
        suffix_value(raw_suffix) is Ok,
    ensures
        ({
            let host = host_name(instance, suffix_value(raw_suffix)->Ok_0);
            lower(host) == host
        }),
{
    let name = trim(trim_space(instance), Strip::Only('.'));
    let suffix = suffix_value(raw_suffix)->Ok_0;
    lemma_lower_idempotent(name);
    lemma_lower_idempotent(trim(trim_space(raw_suffix), Strip::Only('.')));
    reveal_strlit(".");
    let host = host_name(instance, suffix);
    assert forall|i: int| 0 <= i < host.len() implies lower(host)[i] == host[i] by {
        let n = name_part(instance).len();
        if i < n {
            assert(lower(lower(name))[i] == lower(name)[i]);
        } else if i > n {
            assert(lower(suffix)[i - n - 1] == suffix[i - n - 1]);
        }
    }
    assert(lower(host) =~= host);
}

} // verus!
