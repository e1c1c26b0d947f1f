//! What a command line asks for, what is sent, and what a reply means.

use crate::cidr::{cidr_value, Cidr};
use crate::config_laws::law_user_text;
use crate::ip::{ip_text, socket_value, IpAddress};
use crate::number::decimal_text;
use crate::register::{
    agent_value, authority_and_base, header_lines, host_name, invocation_after, name_part, no_flags,
    reply_value, run_from, set_flag, suffix_value, takes_value, user_complaint,
    without_scheme, AgentView, ArgsView, Flags, InvocationView,
};
use crate::replace_mode::{mode_value, ReplaceMode};
use crate::text::{split_once, trim, trim_space, Strip};
use crate::text_laws::{
    is_blank_core, is_core_without, is_lowered, law_lower, law_one_core, law_split_once,
    law_trim_only, law_trim_space, lemma_lower_is, lemma_trim_space_is,
};
use vstd::prelude::*;

verus! {

/// A reply is a success exactly where it begins with one of the two versions of HTTP, a space
/// and the digit two.
pub proof fn law_success_is_status_two_hundred(reply: Seq<char>, ip: IpAddress, host: Seq<char>)
    ensures
        "HTTP/1.1 "@.is_prefix_of(reply) || "HTTP/1.0 "@.is_prefix_of(reply) ==> (reply_value(
            reply,
            ip,
            host,
        ) is Ok <==> reply.len() > 9 && reply[9] == '2'),
        !"HTTP/1.1 "@.is_prefix_of(reply) && !"HTTP/1.0 "@.is_prefix_of(reply) ==> reply_value(
            reply,
            ip,
            host,
        ) is Err,
{
    reveal_strlit("HTTP/1.1 ");
    reveal_strlit("HTTP/1.0 ");
    reveal_strlit("HTTP/1.1 2");
    reveal_strlit("HTTP/1.0 2");
    assert("HTTP/1.1 2"@ =~= "HTTP/1.1 "@.push('2'));
    assert("HTTP/1.0 2"@ =~= "HTTP/1.0 "@.push('2'));
    lemma_one_more("HTTP/1.1 "@, "HTTP/1.1 2"@, reply);
    lemma_one_more("HTTP/1.0 "@, "HTTP/1.0 2"@, reply);
}

proof fn lemma_one_more(short: Seq<char>, long: Seq<char>, s: Seq<char>)
    requires
        long == short.push('2'),
        short.len() == 9,
    ensures
        long.is_prefix_of(s) <==> short.is_prefix_of(s) && s.len() > 9 && s[9] == '2',
{
    if long.is_prefix_of(s) {
        assert(short =~= s.subrange(0, 9)) by {
            assert forall|i: int| 0 <= i < 9 implies short[i] == s[i] by {
                assert(long[i] == s.subrange(0, 10)[i]);
            }
        }
        assert(s.subrange(0, 10)[9] == '2');
    }
    if short.is_prefix_of(s) && s.len() > 9 && s[9] == '2' {
        assert(long =~= s.subrange(0, 10)) by {
            assert forall|i: int| 0 <= i < 10 implies long[i] == s[i] by {
                if i < 9 {
                    assert(short[i] == s.subrange(0, 9)[i]);
                }
            }
        }
    }
}

/// A failure names the address, the host and the reply, without the white space round it.
pub proof fn law_failure_names_the_reply(
    reply: Seq<char>,
    core: Seq<char>,
    ip: IpAddress,
    host: Seq<char>,
)
    requires
        is_blank_core(reply, core),
        reply_value(reply, ip, host) is Err,
    ensures
        reply_value(reply, ip, host)->Err_0 == "agent registration failed for "@ + ip_text(ip)
            + " "@ + host + ": "@ + core,
{
    lemma_trim_space_is(reply, core);
}

/// Whether `part` is `raw` without white space round it, then without dots round it, and with
/// its capital letters in lower case.
pub open spec fn is_name_part(
    raw: Seq<char>,
    core: Seq<char>,
    inner: Seq<char>,
    part: Seq<char>,
) -> bool {
    is_blank_core(raw, core) && is_core_without(core, inner, '.') && is_lowered(inner, part)
}

proof fn lemma_name_part(raw: Seq<char>, core: Seq<char>, inner: Seq<char>, part: Seq<char>)
    requires
        is_name_part(raw, core, inner, part),
    ensures
        name_part(raw) == part,
{
    lemma_trim_space_is(raw, core);
    law_trim_only(core, '.');
    law_one_core(core, trim(core, Strip::Only('.')), inner, |c: char| c == '.');
    lemma_lower_is(inner, part);
}

/// The host name of an instance is its name, without what stands round it and in lower case, a
/// dot and the suffix as it is.
pub proof fn law_host_name(
    instance: Seq<char>,
    suffix: Seq<char>,
    core: Seq<char>,
    inner: Seq<char>,
    part: Seq<char>,
)
    requires
        is_name_part(instance, core, inner, part),
    ensures
        host_name(instance, suffix) == part + seq!['.'] + suffix,
{
    lemma_name_part(instance, core, inner, part);
    reveal_strlit(".");
    assert("."@ =~= seq!['.']);
}

/// A suffix is the text without what stands round it and in lower case, and is refused exactly
/// where nothing is left.
pub proof fn law_suffix(
    raw: Seq<char>,
    core: Seq<char>,
    inner: Seq<char>,
    part: Seq<char>,
)
    requires
        is_name_part(raw, core, inner, part),
    ensures
        inner.len() > 0 ==> suffix_value(raw) == Ok::<Seq<char>, Seq<char>>(part),
        inner.len() == 0 ==> suffix_value(raw) == Err::<Seq<char>, Seq<char>>(
            "--suffix must not be empty"@,
        ),
{
    lemma_name_part(raw, core, inner, part);
}

/// Every text has the parts that the two laws before speak of.
pub proof fn law_every_name_has_its_part(raw: Seq<char>) -> (parts: (
    Seq<char>,
    Seq<char>,
    Seq<char>,
))
    ensures
        is_name_part(raw, parts.0, parts.1, parts.2),
{
    let core = trim_space(raw);
    let inner = trim(core, Strip::Only('.'));
    law_trim_space(raw);
    law_trim_only(core, '.');
    law_lower(inner);
    (core, inner, crate::text::lower(inner))
}

/// Whether `place` is `raw` without `http://` before it.
pub open spec fn is_place(raw: Seq<char>, place: Seq<char>) -> bool {
    raw == "http://"@ + place || (place == raw && !"http://"@.is_prefix_of(raw))
}

/// Whether an agent is at a place: an address with a port, and behind it a base path or
/// nothing. The path of the request is the base path, without slashes at its ends and with one
/// before it, and then the fixed one.
pub open spec fn is_at(agent: AgentView, place: Seq<char>) -> bool {
    &&& socket_value(agent.authority) == Some(agent.socket_addr)
    &&& !agent.authority.contains('/')
    &&& {
        ||| place == agent.authority && agent.path == "/dnsmasq/add_host"@
        ||| exists|rest: Seq<char>, base: Seq<char>|
            {
                &&& place == agent.authority + seq!['/'] + rest
                &&& #[trigger] is_core_without(rest, base, '/')
                &&& agent.path == seq!['/'] + base + "/dnsmasq/add_host"@
            }
    }
}

/// An agent is read off exactly the texts that say where it is; `https` is refused.
pub proof fn law_agent_text(raw: Seq<char>, place: Seq<char>, agent: AgentView)
    requires
        is_place(raw, place),
    ensures
        "https://"@.is_prefix_of(raw) ==> agent_value(raw) is Err,
        !"https://"@.is_prefix_of(raw) ==> (agent_value(raw) == Ok::<AgentView, Seq<char>>(agent)
            <==> is_at(agent, place)),
{
    let scheme = "http://"@;
    if raw == scheme + place {
        assert(scheme =~= raw.subrange(0, scheme.len() as int));
        assert(raw.skip(scheme.len() as int) =~= place);
    }
    assert(without_scheme(raw) == place);
    reveal_strlit("/");
    assert("/"@ =~= seq!['/']);
    let (authority, base_path) = authority_and_base(place);
    match split_once(place, '/') {
        Some(p) => {
            law_split_once(place, '/', p.0, p.1);
            law_trim_only(p.1, '/');
            let b = trim(p.1, Strip::Only('/'));
            assert(place == p.0 + seq!['/'] + p.1);
            assert(is_core_without(p.1, b, '/'));
            assert(place.contains('/')) by {
                assert(place[p.0.len() as int] == '/');
            }
            if is_at(agent, place) {
                let (rest, base) = choose|rest: Seq<char>, base: Seq<char>|
                    {
                        &&& place == agent.authority + seq!['/'] + rest
                        &&& #[trigger] is_core_without(rest, base, '/')
                        &&& agent.path == seq!['/'] + base + "/dnsmasq/add_host"@
                    };
                law_split_once(place, '/', agent.authority, rest);
                law_one_core(p.1, b, base, |c: char| c == '/');
                assert(base_path + "/dnsmasq/add_host"@ =~= agent.path);
            }
        },
        None => {
            law_split_once(place, '/', place, place);
            assert(Seq::<char>::empty() + "/dnsmasq/add_host"@ =~= "/dnsmasq/add_host"@);
            if is_at(agent, place) && place != agent.authority {
                let (rest, base) = choose|rest: Seq<char>, base: Seq<char>|
                    {
                        &&& place == agent.authority + seq!['/'] + rest
                        &&& #[trigger] is_core_without(rest, base, '/')
                        &&& agent.path == seq!['/'] + base + "/dnsmasq/add_host"@
                    };
                assert(place[agent.authority.len() as int] == '/');
            }
        },
    }
}

/// The request line and the headers that every request has.
pub proof fn law_header_lines(agent: AgentView, body_len: int)
    ensures
        header_lines(agent, body_len) == "POST "@ + agent.path + " HTTP/1.1\r\nHost: "@
            + agent.authority + "\r\nContent-Type: application/json\r\nContent-Length: "@
            + decimal_text(body_len) + "\r\nConnection: close\r\n"@,
{
}

/// What stands behind the last of several occurrences of a flag, where flags and values take
/// turns.
pub open spec fn last_value(args: Seq<Seq<char>>, flag: Seq<char>) -> Option<Seq<char>>
    decreases args.len(),
{
    if args.len() < 2 {
        None
    } else {
        match last_value(args.skip(2), flag) {
            Some(v) => Some(v),
            None => if args[0] == flag {
                Some(args[1])
            } else {
                None
            },
        }
    }
}

/// Whether a value is one that its flag can have.
pub open spec fn is_fine_value(flag: Seq<char>, value: Seq<char>) -> bool {
    ||| flag == "--lxc-path"@
    ||| flag == "--suffix"@ && suffix_value(value) is Ok
    ||| flag == "--mask"@ && cidr_value(value) is Ok
    ||| flag == "--agent"@ && agent_value(value) is Ok
    ||| flag == "--user"@ && value.contains(':')
    ||| flag == "--replace-mode"@ && mode_value(value) is Ok
}

/// Whether flags and values take turns, and every value is one that its flag can have.
pub open spec fn are_flags(args: Seq<Seq<char>>) -> bool {
    &&& args.len() % 2 == 0
    &&& forall|i: int|
        0 <= i && 2 * i + 1 < args.len() ==> #[trigger] is_fine_pair(args, i)
}

pub open spec fn is_fine_pair(args: Seq<Seq<char>>, i: int) -> bool {
    is_fine_value(args[2 * i], args[2 * i + 1])
}

/// Whether a run is what the flags ask for, after others were set.
spec fn follows(f: Flags, args: Seq<Seq<char>>, a: ArgsView) -> bool {
    &&& match last_value(args, "--lxc-path"@) {
        Some(v) => a.lxc_path == v,
        None => f.lxc_path == Some(a.lxc_path),
    }
    &&& match last_value(args, "--suffix"@) {
        Some(v) => suffix_value(v) == Ok::<Seq<char>, Seq<char>>(a.suffix),
        None => f.suffix == Some(a.suffix),
    }
    &&& match last_value(args, "--mask"@) {
        Some(v) => cidr_value(v) == Ok::<Cidr, Seq<char>>(a.mask),
        None => f.mask == Some(a.mask),
    }
    &&& match last_value(args, "--agent"@) {
        Some(v) => agent_value(v) == Ok::<AgentView, Seq<char>>(a.agent),
        None => f.agent == Some(a.agent),
    }
    &&& match last_value(args, "--user"@) {
        Some(v) => a.user matches Some(u) && v == u.0 + seq![':'] + u.1 && !u.0.contains(':'),
        None => f.user == a.user,
    }
    &&& match last_value(args, "--replace-mode"@) {
        Some(v) => mode_value(v) == Ok::<ReplaceMode, Seq<char>>(a.replace_mode),
        None => f.replace_mode == a.replace_mode,
    }
}

proof fn lemma_flags_differ()
    ensures
        "--lxc-path"@ != "--suffix"@,
        "--lxc-path"@ != "--mask"@,
        "--lxc-path"@ != "--agent"@,
        "--lxc-path"@ != "--user"@,
        "--lxc-path"@ != "--replace-mode"@,
        "--suffix"@ != "--mask"@,
        "--suffix"@ != "--agent"@,
        "--suffix"@ != "--user"@,
        "--suffix"@ != "--replace-mode"@,
        "--mask"@ != "--agent"@,
        "--mask"@ != "--user"@,
        "--mask"@ != "--replace-mode"@,
        "--agent"@ != "--user"@,
        "--agent"@ != "--replace-mode"@,
        "--user"@ != "--replace-mode"@,
{
    reveal_strlit("--lxc-path");
    reveal_strlit("--suffix");
    reveal_strlit("--mask");
    reveal_strlit("--agent");
    reveal_strlit("--user");
    reveal_strlit("--replace-mode");
    assert("--lxc-path"@[2] == 'l');
    assert("--suffix"@[2] == 's');
    assert("--mask"@[2] == 'm');
    assert("--agent"@[2] == 'a');
    assert("--user"@[2] == 'u');
    assert("--replace-mode"@[2] == 'r');
}

proof fn lemma_first_pair(args: Seq<Seq<char>>)
    requires
        args.len() >= 2,
    ensures
        are_flags(args) <==> is_fine_value(args[0], args[1]) && are_flags(args.skip(2)),
{
    let rest = args.skip(2);
    if are_flags(args) {
        assert(is_fine_pair(args, 0));
        assert forall|i: int| 0 <= i && 2 * i + 1 < rest.len() implies #[trigger] is_fine_pair(
            rest,
            i,
        ) by {
            assert(is_fine_pair(args, i + 1));
            assert(args[2 * (i + 1)] == rest[2 * i] && args[2 * (i + 1) + 1] == rest[2 * i + 1]);
        }
    }
    if is_fine_value(args[0], args[1]) && are_flags(rest) {
        assert forall|i: int| 0 <= i && 2 * i + 1 < args.len() implies #[trigger] is_fine_pair(
            args,
            i,
        ) by {
            if i > 0 {
                assert(is_fine_pair(rest, i - 1));
                assert(args[2 * i] == rest[2 * (i - 1)] && args[2 * i + 1] == rest[2 * (i - 1) + 1]);
            }
        }
    }
}

proof fn lemma_set_flag_fine(f: Flags, flag: Seq<char>, value: Seq<char>)
    ensures
        takes_value(flag) && set_flag(f, flag, value) is Ok <==> is_fine_value(flag, value),
{
    lemma_flags_differ();
    law_user_text(value, user_complaint(), value, value);
}

proof fn lemma_follows(f: Flags, args: Seq<Seq<char>>, a: ArgsView)
    requires
        invocation_after(f, args) == Ok::<InvocationView, Seq<char>>(InvocationView::Run(a)),
    ensures
        are_flags(args),
        follows(f, args, a),
    decreases args.len(),
{
    lemma_flags_differ();
    if args.len() == 0 {
    } else {
        let next = set_flag(f, args[0], args[1])->Ok_0;
        let rest = args.skip(2);
        lemma_follows(next, rest, a);
        lemma_set_flag_fine(f, args[0], args[1]);
        lemma_first_pair(args);
        if args[0] == "--user"@ {
            let u = next.user->0;
            law_user_text(args[1], user_complaint(), u.0, u.1);
        }
    }
}

/// A run has for each flag the value behind its last occurrence, read as that flag reads it;
/// without a user there is none, and without a mode it is that of both sides.
pub proof fn law_run_has_the_last_values(args: Seq<Seq<char>>, a: ArgsView)
    requires
        invocation_after(no_flags(), args) == Ok::<InvocationView, Seq<char>>(
            InvocationView::Run(a),
        ),
    ensures
        are_flags(args),
        last_value(args, "--lxc-path"@) == Some(a.lxc_path),
        last_value(args, "--suffix"@) is Some,
        suffix_value(last_value(args, "--suffix"@)->0) == Ok::<Seq<char>, Seq<char>>(a.suffix),
        last_value(args, "--mask"@) is Some,
        cidr_value(last_value(args, "--mask"@)->0) == Ok::<Cidr, Seq<char>>(a.mask),
        last_value(args, "--agent"@) is Some,
        agent_value(last_value(args, "--agent"@)->0) == Ok::<AgentView, Seq<char>>(a.agent),
        match last_value(args, "--user"@) {
            Some(v) => a.user matches Some(u) && v == u.0 + seq![':'] + u.1 && !u.0.contains(':'),
            None => a.user is None,
        },
        match last_value(args, "--replace-mode"@) {
            Some(v) => mode_value(v) == Ok::<ReplaceMode, Seq<char>>(a.replace_mode),
            None => a.replace_mode == ReplaceMode::Both,
        },
{
    lemma_follows(no_flags(), args, a);
}

proof fn lemma_runs(f: Flags, args: Seq<Seq<char>>)
    requires
        are_flags(args),
        f.lxc_path is Some || last_value(args, "--lxc-path"@) is Some,
        f.suffix is Some || last_value(args, "--suffix"@) is Some,
        f.mask is Some || last_value(args, "--mask"@) is Some,
        f.agent is Some || last_value(args, "--agent"@) is Some,
    ensures
        invocation_after(f, args) matches Ok(InvocationView::Run(_)),
    decreases args.len(),
{
    lemma_flags_differ();
    if args.len() > 0 {
        lemma_first_pair(args);
        lemma_set_flag_fine(f, args[0], args[1]);
        let next = set_flag(f, args[0], args[1])->Ok_0;
        lemma_runs(next, args.skip(2));
    }
}

/// A command line of flags with fine values that leaves none of the four required ones out is
/// carried out.
pub proof fn law_complete_command_line_runs(args: Seq<Seq<char>>)
    requires
        are_flags(args),
        last_value(args, "--lxc-path"@) is Some,
        last_value(args, "--suffix"@) is Some,
        last_value(args, "--mask"@) is Some,
        last_value(args, "--agent"@) is Some,
    ensures
        invocation_after(no_flags(), args) matches Ok(InvocationView::Run(_)),
{
    lemma_runs(no_flags(), args);
}

/// Help is given where the first word asks for it; another word that is no flag is refused, and
/// so is a flag without a value.
pub proof fn law_first_word(f: Flags, args: Seq<Seq<char>>)
    requires
        args.len() > 0,
    ensures
        args[0] == "--help"@ || args[0] == "-h"@ ==> invocation_after(f, args) == Ok::<
            InvocationView,
            Seq<char>,
        >(InvocationView::Help),
        !is_flag(args[0]) && args[0] != "--help"@ && args[0] != "-h"@ ==> invocation_after(f, args)
            == Err::<InvocationView, Seq<char>>("unknown argument `"@ + args[0] + "`"@),
        is_flag(args[0]) && args.len() == 1 ==> invocation_after(f, args) == Err::<
            InvocationView,
            Seq<char>,
        >("missing value for "@ + args[0]),
{
    reveal_strlit("--help");
    reveal_strlit("-h");
    reveal_strlit("--lxc-path");
    reveal_strlit("--suffix");
    reveal_strlit("--mask");
    reveal_strlit("--agent");
    reveal_strlit("--user");
    reveal_strlit("--replace-mode");
    assert("--help"@[2] == 'h');
    assert("-h"@.len() == 2);
    assert("--lxc-path"@[2] == 'l');
    assert("--suffix"@[2] == 's');
    assert("--mask"@[2] == 'm');
    assert("--agent"@[2] == 'a');
    assert("--user"@[2] == 'u');
    assert("--replace-mode"@[2] == 'r');
}

pub open spec fn is_flag(word: Seq<char>) -> bool {
    word == "--lxc-path"@ || word == "--suffix"@ || word == "--mask"@ || word == "--agent"@ || word
        == "--user"@ || word == "--replace-mode"@
}

/// What is complained of: `https`, an address that cannot be read, and a mode that is none of
/// the four.
pub proof fn law_complaints(raw: Seq<char>, place: Seq<char>, mode: Seq<char>)
    requires
        is_place(raw, place),
    ensures
        "https://"@.is_prefix_of(raw) ==> agent_value(raw) == Err::<AgentView, Seq<char>>(
            "https agents are not supported; use http://host:port or host:port"@,
        ),
        !"https://"@.is_prefix_of(raw) && agent_value(raw) is Err ==> ({
            let authority = if place.contains('/') {
                (split_once(place, '/')->0).0
            } else {
                place
            };
            agent_value(raw) == Err::<AgentView, Seq<char>>(
                "invalid agent socket address `"@ + authority + "`"@,
            )
        }),
        mode_value(mode) matches Err(m) ==> m == "invalid replace mode `"@ + mode
            + "`; expected one of: both, host, ip, none"@,
{
    let scheme = "http://"@;
    if raw == scheme + place {
        assert(scheme =~= raw.subrange(0, scheme.len() as int));
        assert(raw.skip(scheme.len() as int) =~= place);
    }
    assert(without_scheme(raw) == place);
    law_split_once(place, '/', place, place);
}

/// Where a required flag is missing, the first of the four is named.
pub proof fn law_missing_flags(f: Flags)
    ensures
        f.lxc_path is None ==> run_from(f) == Err::<InvocationView, Seq<char>>(
            "missing required --lxc-path"@,
        ),
        f.lxc_path is Some && f.suffix is None ==> run_from(f) == Err::<InvocationView, Seq<char>>(
            "missing required --suffix"@,
        ),
        f.lxc_path is Some && f.suffix is Some && f.mask is None ==> run_from(f) == Err::<
            InvocationView,
            Seq<char>,
        >("missing required --mask"@),
        f.lxc_path is Some && f.suffix is Some && f.mask is Some && f.agent is None ==> run_from(f)
            == Err::<InvocationView, Seq<char>>("missing required --agent"@),
{
}

} // verus!
