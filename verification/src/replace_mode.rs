//! What a new host/IP pair takes the place of.

use crate::failure::{failure, result_is, Failure};
use crate::text::{chars_of, lower, lowered, same, trim_space, trimmed, Strip};
use vstd::prelude::*;

verus! {

/// Which other entries a new host/IP pair replaces.
#[derive(Clone, Copy, Debug, PartialEq, Eq, Structural)]
pub enum ReplaceMode {
    /// The other hosts under the IP, and the other IPs under the host.
    Both,
    /// The other hosts under the IP.
    Host,
    /// The other IPs under the host.
    Ip,
    /// Nothing.
    Neither,
}

/// The mode that `raw` names, in any case and with white space round it.
pub open spec fn mode_value(raw: Seq<char>) -> Result<ReplaceMode, Seq<char>> {
    let name = lower(trim_space(raw));
    if name == "both"@ {
        Ok(ReplaceMode::Both)
    } else if name == "host"@ {
        Ok(ReplaceMode::Host)
    } else if name == "ip"@ {
        Ok(ReplaceMode::Ip)
    } else if name == "none"@ {
        Ok(ReplaceMode::Neither)
    } else {
        Err("invalid replace mode `"@ + raw + "`; expected one of: both, host, ip, none"@)
    }
}

/// The name of a mode.
pub open spec fn mode_name(mode: ReplaceMode) -> Seq<char> {
    match mode {
        ReplaceMode::Both => "both"@,
        ReplaceMode::Host => "host"@,
        ReplaceMode::Ip => "ip"@,
        ReplaceMode::Neither => "none"@,
    }
}

/// The mode that a request asks for. A named mode counts before the two older flags, of
/// which one that is left out counts as false; a request with none of the three asks for
/// `Both`.
pub open spec fn requested_mode(
    mode: Option<ReplaceMode>,
    replace: Option<bool>,
    replace_ip: Option<bool>,
) -> ReplaceMode {
    match mode {
        Some(m) => m,
        None => if replace is None && replace_ip is None {
            ReplaceMode::Both
        } else {
            match (replace == Some(true), replace_ip == Some(true)) {
                (true, true) => ReplaceMode::Both,
                (true, false) => ReplaceMode::Host,
                (false, true) => ReplaceMode::Ip,
                (false, false) => ReplaceMode::Neither,
            }
        },
    }
}

impl ReplaceMode {
    /// Whether other hosts under the IP go.
    pub open spec fn clears_ip(self) -> bool {
        self == ReplaceMode::Both || self == ReplaceMode::Host
    }

    /// Whether other IPs under the host go.
    pub open spec fn clears_host(self) -> bool {
        self == ReplaceMode::Both || self == ReplaceMode::Ip
    }

    /// Reads the name of a mode.
    pub fn from_str(raw: &str) -> (res: Result<ReplaceMode, Failure>)
        ensures
            result_is(res, mode_value(raw@)),
    {
        let name = lowered(&trimmed(&chars_of(raw), Strip::WhiteSpace));
        if same(&name, &chars_of("both")) {
            Ok(ReplaceMode::Both)
        } else if same(&name, &chars_of("host")) {
            Ok(ReplaceMode::Host)
        } else if same(&name, &chars_of("ip")) {
            Ok(ReplaceMode::Ip)
        } else if same(&name, &chars_of("none")) {
            Ok(ReplaceMode::Neither)
        } else {
            Err(
                failure(
                    "invalid replace mode `",
                    raw,
                    "`; expected one of: both, host, ip, none",
                ),
            )
        }
    }

    /// The name of the mode.
    pub fn as_str(&self) -> (res: &'static str)
        ensures
            res@ == mode_name(*self),
    {
        match self {
            ReplaceMode::Both => "both",
            ReplaceMode::Host => "host",
            ReplaceMode::Ip => "ip",
            ReplaceMode::Neither => "none",
        }
    }

    /// The mode that a request asks for, by name or by the two older flags.
    pub fn requested(
        mode: Option<ReplaceMode>,
        replace: Option<bool>,
        replace_ip: Option<bool>,
    ) -> (res: ReplaceMode)
        ensures
            res == requested_mode(mode, replace, replace_ip),
    {
        if let Some(m) = mode {
            return m;
        }
        if replace.is_none() && replace_ip.is_none() {
            return ReplaceMode::Both;
        }
        let hosts_go: bool = match replace {
            Some(b) => b,
            None => false,
        };
        let ips_go: bool = match replace_ip {
            Some(b) => b,
            None => false,
        };
        match (hosts_go, ips_go) {
            (true, true) => ReplaceMode::Both,
            (true, false) => ReplaceMode::Host,
            (false, true) => ReplaceMode::Ip,
            (false, false) => ReplaceMode::Neither,
        }
    }
}

/// The name of a mode reads back as the mode.
pub proof fn law_mode_name_reads_back(mode: ReplaceMode)
    ensures
        mode_value(mode_name(mode)) == Ok::<ReplaceMode, Seq<char>>(mode),
{
    reveal_strlit("both");
    reveal_strlit("host");
    reveal_strlit("ip");
    reveal_strlit("none");
    let name = mode_name(mode);
    crate::text::lemma_trim_fixed(name, Strip::WhiteSpace);
    assert(lower(name) =~= name);
    assert("both"@[0] != "host"@[0] && "both"@[0] != "none"@[0] && "host"@[0] != "none"@[0]);
    assert("ip"@.len() == 2);
}

} // verus!
