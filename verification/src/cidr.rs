//! Address ranges in CIDR notation.

use crate::failure::{failure, result_is, Failure};
use crate::ip::{ip_value, IpAddress};
use crate::number::{decimal_text, read_unsigned, unsigned_value, within, write_decimal};
use crate::text::{chars_of, cut_once, split_once, string_of};
use vstd::prelude::*;
use vstd::string::StringExecFns;

verus! {

/// The addresses that agree with `network` in the first `prefix_len` bits.
#[derive(Clone, Copy, Debug, PartialEq, Eq, Structural)]
pub struct Cidr {
    pub network: IpAddress,
    pub prefix_len: u8,
}

/// How many bits an address of this version has.
pub open spec fn address_bits(ip: IpAddress) -> int {
    match ip {
        IpAddress::V4(_) => 32,
        IpAddress::V6(_) => 128,
    }
}

/// What `raw` writes as `address/prefix`, or what is wrong with it.
pub open spec fn cidr_value(raw: Seq<char>) -> Result<Cidr, Seq<char>> {
    match split_once(raw, '/') {
        None => Err("invalid mask `"@ + raw + "`; expected CIDR like 192.168.0.0/24"@),
        Some(p) => match ip_value(p.0) {
            None => Err("invalid IP in mask `"@ + raw + "`"@),
            Some(network) => match within(unsigned_value(p.1), 0, 255) {
                None => Err("invalid prefix length in mask `"@ + raw + "`"@),
                Some(n) => if n > address_bits(network) {
                    Err(
                        "prefix length "@ + decimal_text(n) + " out of range for `"@ + raw + "`"@,
                    )
                } else {
                    Ok(Cidr { network, prefix_len: n as u8 })
                },
            },
        },
    }
}

impl Cidr {
    /// The prefix is no longer than the addresses are.
    pub open spec fn wf(self) -> bool {
        self.prefix_len <= address_bits(self.network)
    }

    /// Whether `ip` is of the same version and agrees in the leading bits.
    pub open spec fn has(self, ip: IpAddress) -> bool {
        match (self.network, ip) {
            (IpAddress::V4(a), IpAddress::V4(b)) => {
                let k = (32 - self.prefix_len) as u32;
                a >> k == b >> k
            },
            (IpAddress::V6(a), IpAddress::V6(b)) => {
                let k = (128 - self.prefix_len) as u128;
                a >> k == b >> k
            },
            _ => false,
        }
    }

    /// Reads `address/prefix`.
    pub fn from_str(raw: &str) -> (res: Result<Cidr, Failure>)
        ensures
            result_is(res, cidr_value(raw@)),
            res matches Ok(c) ==> c.wf(),
    {
        let chars = chars_of(raw);
        let (network_raw, prefix_raw) = match cut_once(&chars, '/') {
            Some(p) => p,
            None => {
                return Err(
                    failure("invalid mask `", raw, "`; expected CIDR like 192.168.0.0/24"),
                );
            },
        };
        let network = match IpAddress::parse_chars(&network_raw) {
            Some(ip) => ip,
            None => {
                return Err(failure("invalid IP in mask `", raw, "`"));
            },
        };
        let prefix_len: u8 = match read_unsigned(&prefix_raw, 255) {
            Some(n) => n as u8,
            None => {
                return Err(failure("invalid prefix length in mask `", raw, "`"));
            },
        };
        let max_prefix: u8 = match network {
            IpAddress::V4(_) => 32,
            IpAddress::V6(_) => 128,
        };
        if prefix_len > max_prefix {
            let digits = string_of(&write_decimal(prefix_len as u64));
            let mut message = String::new();
            message.append("prefix length ");
            message.append(&digits);
            message.append(" out of range for `");
            message.append(raw);
            message.append("`");
            assert(message@ =~= "prefix length "@ + decimal_text(prefix_len as int)
                + " out of range for `"@ + raw@ + "`"@);
            return Err(Failure { message });
        }
        Ok(Cidr { network, prefix_len })
    }

    /// Whether the range holds `ip`.
    pub fn contains(self, ip: IpAddress) -> (res: bool)
        requires
            self.wf(),
        ensures
            res == self.has(ip),
    {
        match (self.network, ip) {
            (IpAddress::V4(network), IpAddress::V4(ip)) => {
                let k: u32 = 32 - self.prefix_len as u32;
                let mask: u32 = if self.prefix_len == 0 {
                    0
                } else {
                    0xffff_ffffu32 << k
                };
                proof {
                    if self.prefix_len == 0 {
                        assert(network >> 32u32 == ip >> 32u32) by (bit_vector);
                        assert(network & 0u32 == ip & 0u32) by (bit_vector);
                    } else {
                        assert((network & (0xffff_ffffu32 << k)) == (ip & (0xffff_ffffu32 << k))
                            <==> network >> k == ip >> k) by (bit_vector)
                            requires
                                k < 32,
                        ;
                    }
                }
                (network & mask) == (ip & mask)
            },
            (IpAddress::V6(network), IpAddress::V6(ip)) => {
                let k: u128 = 128 - self.prefix_len as u128;
                let mask: u128 = if self.prefix_len == 0 {
                    0
                } else {
                    0xffff_ffff_ffff_ffff_ffff_ffff_ffff_ffffu128 << k
                };
                proof {
                    if self.prefix_len == 0 {
                        assert(network >> 128u128 == ip >> 128u128) by (bit_vector);
                        assert(network & 0u128 == ip & 0u128) by (bit_vector);
                    } else {
                        lemma_mask_keeps_leading_bits(network, k);
                        lemma_mask_keeps_leading_bits(ip, k);
                    }
                }
                (network & mask) == (ip & mask)
            },
            _ => false,
        }
    }
}

proof fn lemma_mask_keeps_leading_bits(x: u128, k: u128)
    requires
        k < 128,
    ensures
        x & (0xffff_ffff_ffff_ffff_ffff_ffff_ffff_ffffu128 << k) == (x >> k) << k,
        ((x >> k) << k) >> k == x >> k,
{
    assert(x & (0xffff_ffff_ffff_ffff_ffff_ffff_ffff_ffffu128 << k) == (x >> k) << k)
        by (bit_vector)
        requires
            k < 128,
    ;
    assert(((x >> k) << k) >> k == x >> k) by (bit_vector)
        requires
            k < 128,
    ;
}

proof fn lemma_shift_in_two_steps(x: u128, k: u128, n: u128)
    requires
        k + n <= 128,
    ensures
        x >> ((k + n) as u128) == (x >> k) >> n,
    decreases n,
{
    if n == 0 {
        assert((x >> k) >> 0u128 == x >> k) by (bit_vector);
    } else {
        let i = (n - 1) as u128;
        lemma_shift_in_two_steps(x, k, i);
        lemma_shift_one_more(x, (k + i) as u128);
        lemma_shift_one_more(x >> k, i);
    }
}

proof fn lemma_shift_one_more(x: u128, k: u128)
    requires
        k < 128,
    ensures
        x >> ((k + 1) as u128) == (x >> k) >> 1u128,
{
    let m = (k + 1) as u128;
    assert(x >> m == (x >> k) >> 1u128) by (bit_vector)
        requires
            k < 128,
            m == k + 1,
    ;
}

/// A range holds its own network address.
pub proof fn law_range_holds_its_network(c: Cidr)
    ensures
        c.has(c.network),
{
}

/// A prefix of length zero holds every address of its version, and none of the other.
pub proof fn law_empty_prefix_holds_the_version(c: Cidr, ip: IpAddress)
    requires
        c.prefix_len == 0,
    ensures
        c.has(ip) <==> address_bits(ip) == address_bits(c.network),
{
    match (c.network, ip) {
        (IpAddress::V4(a), IpAddress::V4(b)) => {
            assert(a >> 32u32 == b >> 32u32) by (bit_vector);
        },
        (IpAddress::V6(a), IpAddress::V6(b)) => {
            assert(a >> 128u128 == b >> 128u128) by (bit_vector);
        },
        _ => {},
    }
}

/// A prefix as long as the address holds that address alone.
pub proof fn law_full_prefix_holds_one_address(c: Cidr, ip: IpAddress)
    requires
        c.prefix_len == address_bits(c.network),
    ensures
        c.has(ip) <==> ip == c.network,
{
    match (c.network, ip) {
        (IpAddress::V4(a), IpAddress::V4(b)) => {
            assert(a >> 0u32 == b >> 0u32 <==> a == b) by (bit_vector);
        },
        (IpAddress::V6(a), IpAddress::V6(b)) => {
            assert(a >> 0u128 == b >> 0u128 <==> a == b) by (bit_vector);
        },
        _ => {},
    }
}

/// Shortening the prefix loses no address.
pub proof fn law_shorter_prefix_holds_more(wide: Cidr, narrow: Cidr, ip: IpAddress)
    requires
        narrow.wf(),
        wide.network == narrow.network,
        wide.prefix_len <= narrow.prefix_len,
        narrow.has(ip),
    ensures
        wide.has(ip),
{
    match (wide.network, ip) {
        (IpAddress::V4(a), IpAddress::V4(b)) => {
            let k = (32 - narrow.prefix_len) as u32;
            let m = (32 - wide.prefix_len) as u32;
            assert(a >> m == b >> m) by (bit_vector)
                requires
                    k <= m <= 32,
                    a >> k == b >> k,
            ;
        },
        (IpAddress::V6(a), IpAddress::V6(b)) => {
            let k = (128 - narrow.prefix_len) as u128;
            let m = (128 - wide.prefix_len) as u128;
            lemma_shift_in_two_steps(a, k, (m - k) as u128);
            lemma_shift_in_two_steps(b, k, (m - k) as u128);
        },
        _ => {},
    }
}

} // verus!
