//! CIDR validation and expansion into the usable host addresses.

use vstd::prelude::*;
use vstd::arithmetic::power2::pow2;
use vstd::arithmetic::div_mod::lemma_fundamental_div_mod;
use vstd::bits::{lemma_u32_shr_is_div, lemma_u32_shl_is_mul, lemma_u32_pow2_no_overflow};
use vstd::string::StringExecFns;
use crate::num::{dec_str, dec_val, is_digits, u64_to_dec, parse_u32};
use crate::ip::{spec_parse_ipv4, ipv4_str, ipv4_to_u32, u32_to_ipv4};
use crate::text::{split_on, split_char, str_views};

verus! {

/// Why a CIDR argument was rejected.
#[derive(Clone, Copy, Debug, PartialEq, Eq, Structural)]
pub enum CidrError {
    /// Not of the form `base/prefix`.
    InvalidCidr,
    /// The base is not a dotted-quad IPv4 address.
    InvalidAddress,
    /// The prefix length is not a number.
    InvalidPrefix,
    /// The prefix length is outside `8..=30`.
    PrefixOutOfRange { prefix: u32 },
    /// The range would cover more than 4096 usable hosts.
    RangeTooLarge { count: u32 },
}

/// Addresses covered by one prefix of length `p`.
pub open spec fn block_size(p: nat) -> nat {
    pow2((32 - p) as nat)
}

/// The network address: the base with its host bits cleared.
pub open spec fn spec_network(base: u32, p: nat) -> nat {
    (base as nat / block_size(p)) * block_size(p)
}

/// Usable hosts in a block: all addresses but network and broadcast.
pub open spec fn spec_host_count(p: nat) -> nat {
    (block_size(p) - 2) as nat
}

/// The usable host addresses, as dotted-quad text, in ascending numeric
/// order.
pub open spec fn spec_hosts(base: u32, p: nat) -> Seq<Seq<char>> {
    Seq::new(spec_host_count(p), |i: int| ipv4_str((spec_network(base, p) + 1 + i) as nat))
}

/// What enumerating a CIDR argument yields: either the host list or the
/// specific rejection, in the order the checks are applied.
pub open spec fn spec_iter_hosts(s: Seq<char>) -> Result<Seq<Seq<char>>, CidrError> {
    let parts = split_on(s, '/');
    if parts.len() != 2 {
        Err(CidrError::InvalidCidr)
    } else if spec_parse_ipv4(parts[0]) is None {
        Err(CidrError::InvalidAddress)
    } else if !(is_digits(parts[1]) && dec_val(parts[1]) <= u32::MAX) {
        Err(CidrError::InvalidPrefix)
    } else {
        let base = spec_parse_ipv4(parts[0])->Some_0;
        let p = dec_val(parts[1]);
        if p < 8 || p > 30 {
            Err(CidrError::PrefixOutOfRange { prefix: p as u32 })
        } else if spec_host_count(p) > 4096 {
            Err(CidrError::RangeTooLarge { count: spec_host_count(p) as u32 })
        } else {
            Ok(spec_hosts(base, p))
        }
    }
}

/// Expand a CIDR string into its usable host addresses.
///
/// Succeeds exactly on arguments of the form `base/prefix` where `base`
/// is a dotted quad, `prefix` is a number in `8..=30`, and the block
/// holds at most 4096 usable hosts; each rejection names its reason.
pub fn iter_hosts(cidr: &str) -> (r: Result<Vec<String>, CidrError>)
    ensures
        match r {
            Ok(v) => spec_iter_hosts(cidr@) == Ok::<Seq<Seq<char>>, CidrError>(str_views(v@)),
            Err(e) => spec_iter_hosts(cidr@) == Err::<Seq<Seq<char>>, CidrError>(e),
        },
{
    let parts = split_char(cidr, '/');
    proof {
        assert(parts@.len() == split_on(cidr@, '/').len()) by {
            assert(str_views(parts@).len() == parts@.len());
        }
    }
    if parts.len() != 2 {
        return Err(CidrError::InvalidCidr);
    }
    proof {
        assert(parts@[0]@ == split_on(cidr@, '/')[0] && parts@[1]@ == split_on(cidr@, '/')[1]) by {
            assert(str_views(parts@)[0] == parts@[0]@ && str_views(parts@)[1] == parts@[1]@);
        }
    }
    let base = match ipv4_to_u32(parts[0].as_str()) {
        Some(b) => b,
        None => { return Err(CidrError::InvalidAddress) },
    };
    let prefix = match parse_u32(parts[1].as_str()) {
        Some(p) => p,
        None => { return Err(CidrError::InvalidPrefix) },
    };
    if prefix < 8 || prefix > 30 {
        return Err(CidrError::PrefixOutOfRange { prefix });
    }
    let sh: u32 = 32 - prefix;
    let mask: u32 = !0u32 << sh;
    let network: u32 = base & mask;
    let nm: u32 = !mask;
    proof {
        let p = prefix as nat;
        assert(2 <= sh <= 24);
        assert(base & (!0u32 << sh) == ((base >> sh) << sh)) by (bit_vector)
            requires 2 <= sh <= 24,
        ;
        assert(!((!0u32) << sh) == (1u32 << sh) - 1) by (bit_vector)
            requires 2 <= sh <= 24,
        ;
        assert(((base >> sh) << sh) <= 0xFFFF_FFFFu32 - !((!0u32) << sh)) by (bit_vector)
            requires 2 <= sh <= 24,
        ;
        assert(((base >> sh) << sh) | !((!0u32) << sh) == ((base >> sh) << sh) + !((!0u32)
            << sh)) by (bit_vector)
            requires 2 <= sh <= 24,
        ;
        assert(1u32 << sh >= 4) by (bit_vector)
            requires 2 <= sh <= 24,
        ;
        lemma_u32_pow2_no_overflow(sh as nat);
        lemma_u32_shl_is_mul(1u32, sh);
        assert((1u32 << sh) == pow2(sh as nat));
        lemma_u32_shr_is_div(base, sh);
        assert((base >> sh) == base as nat / pow2(sh as nat));
        let q = base >> sh;
        lemma_fundamental_div_mod(base as int, pow2(sh as nat) as int);
        assert(q * pow2(sh as nat) <= base as nat);
        lemma_u32_shl_is_mul(q, sh);
        assert((q << sh) == q * pow2(sh as nat));
        assert(block_size(p) == pow2(sh as nat));
        assert(network == spec_network(base, p));
        assert(nm as nat == block_size(p) - 1);
    }
    let bcast: u32 = network | nm;
    let start: u32 = network + 1;
    let end: u32 = bcast - 1;
    let count: u32 = end - start + 1;
    proof {
        assert(count as nat == spec_host_count(prefix as nat));
    }
    if count > 4096 {
        return Err(CidrError::RangeTooLarge { count });
    }
    let mut hosts: Vec<String> = Vec::new();
    let mut u: u32 = start;
    proof {
        assert(str_views(hosts@) =~= spec_hosts(base, prefix as nat).take(0));
    }
    while u <= end
        invariant
            start <= u <= end + 1,
            start == spec_network(base, prefix as nat) + 1,
            end == spec_network(base, prefix as nat) + spec_host_count(prefix as nat),
            end < u32::MAX,
            8 <= prefix <= 30,
            spec_host_count(prefix as nat) == end - start + 1,
            str_views(hosts@) == spec_hosts(base, prefix as nat).take(u - start),
        decreases end + 1 - u,
    {
        let host = u32_to_ipv4(u);
        proof {
            let k = (u - start) as int;
            assert(spec_hosts(base, prefix as nat)[k] == ipv4_str(u as nat));
            assert(str_views(hosts@.push(host)) =~= str_views(hosts@).push(host@));
            assert(spec_hosts(base, prefix as nat).take(k + 1) =~= spec_hosts(
                base,
                prefix as nat,
            ).take(k).push(spec_hosts(base, prefix as nat)[k]));
        }
        hosts.push(host);
        u = u + 1;
    }
    proof {
        assert(spec_hosts(base, prefix as nat).take((end + 1 - start) as int) =~= spec_hosts(
            base,
            prefix as nat,
        ));
    }
    Ok(hosts)
}

/// The user-facing text of each rejection.
pub open spec fn spec_cidr_message(e: CidrError) -> Seq<char> {
    match e {
        CidrError::InvalidCidr => "Invalid CIDR"@,
        CidrError::InvalidAddress => "Invalid IPv4"@,
        CidrError::InvalidPrefix => "Invalid prefix"@,
        CidrError::PrefixOutOfRange { prefix } => "Refusing prefix /"@ + dec_str(prefix as nat)
            + " (use /8..../30)"@,
        CidrError::RangeTooLarge { count } => "Refusing to scan "@ + dec_str(count as nat)
            + " hosts; use smaller subnet"@,
    }
}

impl CidrError {
    /// Render the rejection for error output.
    pub fn message(&self) -> (r: String)
        ensures
            r@ == spec_cidr_message(*self),
    {
        match self {
            CidrError::InvalidCidr => String::from_str("Invalid CIDR"),
            CidrError::InvalidAddress => String::from_str("Invalid IPv4"),
            CidrError::InvalidPrefix => String::from_str("Invalid prefix"),
            CidrError::PrefixOutOfRange { prefix } => {
                let mut r = String::from_str("Refusing prefix /");
                let d = u64_to_dec(*prefix as u64);
                r.append(d.as_str());
                r.append(" (use /8..../30)");
                proof {
                    assert(r@ =~= spec_cidr_message(*self));
                }
                r
            },
            CidrError::RangeTooLarge { count } => {
                let mut r = String::from_str("Refusing to scan ");
                let d = u64_to_dec(*count as u64);
                r.append(d.as_str());
                r.append(" hosts; use smaller subnet");
                proof {
                    assert(r@ =~= spec_cidr_message(*self));
                }
                r
            },
        }
    }
}

} // verus!
