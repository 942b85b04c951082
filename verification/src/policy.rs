//! The user-authored policy: rules, rate-limit entries and the predicates
//! that say when a rule applies to a packet.

use vstd::prelude::*;
use crate::positions::{least, lemma_least, lemma_least_is};

verus! {

/// Direction of a packet relative to the host.
#[derive(Clone, Copy, Debug, PartialEq, Eq, Hash, Structural)]
pub enum Device {
    Input,
    Output,
}

/// Transport protocol of a packet.
#[derive(Clone, Copy, Debug, PartialEq, Eq, Hash, Structural)]
pub enum Proto {
    Tcp,
    Udp,
    UdpLite,
}

/// What happens to a packet that a rule selects.
#[derive(Clone, Copy, Debug, PartialEq, Eq, Hash, Structural)]
pub enum RuleTarget {
    Accept,
    Drop,
    RateLimit(usize),
}

/// An IP address of either family, as its big-endian integer value.
#[derive(Clone, Copy, Debug, PartialEq, Eq, Hash, Structural)]
pub enum IpAddress {
    V4(u32),
    V6(u128),
}

/// The remote endpoint of a packet.
#[derive(Clone, Copy, Debug, PartialEq, Eq, Hash, Structural)]
pub struct SocketAddress {
    pub ip: IpAddress,
    pub port: u16,
}

/// One ordered entry of the policy. A `None` filter is a wildcard.
#[derive(Clone, Debug, PartialEq, Eq)]
pub struct Rule {
    pub device: Option<Device>,
    pub proto: Option<Proto>,
    pub exe: Option<String>,
    /// Inclusive port range `(lo, hi)`.
    pub port: Option<(u16, u16)>,
    /// Prefix and mask length.
    pub subnet: Option<(IpAddress, u8)>,
    pub target: RuleTarget,
}

/// A named byte budget that rate-limit targets refer to by position.
#[derive(Clone, Debug, PartialEq, Eq)]
pub struct RateLimitRule {
    pub name: String,
    pub limit: usize,
}

/// The whole policy as the front-end delivers it.
#[derive(Clone, Debug, PartialEq, Eq)]
pub struct Rules {
    pub rules: Vec<Rule>,
    pub rate_rules: Vec<RateLimitRule>,
    pub default_target: RuleTarget,
}

/// The first `len` bits of `ip`, the rest cleared. Lengths over 32 keep all bits.
pub open spec fn mask_v4(ip: u32, len: nat) -> u32 {
    if len == 0 {
        0u32
    } else if len >= 32 {
        ip
    } else {
        ip & (0xffff_ffffu32 << ((32 - len) as u32))
    }
}

/// The first `len` bits of `ip`, the rest cleared. Lengths over 128 keep all bits.
pub open spec fn mask_v6(ip: u128, len: nat) -> u128 {
    if len == 0 {
        0u128
    } else if len >= 128 {
        ip
    } else {
        ip & (0xffff_ffff_ffff_ffff_ffff_ffff_ffff_ffffu128 << ((128 - len) as u128))
    }
}

/// Clears the host bits of an IPv4 address.
pub fn apply_mask_v4(ip: u32, len: u8) -> (r: u32)
    ensures
        r == mask_v4(ip, len as nat),
{
    if len == 0 {
        0
    } else if len >= 32 {
        ip
    } else {
        let shift: u32 = 32 - (len as u32);
        ip & (0xffff_ffffu32 << shift)
    }
}

/// Clears the host bits of an IPv6 address.
pub fn apply_mask_v6(ip: u128, len: u8) -> (r: u128)
    ensures
        r == mask_v6(ip, len as nat),
{
    if len == 0 {
        0
    } else if len >= 128 {
        ip
    } else {
        let shift: u128 = 128 - (len as u128);
        ip & (0xffff_ffff_ffff_ffff_ffff_ffff_ffff_ffffu128 << shift)
    }
}

impl IpAddress {
    /// The address with all but its first `len` bits cleared.
    pub open spec fn masked(self, len: nat) -> IpAddress {
        match self {
            IpAddress::V4(ip) => IpAddress::V4(mask_v4(ip, len)),
            IpAddress::V6(ip) => IpAddress::V6(mask_v6(ip, len)),
        }
    }

    /// The number of bits of an address of this family.
    pub open spec fn width(self) -> nat {
        match self {
            IpAddress::V4(_) => 32,
            IpAddress::V6(_) => 128,
        }
    }

    /// Whether both addresses belong to one family.
    pub open spec fn same_family(self, other: IpAddress) -> bool {
        self.width() == other.width()
    }

    /// The IPv4 address with the four octets given, first octet first.
    pub open spec fn of_octets(a: u8, b: u8, c: u8, d: u8) -> IpAddress {
        IpAddress::V4(((a as u32) << 24u32) | ((b as u32) << 16u32) | ((c as u32) << 8u32) | (d as u32))
    }

    /// The IPv4 address `a.b.c.d`.
    pub fn v4(a: u8, b: u8, c: u8, d: u8) -> (ip: IpAddress)
        ensures
            ip == IpAddress::of_octets(a, b, c, d),
    {
        IpAddress::V4(((a as u32) << 24u32) | ((b as u32) << 16u32) | ((c as u32) << 8u32) | (d as u32))
    }

    /// The IPv6 address with the eight segments given, first segment first.
    pub open spec fn of_segments(s: Seq<u16>) -> IpAddress {
        IpAddress::V6(
            ((s[0] as u128) << 112u128) | ((s[1] as u128) << 96u128) | ((s[2] as u128) << 80u128) | ((s[3] as u128) << 64u128)
                | ((s[4] as u128) << 48u128) | ((s[5] as u128) << 32u128) | ((s[6] as u128) << 16u128) | (s[7] as u128),
        )
    }

    /// The IPv6 address with the eight segments given, first segment first.
    pub fn v6(s: [u16; 8]) -> (ip: IpAddress)
        ensures
            ip == IpAddress::of_segments(s@),
    {
        IpAddress::V6(
            ((s[0] as u128) << 112u128) | ((s[1] as u128) << 96u128) | ((s[2] as u128) << 80u128) | ((s[3] as u128) << 64u128)
                | ((s[4] as u128) << 48u128) | ((s[5] as u128) << 32u128) | ((s[6] as u128) << 16u128) | (s[7] as u128),
        )
    }

    /// Clears the host bits of the address.
    pub fn mask(self, len: u8) -> (r: IpAddress)
        ensures
            r == self.masked(len as nat),
    {
        match self {
            IpAddress::V4(ip) => IpAddress::V4(apply_mask_v4(ip, len)),
            IpAddress::V6(ip) => IpAddress::V6(apply_mask_v6(ip, len)),
        }
    }

    /// The bit width of the address family: 32 or 128.
    pub fn bits(self) -> (w: u8)
        ensures
            w == self.width(),
    {
        match self {
            IpAddress::V4(_) => 32,
            IpAddress::V6(_) => 128,
        }
    }

    /// Whether the address is an IPv4 address.
    pub fn is_ipv4(self) -> (r: bool)
        ensures
            r == (self is V4),
    {
        match self {
            IpAddress::V4(_) => true,
            IpAddress::V6(_) => false,
        }
    }
}

impl Proto {
    /// The protocol number carried in IP headers.
    pub open spec fn spec_number(self) -> u8 {
        match self {
            Proto::Tcp => 6,
            Proto::Udp => 17,
            Proto::UdpLite => 136,
        }
    }

    /// The protocol number carried in IP headers: 6, 17 or 136.
    pub fn number(self) -> (n: u8)
        ensures
            n == self.spec_number(),
    {
        match self {
            Proto::Tcp => 6,
            Proto::Udp => 17,
            Proto::UdpLite => 136,
        }
    }
}

impl Device {
    /// Whether the packet enters the host.
    pub fn is_input(self) -> (r: bool)
        ensures
            r == (self == Device::Input),
    {
        match self {
            Device::Input => true,
            Device::Output => false,
        }
    }
}

/// What a packet is classified by.
pub struct Packet {
    pub device: Device,
    pub proto: Proto,
    pub addr: SocketAddress,
    pub exe: Seq<char>,
}

impl Rule {
    /// The device filter is a wildcard or names the packet's direction.
    pub open spec fn device_ok(self, device: Device) -> bool {
        self.device is None || self.device == Some(device)
    }

    /// The protocol filter is a wildcard or names the packet's protocol.
    pub open spec fn proto_ok(self, proto: Proto) -> bool {
        self.proto is None || self.proto == Some(proto)
    }

    /// The executable filter is a wildcard or equals the packet's path.
    pub open spec fn exe_ok(self, exe: Seq<char>) -> bool {
        match self.exe {
            None => true,
            Some(e) => e@ == exe,
        }
    }

    /// The port filter is a wildcard or its inclusive range holds the port.
    pub open spec fn port_ok(self, port: u16) -> bool {
        match self.port {
            None => true,
            Some((lo, hi)) => lo <= port <= hi,
        }
    }

    /// The subnet filter is a wildcard or its prefix covers the address:
    /// both are of one family and agree on the first `len` bits.
    pub open spec fn subnet_ok(self, ip: IpAddress) -> bool {
        match self.subnet {
            None => true,
            Some((prefix, len)) => ip.masked(len as nat) == prefix.masked(len as nat),
        }
    }

    /// The rule applies to the packet: all five filters admit it.
    pub open spec fn matches(self, p: Packet) -> bool {
        &&& self.device_ok(p.device)
        &&& self.proto_ok(p.proto)
        &&& self.exe_ok(p.exe)
        &&& self.port_ok(p.addr.port)
        &&& self.subnet_ok(p.addr.ip)
    }

    /// The rule's target if the rule applies to the packet described.
    pub fn match_target(&self, device: Device, protocol: Proto, addr: SocketAddress, exe: &str) -> (t: Option<RuleTarget>)
        ensures
            t == (if self.matches(Packet { device, proto: protocol, addr, exe: exe@ }) {
                Some(self.target)
            } else {
                None
            }),
    {
        let device_ok = match self.device {
            None => true,
            Some(d) => d == device,
        };
        let proto_ok = match self.proto {
            None => true,
            Some(p) => p == protocol,
        };
        let exe_ok = match &self.exe {
            None => true,
            Some(e) => same_text(e.as_str(), exe),
        };
        let port_ok = match self.port {
            None => true,
            Some((lo, hi)) => lo <= addr.port && addr.port <= hi,
        };
        let subnet_ok = match self.subnet {
            None => true,
            Some((prefix, len)) => addr.ip.mask(len) == prefix.mask(len),
        };
        if device_ok && proto_ok && exe_ok && port_ok && subnet_ok {
            Some(self.target)
        } else {
            None
        }
    }
}

/// `str::eq`: whether two string slices hold the same characters.
#[verifier::external_body]
pub(crate) fn same_text(a: &str, b: &str) -> (r: bool)
    ensures
        r == (a@ == b@),
{
    a == b
}

/// Why a policy is refused.
#[derive(Clone, Copy, Debug, PartialEq, Eq, Structural)]
pub enum PolicyError {
    /// The rule at `index` has a port range whose start lies after its end.
    PortRange { index: usize, begin: u16, end: u16 },
    /// The rule at `index` has a mask longer than its address family allows.
    MaskLength { index: usize, len: u8 },
    /// The rule at `index` has a rate-limit target without a bucket.
    RateBucket { index: usize, bucket: usize },
    /// The default target is a rate limit without a bucket.
    DefaultRateBucket { bucket: usize },
}

impl RuleTarget {
    /// A rate-limit target names one of the `buckets` buckets.
    pub open spec fn in_range(self, buckets: nat) -> bool {
        match self {
            RuleTarget::RateLimit(b) => b < buckets,
            _ => true,
        }
    }
}

impl Rule {
    /// The first fault of the rule at position `index`, if it has one: an
    /// inverted port range, then a mask out of range, then a missing bucket.
    pub open spec fn fault(self, index: usize, buckets: nat) -> Option<PolicyError> {
        if self.port is Some && self.port.unwrap().0 > self.port.unwrap().1 {
            Some(PolicyError::PortRange { index, begin: self.port.unwrap().0, end: self.port.unwrap().1 })
        } else if self.subnet is Some && self.subnet.unwrap().1 > self.subnet.unwrap().0.width() {
            Some(PolicyError::MaskLength { index, len: self.subnet.unwrap().1 })
        } else if !self.target.in_range(buckets) {
            Some(PolicyError::RateBucket { index, bucket: self.target->RateLimit_0 })
        } else {
            None
        }
    }

    /// The rule keeps the invariants of a rule: its port range is ordered,
    /// its mask fits the address family, its bucket exists.
    pub open spec fn valid(self, buckets: nat) -> bool {
        &&& self.port is Some ==> self.port.unwrap().0 <= self.port.unwrap().1
        &&& self.subnet is Some ==> self.subnet.unwrap().1 <= self.subnet.unwrap().0.width()
        &&& self.target.in_range(buckets)
    }

    /// Looks for the first fault of the rule at position `index`.
    pub fn check(&self, index: usize, buckets: usize) -> (r: Result<(), PolicyError>)
        ensures
            r is Ok <==> self.valid(buckets as nat),
            r is Err ==> Some(r->Err_0) == self.fault(index, buckets as nat),
    {
        if let Some((lo, hi)) = self.port {
            if lo > hi {
                return Err(PolicyError::PortRange { index, begin: lo, end: hi });
            }
        }
        if let Some((prefix, len)) = self.subnet {
            if len > prefix.bits() {
                return Err(PolicyError::MaskLength { index, len });
            }
        }
        if let RuleTarget::RateLimit(b) = self.target {
            if b >= buckets {
                return Err(PolicyError::RateBucket { index, bucket: b });
            }
        }
        Ok(())
    }
}

/// Every rule is valid and the default target has its bucket.
pub open spec fn policy_valid(rules: Seq<Rule>, default_target: RuleTarget, buckets: nat) -> bool {
    &&& forall|i: int| 0 <= i < rules.len() ==> (#[trigger] rules[i]).valid(buckets)
    &&& default_target.in_range(buckets)
}

/// The fault that refuses a policy: that of its first faulty rule, else
/// that of its default target.
pub open spec fn policy_fault(rules: Seq<Rule>, default_target: RuleTarget, buckets: nat) -> Option<PolicyError> {
    match least(rules.len(), |i: int| !rules[i].valid(buckets)) {
        Some(i) => rules[i as int].fault(i, buckets),
        None => if default_target.in_range(buckets) {
            None
        } else {
            Some(PolicyError::DefaultRateBucket { bucket: default_target->RateLimit_0 })
        },
    }
}

impl Rules {
    /// Checks the policy at ingress. It passes exactly if it is valid;
    /// otherwise the error names the first fault.
    pub fn validate(&self) -> (r: Result<(), PolicyError>)
        ensures
            r is Ok <==> policy_valid(self.rules@, self.default_target, self.rate_rules@.len()),
            r is Err ==> Some(r->Err_0) == policy_fault(self.rules@, self.default_target, self.rate_rules@.len()),
            r is Ok ==> policy_fault(self.rules@, self.default_target, self.rate_rules@.len()) is None,
    {
        let buckets = self.rate_rules.len();
        let ghost bad = |i: int| !self.rules@[i].valid(buckets as nat);
        let mut i: usize = 0;
        while i < self.rules.len()
            invariant
                i <= self.rules@.len(),
                buckets == self.rate_rules@.len(),
                bad == |i: int| !self.rules@[i].valid(buckets as nat),
                forall|j: int| 0 <= j < i ==> !#[trigger] bad(j),
            decreases self.rules@.len() - i,
        {
            match self.rules[i].check(i, buckets) {
                Ok(_) => {},
                Err(e) => {
                    proof {
                        assert(bad(i as int));
                        lemma_least_is(self.rules@.len(), bad, i);
                    }
                    return Err(e);
                },
            }
            i += 1;
        }
        proof {
            lemma_least(self.rules@.len(), bad);
            if least(self.rules@.len(), bad) is Some {
                let k = least(self.rules@.len(), bad)->0;
                assert(bad(k as int));
            }
            assert forall|j: int| 0 <= j < self.rules@.len() implies (#[trigger] self.rules@[j]).valid(buckets as nat) by {
                assert(!bad(j));
            }
        }
        match self.default_target {
            RuleTarget::RateLimit(b) => {
                if b >= buckets {
                    return Err(PolicyError::DefaultRateBucket { bucket: b });
                }
            },
            _ => {},
        }
        Ok(())
    }
}

} // verus!
