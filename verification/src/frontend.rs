//! The records that the rule editor works with: a rule as a form of plain
//! fields, the traffic counters of a program, and the numbers under which
//! targets and rules are shown.

use vstd::prelude::*;
use crate::policy::{Device, IpAddress, Proto, Rule, RuleTarget};

verus! {

/// A rule as the editor holds it: every filter is a plain field, and a
/// zero or empty field stands for "any".
#[derive(Clone, Debug, PartialEq, Eq)]
pub struct QRule {
    /// 0 any, 1 inbound, 2 outbound.
    pub device: usize,
    /// 0 any, 1 tcp, 2 udp, 3 udp-lite.
    pub proto: usize,
    /// Empty for any executable.
    pub exe: String,
    pub port_begin: u16,
    pub port_end: u16,
    /// `None` for any address.
    pub addr: Option<IpAddress>,
    pub mask: u8,
    /// 0 accept, 1 drop, `n + 2` rate limit by bucket `n`.
    pub target: usize,
}

/// Why a form is no rule.
#[derive(Clone, Copy, Debug, PartialEq, Eq, Structural)]
pub enum InvalidQRule {
    /// The port range starts after it ends.
    PortRange { begin: u16, end: u16 },
    /// The device field holds no known code.
    Device { code: usize },
    /// The protocol field holds no known code.
    Proto { code: usize },
}

/// The number under which a target is shown.
pub open spec fn target_code(t: RuleTarget) -> int {
    match t {
        RuleTarget::Accept => 0,
        RuleTarget::Drop => 1,
        RuleTarget::RateLimit(n) => n + 2,
    }
}

/// The target that a number stands for.
pub open spec fn target_of(code: usize) -> RuleTarget {
    if code == 0 {
        RuleTarget::Accept
    } else if code == 1 {
        RuleTarget::Drop
    } else {
        RuleTarget::RateLimit((code - 2) as usize)
    }
}

/// The number under which a device filter is shown.
pub open spec fn device_code(d: Option<Device>) -> usize {
    match d {
        None => 0,
        Some(Device::Input) => 1,
        Some(Device::Output) => 2,
    }
}

/// The number under which a protocol filter is shown.
pub open spec fn proto_code(p: Option<Proto>) -> usize {
    match p {
        None => 0,
        Some(Proto::Tcp) => 1,
        Some(Proto::Udp) => 2,
        Some(Proto::UdpLite) => 3,
    }
}

/// The port filter that two form fields stand for: both zero is any port,
/// a zero end is the single port `begin`.
pub open spec fn port_filter(begin: u16, end: u16) -> Option<(u16, u16)> {
    if begin == 0 && end == 0 {
        None
    } else if end == 0 {
        Some((begin, begin))
    } else {
        Some((begin, end))
    }
}

/// Encodes a target as the number shown for it.
pub fn encode_target(t: RuleTarget) -> (code: usize)
    requires
        target_code(t) <= usize::MAX,
    ensures
        code == target_code(t),
        target_of(code) == t,
{
    match t {
        RuleTarget::Accept => 0,
        RuleTarget::Drop => 1,
        RuleTarget::RateLimit(n) => n + 2,
    }
}

/// Decodes the number shown for a target.
pub fn decode_target(code: usize) -> (t: RuleTarget)
    ensures
        t == target_of(code),
        target_code(t) == code,
{
    if code == 0 {
        RuleTarget::Accept
    } else if code == 1 {
        RuleTarget::Drop
    } else {
        RuleTarget::RateLimit(code - 2)
    }
}

/// The number shown for a matched rule: its position plus one, and zero
/// where no rule matched and the default applied.
pub fn display_rule_number(matched: Option<usize>) -> (n: usize)
    requires
        matched is Some ==> matched->0 < usize::MAX,
    ensures
        n == (match matched {
            Some(i) => i + 1,
            None => 0,
        }),
{
    match matched {
        Some(i) => i + 1,
        None => 0,
    }
}

impl QRule {
    /// Whether the form shows `rule`: every field holds the rule's filter,
    /// and zero or the empty text where the rule has none.
    pub open spec fn shows(self, rule: Rule) -> bool {
        &&& self.device == device_code(rule.device)
        &&& self.proto == proto_code(rule.proto)
        &&& self.exe@ == (match rule.exe {
            Some(e) => e@,
            None => Seq::empty(),
        })
        &&& (self.port_begin, self.port_end) == (match rule.port {
            Some(range) => range,
            None => (0u16, 0u16),
        })
        &&& self.addr == (match rule.subnet {
            Some((a, _)) => Some(a),
            None => None,
        })
        &&& self.mask == (match rule.subnet {
            Some((_, m)) => m,
            None => 0u8,
        })
        &&& self.target == target_code(rule.target)
    }

    /// The form that shows `rule`.
    pub fn from_rule(rule: &Rule) -> (q: QRule)
        requires
            target_code(rule.target) <= usize::MAX,
        ensures
            q.shows(*rule),
    {
        let device: usize = match rule.device {
            None => 0,
            Some(Device::Input) => 1,
            Some(Device::Output) => 2,
        };
        let proto: usize = match rule.proto {
            None => 0,
            Some(Proto::Tcp) => 1,
            Some(Proto::Udp) => 2,
            Some(Proto::UdpLite) => 3,
        };
        let exe = match &rule.exe {
            Some(e) => e.clone(),
            None => String::new(),
        };
        let (port_begin, port_end) = match rule.port {
            Some(range) => range,
            None => (0, 0),
        };
        let (addr, mask) = match rule.subnet {
            Some((a, m)) => (Some(a), m),
            None => (None, 0),
        };
        QRule { device, proto, exe, port_begin, port_end, addr, mask, target: encode_target(rule.target) }
    }

    /// The first fault of the form, if it has one: an unknown device code,
    /// then an unknown protocol code, then an inverted port range.
    pub open spec fn fault(self) -> Option<InvalidQRule> {
        if self.device > 2 {
            Some(InvalidQRule::Device { code: self.device })
        } else if self.proto > 3 {
            Some(InvalidQRule::Proto { code: self.proto })
        } else if self.port_end != 0 && self.port_begin > self.port_end {
            Some(InvalidQRule::PortRange { begin: self.port_begin, end: self.port_end })
        } else {
            None
        }
    }

    /// Whether `rule` is the rule that the form stands for.
    pub open spec fn stands_for(self, rule: Rule) -> bool {
        &&& device_code(rule.device) == self.device
        &&& proto_code(rule.proto) == self.proto
        &&& match rule.exe {
            Some(e) => e@ == self.exe@ && self.exe@.len() > 0,
            None => self.exe@.len() == 0,
        }
        &&& rule.port == port_filter(self.port_begin, self.port_end)
        &&& rule.subnet == (match self.addr {
            Some(a) => Some((a, self.mask)),
            None => None,
        })
        &&& rule.target == target_of(self.target)
    }

    /// The rule that the form stands for, or the form's first fault.
    pub fn to_rule(&self) -> (r: Result<Rule, InvalidQRule>)
        ensures
            match r {
                Ok(rule) => self.fault() is None && self.stands_for(rule),
                Err(e) => self.fault() == Some(e),
            },
    {
        let device = if self.device == 0 {
            None
        } else if self.device == 1 {
            Some(Device::Input)
        } else if self.device == 2 {
            Some(Device::Output)
        } else {
            return Err(InvalidQRule::Device { code: self.device });
        };
        let proto = if self.proto == 0 {
            None
        } else if self.proto == 1 {
            Some(Proto::Tcp)
        } else if self.proto == 2 {
            Some(Proto::Udp)
        } else if self.proto == 3 {
            Some(Proto::UdpLite)
        } else {
            return Err(InvalidQRule::Proto { code: self.proto });
        };
        let port = if self.port_begin == 0 && self.port_end == 0 {
            None
        } else if self.port_end == 0 {
            Some((self.port_begin, self.port_begin))
        } else if self.port_begin > self.port_end {
            return Err(InvalidQRule::PortRange { begin: self.port_begin, end: self.port_end });
        } else {
            Some((self.port_begin, self.port_end))
        };
        let exe = if self.exe.as_str().is_empty() {
            None
        } else {
            Some(self.exe.clone())
        };
        let subnet = match self.addr {
            Some(a) => Some((a, self.mask)),
            None => None,
        };
        Ok(Rule { device, proto, exe, port, subnet, target: decode_target(self.target) })
    }
}

/// The traffic of one program since the last refresh.
#[derive(Clone, Debug, PartialEq, Eq)]
pub struct ProgramStatus {
    pub exe: String,
    pub sending: usize,
    pub receiving: usize,
}

impl ProgramStatus {
    /// The counters of `program`, at zero.
    pub fn new(program: &str) -> (s: ProgramStatus)
        ensures
            s.exe@ == program@,
            s.sending == 0,
            s.receiving == 0,
    {
        ProgramStatus { exe: program.to_owned(), sending: 0, receiving: 0 }
    }

    /// The counters of the same program, at zero.
    pub fn clone_new(&self) -> (s: ProgramStatus)
        ensures
            s.exe@ == self.exe@,
            s.sending == 0,
            s.receiving == 0,
    {
        ProgramStatus { exe: self.exe.clone(), sending: 0, receiving: 0 }
    }

    /// Both directions together.
    pub open spec fn total(self) -> int {
        self.sending + self.receiving
    }

    /// Counts one reported packet: a dropped packet counts nothing, an
    /// inbound one counts as received, an outbound one as sent.
    pub fn record(&mut self, dropped: bool, device: Device, len: usize)
        requires
            !dropped && device == Device::Input ==> old(self).receiving + len <= usize::MAX,
            !dropped && device == Device::Output ==> old(self).sending + len <= usize::MAX,
        ensures
            final(self).exe == old(self).exe,
            final(self).receiving == (if !dropped && device == Device::Input {
                old(self).receiving + len
            } else {
                old(self).receiving as int
            }),
            final(self).sending == (if !dropped && device == Device::Output {
                old(self).sending + len
            } else {
                old(self).sending as int
            }),
    {
        if dropped {
            return;
        }
        if device.is_input() {
            self.receiving = self.receiving + len;
        } else {
            self.sending = self.sending + len;
        }
    }

    /// Counts one reported packet if the counter has room for it; says so
    /// in its result, and leaves the counters alone if it has not.
    pub fn try_record(&mut self, dropped: bool, device: Device, len: usize) -> (counted: bool)
        ensures
            final(self).exe == old(self).exe,
            counted == (dropped || (if device == Device::Input {
                old(self).receiving + len <= usize::MAX
            } else {
                old(self).sending + len <= usize::MAX
            })),
            counted && !dropped && device == Device::Input ==> final(self).receiving == old(self).receiving + len
                && final(self).sending == old(self).sending,
            counted && !dropped && device == Device::Output ==> final(self).sending == old(self).sending + len
                && final(self).receiving == old(self).receiving,
            !counted || dropped ==> final(self).sending == old(self).sending && final(self).receiving == old(self).receiving,
    {
        if dropped {
            return true;
        }
        let room = if device.is_input() {
            len <= usize::MAX - self.receiving
        } else {
            len <= usize::MAX - self.sending
        };
        if room {
            self.record(dropped, device, len);
        }
        room
    }
}

/// The sum of the last `window` entries of a traffic history.
pub open spec fn recent_sum(history: Seq<u32>, window: nat) -> nat
    decreases window,
{
    if window == 0 || history.len() == 0 {
        0
    } else {
        history.last() as nat + recent_sum(history.drop_last(), (window - 1) as nat)
    }
}

/// Sums the last `window` entries of a traffic history, as far as the sum
/// fits; `None` where it does not.
pub fn sum_recent(history: &Vec<u32>, window: usize) -> (sum: Option<u32>)
    ensures
        match sum {
            Some(s) => s == recent_sum(history@, window as nat),
            None => recent_sum(history@, window as nat) > u32::MAX,
        },
{
    let mut total: u32 = 0;
    let mut taken: usize = 0;
    let mut at: usize = history.len();
    assert(history@.take(at as int) =~= history@);
    while at > 0 && taken < window
        invariant
            at <= history@.len(),
            taken <= window,
            at + taken == history@.len(),
            total + recent_sum(history@.take(at as int), (window - taken) as nat) == recent_sum(history@, window as nat),
        decreases at,
    {
        let ghost rest = history@.take(at as int);
        assert(rest.last() == history@[at - 1]);
        assert(rest.drop_last() =~= history@.take(at - 1));
        match total.checked_add(history[at - 1]) {
            Some(t) => {
                total = t;
            },
            None => {
                proof {
                    lemma_recent_sum_nonnegative(history@.take(at - 1), (window - taken - 1) as nat);
                }
                return None;
            },
        }
        at -= 1;
        taken += 1;
    }
    Some(total)
}

proof fn lemma_recent_sum_nonnegative(history: Seq<u32>, window: nat)
    ensures
        recent_sum(history, window) >= 0,
{
}

} // verus!
