//! What the rule table computes, stated over the plain rule sequence: the
//! inverted lists, the candidate pool that a lookup scans, and the decision.

use vstd::prelude::*;
use crate::policy::{policy_valid, Device, IpAddress, Packet, Proto, Rule, RuleTarget};
use crate::port_tree::covers;
use crate::positions::{least, lemma_least, lemma_least_is, lemma_positions_ascending, lemma_positions_bounded, lemma_positions_contains, lemma_step,
    positions, strictly_ascending,
};

verus! {

/// The executable path that a rule names, as characters.
pub open spec fn exe_key(r: Rule) -> Option<Seq<char>> {
    match r.exe {
        Some(e) => Some(e@),
        None => None,
    }
}

/// The key under which a rule's subnet is indexed: the prefix with its host
/// bits cleared, and the mask length.
pub open spec fn subnet_key(r: Rule) -> Option<(IpAddress, u8)> {
    match r.subnet {
        Some((prefix, len)) => Some((prefix.masked(len as nat), len)),
        None => None,
    }
}

/// The rule names a port range and the range holds `port`.
pub open spec fn port_covers(r: Rule, port: u16) -> bool {
    match r.port {
        Some((lo, hi)) => lo <= port <= hi,
        None => false,
    }
}

/// The rule names a subnet and the subnet holds `ip`.
pub open spec fn subnet_covers(r: Rule, ip: IpAddress) -> bool {
    match r.subnet {
        Some((prefix, len)) => ip.masked(len as nat) == prefix.masked(len as nat),
        None => false,
    }
}

/// The mask length of a rule's subnet; zero for a rule without one.
pub open spec fn mask_len(r: Rule) -> u8 {
    match r.subnet {
        Some((_, len)) => len,
        None => 0,
    }
}

/// Positions of the first `n` rules whose device filter is `d`.
pub open spec fn device_list(rules: Seq<Rule>, n: nat, d: Option<Device>) -> Seq<usize> {
    positions(n, |i: int| rules[i].device == d)
}

/// Positions of the first `n` rules whose protocol filter is `p`.
pub open spec fn proto_list(rules: Seq<Rule>, n: nat, p: Option<Proto>) -> Seq<usize> {
    positions(n, |i: int| rules[i].proto == p)
}

/// Positions of the first `n` rules whose executable filter is `e`.
pub open spec fn exe_list(rules: Seq<Rule>, n: nat, e: Option<Seq<char>>) -> Seq<usize> {
    positions(n, |i: int| exe_key(rules[i]) == e)
}

/// Positions of the first `n` rules whose port range holds `port`.
pub open spec fn port_list(rules: Seq<Rule>, n: nat, port: u16) -> Seq<usize> {
    positions(n, |i: int| port_covers(rules[i], port))
}

/// Positions of the first `n` rules without a port filter.
pub open spec fn any_port_list(rules: Seq<Rule>, n: nat) -> Seq<usize> {
    positions(n, |i: int| rules[i].port is None)
}

/// Positions of the first `n` rules whose subnet is indexed under `k`.
pub open spec fn subnet_list(rules: Seq<Rule>, n: nat, k: Option<(IpAddress, u8)>) -> Seq<usize> {
    positions(n, |i: int| subnet_key(rules[i]) == k)
}

/// How each list grows when one more rule is indexed: the rule's position
/// goes to the end of the list it belongs to, and the others stay.
pub proof fn lemma_lists_step(rules: Seq<Rule>, k: nat)
    requires
        k < rules.len(),
    ensures
        forall|d: Option<Device>| #[trigger] device_list(rules, k + 1, d) == (if rules[k as int].device == d {
            device_list(rules, k, d).push(k as usize)
        } else {
            device_list(rules, k, d)
        }),
        forall|p: Option<Proto>| #[trigger] proto_list(rules, k + 1, p) == (if rules[k as int].proto == p {
            proto_list(rules, k, p).push(k as usize)
        } else {
            proto_list(rules, k, p)
        }),
        forall|e: Option<Seq<char>>| #[trigger] exe_list(rules, k + 1, e) == (if exe_key(rules[k as int]) == e {
            exe_list(rules, k, e).push(k as usize)
        } else {
            exe_list(rules, k, e)
        }),
        forall|s: Option<(IpAddress, u8)>| #[trigger] subnet_list(rules, k + 1, s) == (if subnet_key(rules[k as int]) == s {
            subnet_list(rules, k, s).push(k as usize)
        } else {
            subnet_list(rules, k, s)
        }),
        any_port_list(rules, k + 1) == (if rules[k as int].port is None {
            any_port_list(rules, k).push(k as usize)
        } else {
            any_port_list(rules, k)
        }),
        port_entries(rules, k + 1) == (if rules[k as int].port is Some {
            port_entries(rules, k).push(port_entry(rules[k as int], k as int))
        } else {
            port_entries(rules, k)
        }),
{
    assert forall|d: Option<Device>| #[trigger] device_list(rules, k + 1, d) == (if rules[k as int].device == d {
        device_list(rules, k, d).push(k as usize)
    } else {
        device_list(rules, k, d)
    }) by {
        lemma_step(k, |i: int| rules[i].device == d);
    }
    assert forall|p: Option<Proto>| #[trigger] proto_list(rules, k + 1, p) == (if rules[k as int].proto == p {
        proto_list(rules, k, p).push(k as usize)
    } else {
        proto_list(rules, k, p)
    }) by {
        lemma_step(k, |i: int| rules[i].proto == p);
    }
    assert forall|e: Option<Seq<char>>| #[trigger] exe_list(rules, k + 1, e) == (if exe_key(rules[k as int]) == e {
        exe_list(rules, k, e).push(k as usize)
    } else {
        exe_list(rules, k, e)
    }) by {
        lemma_step(k, |i: int| exe_key(rules[i]) == e);
    }
    assert forall|s: Option<(IpAddress, u8)>| #[trigger] subnet_list(rules, k + 1, s) == (if subnet_key(rules[k as int]) == s {
        subnet_list(rules, k, s).push(k as usize)
    } else {
        subnet_list(rules, k, s)
    }) by {
        lemma_step(k, |i: int| subnet_key(rules[i]) == s);
    }
    lemma_step(k, |i: int| rules[i].port is None);
    assert(port_entries(rules, ((k + 1) - 1) as nat) == port_entries(rules, k));
}

/// One list per field: the rule at position `i` is in the list of its own
/// device filter and in no other device list, and so for protocol,
/// executable and subnet; it is in the list of rules without a port filter
/// exactly if it has none.
pub proof fn lemma_one_list_per_field(rules: Seq<Rule>, i: usize)
    requires
        i < rules.len() <= usize::MAX,
    ensures
        forall|d: Option<Device>| #[trigger] device_list(rules, rules.len(), d).contains(i) <==> d == rules[i as int].device,
        forall|p: Option<Proto>| #[trigger] proto_list(rules, rules.len(), p).contains(i) <==> p == rules[i as int].proto,
        forall|e: Option<Seq<char>>| #[trigger] exe_list(rules, rules.len(), e).contains(i) <==> e == exe_key(rules[i as int]),
        forall|s: Option<(IpAddress, u8)>| #[trigger] subnet_list(rules, rules.len(), s).contains(i) <==> s == subnet_key(rules[i as int]),
        any_port_list(rules, rules.len()).contains(i) <==> rules[i as int].port is None,
        forall|port: u16| #[trigger] port_list(rules, rules.len(), port).contains(i) ==> rules[i as int].port is Some,
{
    let n = rules.len();
    assert forall|d: Option<Device>| #[trigger] device_list(rules, n, d).contains(i) <==> d == rules[i as int].device by {
        lemma_positions_contains(n, |j: int| rules[j].device == d, i);
    }
    assert forall|p: Option<Proto>| #[trigger] proto_list(rules, n, p).contains(i) <==> p == rules[i as int].proto by {
        lemma_positions_contains(n, |j: int| rules[j].proto == p, i);
    }
    assert forall|e: Option<Seq<char>>| #[trigger] exe_list(rules, n, e).contains(i) <==> e == exe_key(rules[i as int]) by {
        lemma_positions_contains(n, |j: int| exe_key(rules[j]) == e, i);
    }
    assert forall|s: Option<(IpAddress, u8)>| #[trigger] subnet_list(rules, n, s).contains(i) <==> s == subnet_key(rules[i as int]) by {
        lemma_positions_contains(n, |j: int| subnet_key(rules[j]) == s, i);
    }
    lemma_positions_contains(n, |j: int| rules[j].port is None, i);
    assert forall|port: u16| #[trigger] port_list(rules, n, port).contains(i) implies rules[i as int].port is Some by {
        lemma_positions_contains(n, |j: int| port_covers(rules[j], port), i);
    }
}

/// A rule with a port range is found under every port of the range, and
/// under no port outside it.
pub proof fn lemma_port_range_indexed(rules: Seq<Rule>, i: usize, port: u16)
    requires
        i < rules.len() <= usize::MAX,
    ensures
        port_list(rules, rules.len(), port).contains(i) <==> port_covers(rules[i as int], port),
{
    lemma_positions_contains(rules.len(), |j: int| port_covers(rules[j], port), i);
}

/// Every list of the index is strictly ascending.
pub proof fn lemma_lists_ascending(rules: Seq<Rule>)
    requires
        rules.len() <= usize::MAX,
    ensures
        forall|d: Option<Device>| strictly_ascending(#[trigger] device_list(rules, rules.len(), d)),
        forall|p: Option<Proto>| strictly_ascending(#[trigger] proto_list(rules, rules.len(), p)),
        forall|e: Option<Seq<char>>| strictly_ascending(#[trigger] exe_list(rules, rules.len(), e)),
        forall|s: Option<(IpAddress, u8)>| strictly_ascending(#[trigger] subnet_list(rules, rules.len(), s)),
        forall|port: u16| strictly_ascending(#[trigger] port_list(rules, rules.len(), port)),
        strictly_ascending(any_port_list(rules, rules.len())),
{
    let n = rules.len();
    assert forall|d: Option<Device>| strictly_ascending(#[trigger] device_list(rules, n, d)) by {
        lemma_positions_ascending(n, |j: int| rules[j].device == d);
    }
    assert forall|p: Option<Proto>| strictly_ascending(#[trigger] proto_list(rules, n, p)) by {
        lemma_positions_ascending(n, |j: int| rules[j].proto == p);
    }
    assert forall|e: Option<Seq<char>>| strictly_ascending(#[trigger] exe_list(rules, n, e)) by {
        lemma_positions_ascending(n, |j: int| exe_key(rules[j]) == e);
    }
    assert forall|s: Option<(IpAddress, u8)>| strictly_ascending(#[trigger] subnet_list(rules, n, s)) by {
        lemma_positions_ascending(n, |j: int| subnet_key(rules[j]) == s);
    }
    assert forall|port: u16| strictly_ascending(#[trigger] port_list(rules, n, port)) by {
        lemma_positions_ascending(n, |j: int| port_covers(rules[j], port));
    }
    lemma_positions_ascending(n, |j: int| rules[j].port is None);
}

/// The longest mask among the subnets of the first `n` rules that hold `ip`.
pub open spec fn longest_prefix(rules: Seq<Rule>, n: nat, ip: IpAddress) -> Option<u8>
    decreases n,
{
    if n == 0 {
        None
    } else {
        let rest = longest_prefix(rules, (n - 1) as nat, ip);
        if subnet_covers(rules[n - 1], ip) {
            let len = mask_len(rules[n - 1]);
            match rest {
                Some(m) => if m >= len {
                    Some(m)
                } else {
                    Some(len)
                },
                None => Some(len),
            }
        } else {
            rest
        }
    }
}

/// `longest_prefix` is the mask of a subnet that holds `ip`, no subnet that
/// holds `ip` has a longer one, and it is `None` only if no subnet holds `ip`.
pub proof fn lemma_longest_prefix(rules: Seq<Rule>, n: nat, ip: IpAddress)
    requires
        n <= rules.len(),
    ensures
        match longest_prefix(rules, n, ip) {
            Some(m) => {
                &&& exists|i: int| 0 <= i < n && #[trigger] subnet_covers(rules[i], ip) && mask_len(rules[i]) == m
                &&& forall|i: int| 0 <= i < n && #[trigger] subnet_covers(rules[i], ip) ==> mask_len(rules[i]) <= m
            },
            None => forall|i: int| 0 <= i < n ==> !#[trigger] subnet_covers(rules[i], ip),
        },
    decreases n,
{
    if n > 0 {
        lemma_longest_prefix(rules, (n - 1) as nat, ip);
        let rest = longest_prefix(rules, (n - 1) as nat, ip);
        if subnet_covers(rules[n - 1], ip) {
            let len = mask_len(rules[n - 1]);
            if rest is Some && rest->0 >= len {
                let i = choose|i: int| 0 <= i < n - 1 && #[trigger] subnet_covers(rules[i], ip) && mask_len(rules[i]) == rest->0;
                assert(subnet_covers(rules[i], ip) && mask_len(rules[i]) == rest->0);
            } else {
                assert(subnet_covers(rules[n - 1], ip) && mask_len(rules[n - 1]) == len);
            }
        } else if rest is Some {
            let i = choose|i: int| 0 <= i < n - 1 && #[trigger] subnet_covers(rules[i], ip) && mask_len(rules[i]) == rest->0;
            assert(subnet_covers(rules[i], ip) && mask_len(rules[i]) == rest->0);
        }
    }
}

/// The key of the longest subnet that holds `ip`, as the table stores it.
pub open spec fn longest_key(rules: Seq<Rule>, ip: IpAddress) -> Option<(IpAddress, u8)> {
    match longest_prefix(rules, rules.len(), ip) {
        Some(len) => Some((ip.masked(len as nat), len)),
        None => None,
    }
}

/// The five fields a lookup can go by, in the order in which ties resolve.
#[derive(Clone, Copy, Debug, PartialEq, Eq, Structural)]
pub enum Field {
    Device,
    Proto,
    Exe,
    Port,
    Subnet,
}

/// The rules indexed under the packet's own value of field `f`, ascending.
/// For the subnet field these are the rules of the longest subnet that holds
/// the address, and of no shorter one.
pub open spec fn exact_list(rules: Seq<Rule>, p: Packet, f: Field) -> Seq<usize> {
    match f {
        Field::Device => device_list(rules, rules.len(), Some(p.device)),
        Field::Proto => proto_list(rules, rules.len(), Some(p.proto)),
        Field::Exe => exe_list(rules, rules.len(), Some(p.exe)),
        Field::Port => port_list(rules, rules.len(), p.addr.port),
        Field::Subnet => match longest_key(rules, p.addr.ip) {
            Some(k) => subnet_list(rules, rules.len(), Some(k)),
            None => Seq::empty(),
        },
    }
}

/// The rules that leave field `f` open, ascending.
pub open spec fn any_list(rules: Seq<Rule>, f: Field) -> Seq<usize> {
    match f {
        Field::Device => device_list(rules, rules.len(), None),
        Field::Proto => proto_list(rules, rules.len(), None),
        Field::Exe => exe_list(rules, rules.len(), None),
        Field::Port => any_port_list(rules, rules.len()),
        Field::Subnet => subnet_list(rules, rules.len(), None),
    }
}

/// How many candidates field `f` offers for the packet.
pub open spec fn pool_size(rules: Seq<Rule>, p: Packet, f: Field) -> nat {
    exact_list(rules, p, f).len() + any_list(rules, f).len()
}

/// The field whose pool is smallest; among equals the earlier field.
pub open spec fn selected_field(rules: Seq<Rule>, p: Packet) -> Field {
    let d = pool_size(rules, p, Field::Device);
    let t = pool_size(rules, p, Field::Proto);
    let e = pool_size(rules, p, Field::Exe);
    let o = pool_size(rules, p, Field::Port);
    let s = pool_size(rules, p, Field::Subnet);
    if d <= t && d <= e && d <= o && d <= s {
        Field::Device
    } else if t <= e && t <= o && t <= s {
        Field::Proto
    } else if e <= o && e <= s {
        Field::Exe
    } else if o <= s {
        Field::Port
    } else {
        Field::Subnet
    }
}

/// Whether rule `i` is in the pool of field `f` for the packet.
pub open spec fn in_pool(rules: Seq<Rule>, p: Packet, f: Field, i: int) -> bool {
    match f {
        Field::Device => rules[i].device_ok(p.device),
        Field::Proto => rules[i].proto_ok(p.proto),
        Field::Exe => rules[i].exe_ok(p.exe),
        Field::Port => rules[i].port_ok(p.addr.port),
        Field::Subnet => rules[i].subnet is None || (longest_key(rules, p.addr.ip) is Some
            && subnet_key(rules[i]) == longest_key(rules, p.addr.ip)),
    }
}

/// Whether rule `i` is scanned for the packet and applies to it.
pub open spec fn decisive(rules: Seq<Rule>, p: Packet, i: int) -> bool {
    in_pool(rules, p, selected_field(rules, p), i) && rules[i].matches(p)
}

/// The rule that decides the packet: the lowest decisive position.
pub open spec fn deciding_rule(rules: Seq<Rule>, p: Packet) -> Option<usize> {
    least(rules.len(), |i: int| decisive(rules, p, i))
}

/// The lowest position of a rule that applies to the packet.
pub open spec fn first_match(rules: Seq<Rule>, p: Packet) -> Option<usize> {
    least(rules.len(), |i: int| rules[i].matches(p))
}

/// The classification of a packet: the deciding rule with its target, or
/// no rule and the default target.
pub open spec fn classify(rules: Seq<Rule>, default_target: RuleTarget, p: Packet) -> (Option<usize>, RuleTarget) {
    match deciding_rule(rules, p) {
        Some(i) => (Some(i), rules[i as int].target),
        None => (None, default_target),
    }
}

/// Whether the two lists together are the pool of field `f` for the packet:
/// they hold rule positions, exactly those of the pool, as many as the
/// pool's size says.
pub open spec fn is_pool(rules: Seq<Rule>, p: Packet, f: Field, exact: Seq<usize>, any: Seq<usize>) -> bool {
    &&& forall|j: int| 0 <= j < exact.len() ==> #[trigger] exact[j] < rules.len()
    &&& forall|j: int| 0 <= j < any.len() ==> #[trigger] any[j] < rules.len()
    &&& forall|i: int| 0 <= i < rules.len() ==> (#[trigger] in_pool(rules, p, f, i) <==> exact.contains(i as usize) || any.contains(i as usize))
    &&& exact.len() + any.len() == pool_size(rules, p, f)
}

/// The ascending lists of a field are its pool.
pub proof fn lemma_lists_are_pool(rules: Seq<Rule>, p: Packet, f: Field)
    requires
        rules.len() <= usize::MAX,
    ensures
        is_pool(rules, p, f, exact_list(rules, p, f), any_list(rules, f)),
{
    let n = rules.len();
    let exact = exact_list(rules, p, f);
    let any = any_list(rules, f);
    let exact_keep: spec_fn(int) -> bool = match f {
        Field::Device => |i: int| rules[i].device == Some(p.device),
        Field::Proto => |i: int| rules[i].proto == Some(p.proto),
        Field::Exe => |i: int| exe_key(rules[i]) == Some(p.exe),
        Field::Port => |i: int| port_covers(rules[i], p.addr.port),
        Field::Subnet => |i: int| subnet_key(rules[i]) == longest_key(rules, p.addr.ip),
    };
    let any_keep: spec_fn(int) -> bool = match f {
        Field::Device => |i: int| rules[i].device == None::<Device>,
        Field::Proto => |i: int| rules[i].proto == None::<Proto>,
        Field::Exe => |i: int| exe_key(rules[i]) == None::<Seq<char>>,
        Field::Port => |i: int| rules[i].port is None,
        Field::Subnet => |i: int| subnet_key(rules[i]) == None::<(IpAddress, u8)>,
    };
    assert(any == positions(n, any_keep));
    lemma_positions_bounded(n, any_keep);
    if f == Field::Subnet && longest_key(rules, p.addr.ip) is None {
        assert(exact == Seq::<usize>::empty());
    } else {
        assert(exact == positions(n, exact_keep));
        lemma_positions_bounded(n, exact_keep);
    }
    assert forall|i: int| 0 <= i < rules.len() implies (#[trigger] in_pool(rules, p, f, i) <==> exact.contains(i as usize) || any.contains(i as usize)) by {
        lemma_positions_contains(n, any_keep, i as usize);
        if !(f == Field::Subnet && longest_key(rules, p.addr.ip) is None) {
            lemma_positions_contains(n, exact_keep, i as usize);
        }
    }
}

/// A rule that applies to a packet is in the pool of every field but the
/// subnet field.
pub proof fn lemma_match_in_pool(rules: Seq<Rule>, p: Packet, f: Field, i: int)
    requires
        rules[i].matches(p),
        f != Field::Subnet,
    ensures
        in_pool(rules, p, f, i),
{
}

/// A rule in the subnet pool has a subnet filter that admits the address.
pub proof fn lemma_subnet_pool_admits(rules: Seq<Rule>, p: Packet, i: int)
    requires
        in_pool(rules, p, Field::Subnet, i),
    ensures
        rules[i].subnet_ok(p.addr.ip),
{
}

/// The deciding rule applies to the packet, and no rule before it is both
/// scanned and applicable.
pub proof fn lemma_deciding_rule(rules: Seq<Rule>, p: Packet)
    requires
        rules.len() <= usize::MAX,
    ensures
        match deciding_rule(rules, p) {
            Some(i) => i < rules.len() && rules[i as int].matches(p) && forall|j: int| 0 <= j < i ==> !#[trigger] decisive(rules, p, j),
            None => forall|j: int| 0 <= j < rules.len() ==> !#[trigger] decisive(rules, p, j),
        },
{
    let dec = |i: int| decisive(rules, p, i);
    lemma_least(rules.len(), dec);
    match least(rules.len(), dec) {
        Some(i) => {
            assert(dec(i as int));
            assert forall|j: int| 0 <= j < i implies !#[trigger] decisive(rules, p, j) by {
                assert(!dec(j));
            }
        },
        None => {
            assert forall|j: int| 0 <= j < rules.len() implies !#[trigger] decisive(rules, p, j) by {
                assert(!dec(j));
            }
        },
    }
}

/// The target of a classification under a valid policy has its bucket.
pub proof fn lemma_classify_in_range(rules: Seq<Rule>, default_target: RuleTarget, p: Packet, buckets: nat)
    requires
        rules.len() <= usize::MAX,
        policy_valid(rules, default_target, buckets),
    ensures
        classify(rules, default_target, p).1.in_range(buckets),
        match classify(rules, default_target, p).0 {
            Some(i) => i < rules.len(),
            None => true,
        },
{
    lemma_deciding_rule(rules, p);
}

/// First rule wins: the deciding rule is the lowest rule that applies to the
/// packet, whenever the lookup goes by a field other than the subnet, or
/// that lowest rule is in the subnet pool.
pub proof fn lemma_first_match_decides(rules: Seq<Rule>, p: Packet)
    requires
        rules.len() <= usize::MAX,
        selected_field(rules, p) != Field::Subnet || match first_match(rules, p) {
            Some(i) => in_pool(rules, p, Field::Subnet, i as int),
            None => true,
        },
    ensures
        deciding_rule(rules, p) == first_match(rules, p),
{
    let n = rules.len();
    let dec = |i: int| decisive(rules, p, i);
    let mat = |i: int| rules[i].matches(p);
    lemma_least(n, dec);
    lemma_least(n, mat);
    match first_match(rules, p) {
        Some(i) => {
            assert(mat(i as int));
            assert(dec(i as int));
            assert forall|j: int| 0 <= j < i implies !#[trigger] dec(j) by {
                assert(!mat(j));
            }
            lemma_least_is(n, dec, i);
        },
        None => {
            if least(n, dec) is Some {
                let i = least(n, dec)->0;
                assert(dec(i as int));
                assert(!mat(i as int));
            }
        },
    }
}

/// The deciding rule is never lower than the lowest rule that applies.
pub proof fn lemma_decision_not_before_first_match(rules: Seq<Rule>, p: Packet)
    requires
        rules.len() <= usize::MAX,
    ensures
        match deciding_rule(rules, p) {
            Some(i) => first_match(rules, p) is Some && first_match(rules, p)->0 <= i,
            None => true,
        },
{
    let n = rules.len();
    let dec = |i: int| decisive(rules, p, i);
    let mat = |i: int| rules[i].matches(p);
    lemma_least(n, dec);
    lemma_least(n, mat);
    if least(n, dec) is Some {
        let i = least(n, dec)->0;
        assert(dec(i as int));
        assert(mat(i as int));
    }
}

/// The interval that stands for the port range of the rule at position `i`:
/// the range made half-open, and the position.
pub open spec fn port_entry(r: Rule, i: int) -> (u32, u32, usize) {
    match r.port {
        Some((lo, hi)) => (lo as u32, (hi + 1) as u32, i as usize),
        None => (0u32, 0u32, i as usize),
    }
}

/// The intervals of the first `n` rules, in rule order.
pub open spec fn port_entries(rules: Seq<Rule>, n: nat) -> Seq<(u32, u32, usize)>
    decreases n,
{
    if n == 0 {
        Seq::empty()
    } else {
        let rest = port_entries(rules, (n - 1) as nat);
        if rules[n - 1].port is Some {
            rest.push(port_entry(rules[n - 1], n - 1))
        } else {
            rest
        }
    }
}

/// The intervals of the first `n` rules that hold `port`, in rule order.
pub open spec fn port_hits(rules: Seq<Rule>, n: nat, port: u16) -> Seq<(u32, u32, usize)>
    decreases n,
{
    if n == 0 {
        Seq::empty()
    } else {
        let rest = port_hits(rules, (n - 1) as nat, port);
        if port_covers(rules[n - 1], port) {
            rest.push(port_entry(rules[n - 1], n - 1))
        } else {
            rest
        }
    }
}

/// Among the intervals of the rules, those that hold `port` occur as often
/// as in `port_hits`, and no other occurs there.
pub proof fn lemma_port_hits_count(rules: Seq<Rule>, n: nat, port: u16, v: (u32, u32, usize))
    requires
        n <= rules.len(),
    ensures
        port_hits(rules, n, port).to_multiset().count(v) == (if covers(v, port as u32) {
            port_entries(rules, n).to_multiset().count(v)
        } else {
            0
        }),
    decreases n,
{
    broadcast use vstd::seq_lib::group_to_multiset_ensures;
    if n == 0 {
        assert(port_hits(rules, n, port).to_multiset().count(v) == 0);
        assert(port_entries(rules, n).to_multiset().count(v) == 0);
    } else {
        lemma_port_hits_count(rules, (n - 1) as nat, port, v);
        let e = port_entry(rules[n - 1], n - 1);
        let rest_e = port_entries(rules, (n - 1) as nat);
        let rest_h = port_hits(rules, (n - 1) as nat, port);
        if rules[n - 1].port is Some {
            assert(covers(e, port as u32) <==> port_covers(rules[n - 1], port));
            assert(rest_e.push(e).to_multiset() =~= rest_e.to_multiset().insert(e));
            if port_covers(rules[n - 1], port) {
                assert(rest_h.push(e).to_multiset() =~= rest_h.to_multiset().insert(e));
            }
        }
    }
}

/// `port_hits` runs parallel to the list of rules whose range holds `port`.
pub proof fn lemma_port_hits_list(rules: Seq<Rule>, n: nat, port: u16)
    requires
        n <= rules.len(),
        n <= usize::MAX,
    ensures
        port_hits(rules, n, port).len() == port_list(rules, n, port).len(),
        forall|j: int| 0 <= j < port_hits(rules, n, port).len() ==>
            #[trigger] port_hits(rules, n, port)[j] == port_entry(
                rules[port_list(rules, n, port)[j] as int],
                port_list(rules, n, port)[j] as int,
            ),
    decreases n,
{
    if n > 0 {
        lemma_port_hits_list(rules, (n - 1) as nat, port);
        lemma_positions_bounded(n, |i: int| port_covers(rules[i], port));
    }
}

/// What a point query on the port tree yields, given in any order: as many
/// intervals as rules hold `port`, each of such a rule, and one for each.
pub proof fn lemma_port_query(rules: Seq<Rule>, port: u16, hits: Seq<(u32, u32, usize)>)
    requires
        rules.len() <= usize::MAX,
        forall|v: (u32, u32, usize)| #[trigger] hits.to_multiset().count(v) == (if covers(v, port as u32) {
            port_entries(rules, rules.len()).to_multiset().count(v)
        } else {
            0
        }),
    ensures
        hits.len() == port_list(rules, rules.len(), port).len(),
        forall|j: int| 0 <= j < hits.len() ==> (#[trigger] hits[j]).2 < rules.len() && port_covers(rules[hits[j].2 as int], port),
        forall|i: int| 0 <= i < rules.len() && port_covers(#[trigger] rules[i], port) ==> exists|j: int| 0 <= j < hits.len() && hits[j].2 == i,
{
    broadcast use vstd::seq_lib::group_to_multiset_ensures;
    let n = rules.len();
    let canon = port_hits(rules, n, port);
    let list = port_list(rules, n, port);
    let keep = |i: int| port_covers(rules[i], port);
    assert forall|v: (u32, u32, usize)| hits.to_multiset().count(v) == canon.to_multiset().count(v) by {
        lemma_port_hits_count(rules, n, port, v);
    }
    assert(hits.to_multiset() =~= canon.to_multiset());
    lemma_port_hits_list(rules, n, port);
    assert(hits.len() == hits.to_multiset().len());
    assert(canon.len() == canon.to_multiset().len());
    assert forall|j: int| 0 <= j < hits.len() implies (#[trigger] hits[j]).2 < rules.len() && port_covers(rules[hits[j].2 as int], port) by {
        assert(hits.contains(hits[j]));
        assert(canon.to_multiset().count(hits[j]) > 0);
        assert(canon.contains(hits[j]));
        let k = choose|k: int| 0 <= k < canon.len() && canon[k] == hits[j];
        assert(canon[k] == port_entry(rules[list[k] as int], list[k] as int));
        assert(list.contains(list[k]));
        lemma_positions_contains(n, keep, list[k]);
    }
    assert forall|i: int| 0 <= i < rules.len() && port_covers(#[trigger] rules[i], port) implies exists|j: int| 0 <= j < hits.len() && hits[j].2 == i by {
        lemma_positions_contains(n, keep, i as usize);
        assert(keep(i));
        assert(list.contains(i as usize));
        let k = choose|k: int| 0 <= k < list.len() && list[k] == i as usize;
        assert(canon[k] == port_entry(rules[i], i));
        assert(canon.contains(canon[k]));
        assert(hits.to_multiset().count(canon[k]) > 0);
        assert(hits.contains(canon[k]));
        let j = choose|j: int| 0 <= j < hits.len() && hits[j] == canon[k];
        assert(hits[j].2 == i);
    }
}

} // verus!
