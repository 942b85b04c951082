//! The indexed rule table: inverted indices over a policy, the matcher that
//! classifies a packet, the rate-limit state and the decision cache.

use vstd::prelude::*;
use vstd::hash_map::StringHashMap;
use intervaltree::IntervalTree;
use lru_time_cache::LruCache;
use crate::bucket::{Bucket, BucketState};
use crate::classify::{
    any_port_list, classify, decisive, deciding_rule, device_list, exe_key, exe_list, first_match,
    in_pool, is_pool, lemma_classify_in_range, lemma_first_match_decides, lemma_lists_are_pool,
    lemma_lists_step, lemma_longest_prefix, lemma_port_query, longest_key, longest_prefix, mask_len,
    port_covers, port_entries, port_entry, port_list, proto_list, selected_field, subnet_covers,
    subnet_key, subnet_list, Field,
};
use crate::decision_cache::{
    cache_capacity, cache_expires, cache_get, cache_insert, cache_items, cache_with_capacity,
    distinct_keys, entries_of, inserted, lemma_inserted, lemma_touched, touched,
};
use crate::fingerprint::{fingerprint, fingerprint_of};
use crate::policy::{
    policy_fault, policy_valid, Device, IpAddress, Packet, PolicyError, Proto, Rule, RuleTarget, Rules,
    SocketAddress,
};
use crate::port_tree::{covers, tree_from_intervals, tree_intervals, tree_query_point};
use crate::positions::{lemma_least, lemma_least_is, lemma_positions_contains};
use crate::prefix_table::PrefixTable;

verus! {

/// The number of decisions that the cache holds at most.
pub const CACHE_CAPACITY: usize = 2048;

/// A policy with its read-optimised indices, its rate-limit buckets and its
/// decision cache.
pub struct IndexedRules {
    device_in: Vec<usize>,
    device_out: Vec<usize>,
    any_device: Vec<usize>,
    proto_tcp: Vec<usize>,
    proto_udp: Vec<usize>,
    proto_udplite: Vec<usize>,
    any_proto: Vec<usize>,
    exe_slots: StringHashMap<usize>,
    exe_lists: Vec<Vec<usize>>,
    any_exe: Vec<usize>,
    v4_table: PrefixTable,
    any_v4: Vec<usize>,
    v6_table: PrefixTable,
    any_v6: Vec<usize>,
    port: IntervalTree<u32, usize>,
    any_port: Vec<usize>,
    raw: Vec<Rule>,
    default_target: RuleTarget,
    rate_state: Vec<Bucket>,
    cache: LruCache<u64, (Option<usize>, RuleTarget)>,
}

/// Every cached decision is the classification of some packet with that
/// fingerprint.
pub open spec fn cache_sound(rules: Seq<Rule>, default_target: RuleTarget, cached: Map<u64, (Option<usize>, RuleTarget)>) -> bool {
    forall|k: u64| #[trigger] cached.contains_key(k) ==> exists|q: Packet| fingerprint_of(q) == k && cached[k] == classify(rules, default_target, q)
}

/// Whether a packet of `len` bytes with the given target is accepted at
/// `now`: a rate-limit target asks its bucket.
pub open spec fn verdict(target: RuleTarget, buckets: Seq<BucketState>, now: nat, len: nat) -> bool {
    match target {
        RuleTarget::Accept => true,
        RuleTarget::Drop => false,
        RuleTarget::RateLimit(b) => buckets[b as int].admits(now, len),
    }
}

/// The verdict goes by the target and, for a rate-limit target, by the
/// state of its one bucket, the time and the size: by nothing else.
pub proof fn lemma_verdict_by_bucket(target: RuleTarget, a: Seq<BucketState>, b: Seq<BucketState>, now: nat, len: nat)
    requires
        match target {
            RuleTarget::RateLimit(i) => a[i as int] == b[i as int],
            _ => true,
        },
    ensures
        verdict(target, a, now, len) == verdict(target, b, now, len),
{
}

/// The buckets after the packet: a rate-limit target charges its bucket,
/// any other target leaves all buckets alone.
pub open spec fn charged_buckets(target: RuleTarget, buckets: Seq<BucketState>, now: nat, len: nat) -> Seq<BucketState> {
    match target {
        RuleTarget::RateLimit(b) => buckets.update(b as int, buckets[b as int].charged(now, len)),
        _ => buckets,
    }
}

/// The executable index over the first `k` rules: each path that a rule
/// names has a slot of its own, whose list holds the rules that name it.
spec fn exes_indexed(rules: Seq<Rule>, k: nat, slots: Map<Seq<char>, usize>, lists: Seq<Vec<usize>>) -> bool {
    &&& forall|key: Seq<char>| #[trigger] slots.contains_key(key) ==> slots[key] < lists.len() && lists[slots[key] as int]@ == exe_list(rules, k, Some(key))
    &&& forall|key: Seq<char>| !#[trigger] slots.contains_key(key) ==> exe_list(rules, k, Some(key)) == Seq::<usize>::empty()
    &&& forall|a: Seq<char>, b: Seq<char>| slots.contains_key(a) && slots.contains_key(b) && slots[a] == slots[b] ==> a == b
}

/// The subnet index of one address family over the first `k` rules: the
/// table holds, under each key that a rule of the family has, the rules
/// with that key, and nothing else.
spec fn subnets_indexed(rules: Seq<Rule>, k: nat, table: Map<(IpAddress, u8), Seq<usize>>, v4: bool) -> bool {
    &&& forall|key: (IpAddress, u8)| #[trigger] table.contains_key(key) ==> {
        &&& (key.0 is V4) == v4
        &&& table[key] == subnet_list(rules, k, Some(key))
        &&& table[key].len() > 0
    }
    &&& forall|key: (IpAddress, u8)| (key.0 is V4) == v4 && !#[trigger] table.contains_key(key) ==> subnet_list(rules, k, Some(key)) == Seq::<usize>::empty()
}

/// Enters rule `k` into the executable index.
fn index_exe(
    slots: &mut StringHashMap<usize>,
    lists: &mut Vec<Vec<usize>>,
    any: &mut Vec<usize>,
    rules: &Vec<Rule>,
    k: usize,
)
    requires
        k < rules@.len(),
        exes_indexed(rules@, k as nat, old(slots)@, old(lists)@),
        old(any)@ == exe_list(rules@, k as nat, None),
    ensures
        exes_indexed(rules@, (k + 1) as nat, final(slots)@, final(lists)@),
        final(any)@ == exe_list(rules@, (k + 1) as nat, None),
{
    proof {
        lemma_lists_step(rules@, k as nat);
    }
    let ghost slots0 = slots@;
    let ghost lists0 = lists@;
    match &rules[k].exe {
        Some(e) => {
            let ghost key0 = e@;
            assert(exe_key(rules@[k as int]) == Some(key0));
            let found: Option<usize> = match slots.get(e.as_str()) {
                Some(slot) => Some(*slot),
                None => None,
            };
            match found {
                Some(slot) => {
                    lists[slot].push(k);
                    proof {
                        assert forall|key: Seq<char>| #[trigger] slots@.contains_key(key) implies slots@[key] < lists@.len()
                            && lists@[slots@[key] as int]@ == exe_list(rules@, (k + 1) as nat, Some(key)) by {
                            assert(slots0.contains_key(key));
                            if key != key0 {
                                assert(slots0[key] != slots0[key0]);
                            }
                        }
                    }
                },
                None => {
                    let slot = lists.len();
                    let mut fresh: Vec<usize> = Vec::new();
                    fresh.push(k);
                    slots.insert(e.clone(), slot);
                    lists.push(fresh);
                    proof {
                        assert(exe_list(rules@, k as nat, Some(key0)) == Seq::<usize>::empty());
                        assert(fresh@ == Seq::<usize>::empty().push(k));
                        assert forall|key: Seq<char>| #[trigger] slots@.contains_key(key) implies slots@[key] < lists@.len()
                            && lists@[slots@[key] as int]@ == exe_list(rules@, (k + 1) as nat, Some(key)) by {
                            if key != key0 {
                                assert(slots0.contains_key(key));
                            }
                        }
                        assert forall|key: Seq<char>| !#[trigger] slots@.contains_key(key) implies exe_list(rules@, (k + 1) as nat, Some(key)) == Seq::<usize>::empty() by {
                            assert(!slots0.contains_key(key));
                        }
                        assert forall|a: Seq<char>, b: Seq<char>| slots@.contains_key(a) && slots@.contains_key(b) && slots@[a] == slots@[b] implies a == b by {
                            if a != key0 {
                                assert(slots0.contains_key(a));
                            }
                            if b != key0 {
                                assert(slots0.contains_key(b));
                            }
                        }
                    }
                },
            }
        },
        None => {
            any.push(k);
            proof {
                assert(exe_key(rules@[k as int]) is None);
                assert forall|key: Seq<char>| #[trigger] slots@.contains_key(key) implies slots@[key] < lists@.len()
                    && lists@[slots@[key] as int]@ == exe_list(rules@, (k + 1) as nat, Some(key)) by {}
                assert forall|key: Seq<char>| !#[trigger] slots@.contains_key(key) implies exe_list(rules@, (k + 1) as nat, Some(key)) == Seq::<usize>::empty() by {}
            }
        },
    }
}

/// Enters rule `k` into the subnet index of its address family.
fn index_subnet(
    v4_table: &mut PrefixTable,
    v6_table: &mut PrefixTable,
    any_v4: &mut Vec<usize>,
    any_v6: &mut Vec<usize>,
    rules: &Vec<Rule>,
    k: usize,
)
    requires
        k < rules@.len(),
        old(v4_table).wf(),
        old(v6_table).wf(),
        subnets_indexed(rules@, k as nat, old(v4_table)@, true),
        subnets_indexed(rules@, k as nat, old(v6_table)@, false),
        old(any_v4)@ == subnet_list(rules@, k as nat, None),
        old(any_v6)@ == subnet_list(rules@, k as nat, None),
    ensures
        final(v4_table).wf(),
        final(v6_table).wf(),
        subnets_indexed(rules@, (k + 1) as nat, final(v4_table)@, true),
        subnets_indexed(rules@, (k + 1) as nat, final(v6_table)@, false),
        final(any_v4)@ == subnet_list(rules@, (k + 1) as nat, None),
        final(any_v6)@ == subnet_list(rules@, (k + 1) as nat, None),
{
    proof {
        lemma_lists_step(rules@, k as nat);
    }
    let ghost t4 = v4_table@;
    let ghost t6 = v6_table@;
    match rules[k].subnet {
        Some((prefix, len)) => {
            let key = prefix.mask(len);
            assert(subnet_key(rules@[k as int]) == Some((key, len)));
            if key.is_ipv4() {
                v4_table.add(key, len, k);
                proof {
                    lemma_table_step(rules@, k as nat, (key, len), t4, v4_table@, true);
                    lemma_table_rest(rules@, k as nat, t6, false);
                }
            } else {
                v6_table.add(key, len, k);
                proof {
                    lemma_table_step(rules@, k as nat, (key, len), t6, v6_table@, false);
                    lemma_table_rest(rules@, k as nat, t4, true);
                }
            }
        },
        None => {
            any_v4.push(k);
            any_v6.push(k);
            proof {
                assert(subnet_key(rules@[k as int]) is None);
                lemma_table_rest(rules@, k as nat, t4, true);
                lemma_table_rest(rules@, k as nat, t6, false);
            }
        },
    }
}

/// A table stays the index of its family when the next rule has no subnet
/// of that family.
proof fn lemma_table_rest(rules: Seq<Rule>, k: nat, table: Map<(IpAddress, u8), Seq<usize>>, v4: bool)
    requires
        k < rules.len(),
        subnets_indexed(rules, k, table, v4),
        match subnet_key(rules[k as int]) {
            Some(key) => (key.0 is V4) != v4,
            None => true,
        },
    ensures
        subnets_indexed(rules, k + 1, table, v4),
{
    lemma_lists_step(rules, k);
    assert forall|key: (IpAddress, u8)| #[trigger] table.contains_key(key) implies {
        &&& (key.0 is V4) == v4
        &&& table[key] == subnet_list(rules, k + 1, Some(key))
        &&& table[key].len() > 0
    } by {}
    assert forall|key: (IpAddress, u8)| (key.0 is V4) == v4 && !#[trigger] table.contains_key(key) implies subnet_list(rules, k + 1, Some(key)) == Seq::<usize>::empty() by {}
}

/// A table stays the index of its family when the position of the next
/// rule is appended under that rule's key.
proof fn lemma_table_step(rules: Seq<Rule>, k: nat, key0: (IpAddress, u8), before: Map<(IpAddress, u8), Seq<usize>>, after: Map<(IpAddress, u8), Seq<usize>>, v4: bool)
    requires
        k < rules.len(),
        subnets_indexed(rules, k, before, v4),
        subnet_key(rules[k as int]) == Some(key0),
        (key0.0 is V4) == v4,
        after == before.insert(
            key0,
            (if before.contains_key(key0) {
                before[key0]
            } else {
                Seq::empty()
            }).push(k as usize),
        ),
    ensures
        subnets_indexed(rules, k + 1, after, v4),
{
    lemma_lists_step(rules, k);
    assert forall|key: (IpAddress, u8)| #[trigger] after.contains_key(key) implies {
        &&& (key.0 is V4) == v4
        &&& after[key] == subnet_list(rules, k + 1, Some(key))
        &&& after[key].len() > 0
    } by {
        if key != key0 {
            assert(before.contains_key(key));
        }
    }
    assert forall|key: (IpAddress, u8)| (key.0 is V4) == v4 && !#[trigger] after.contains_key(key) implies subnet_list(rules, k + 1, Some(key)) == Seq::<usize>::empty() by {
        assert(!before.contains_key(key));
    }
}

/// What a longest-prefix lookup in the table of the address's family finds
/// is the key of the longest subnet among the rules that holds the address.
proof fn lemma_table_lookup(rules: Seq<Rule>, table: Map<(IpAddress, u8), Seq<usize>>, v4: bool, ip: IpAddress, hit: Option<(IpAddress, u8)>)
    requires
        rules.len() <= usize::MAX,
        subnets_indexed(rules, rules.len(), table, v4),
        (ip is V4) == v4,
        match hit {
            Some(key) => {
                &&& key.0 == ip.masked(key.1 as nat)
                &&& table.contains_key(key)
                &&& forall|l: u8| table.contains_key((ip.masked(l as nat), l)) ==> l <= key.1
            },
            None => forall|l: u8| !table.contains_key((ip.masked(l as nat), l)),
        },
    ensures
        longest_key(rules, ip) == hit,
{
    let n = rules.len();
    lemma_longest_prefix(rules, n, ip);
    assert forall|i: int| 0 <= i < n && #[trigger] subnet_covers(rules[i], ip) implies table.contains_key((ip.masked(mask_len(rules[i]) as nat), mask_len(rules[i]))) by {
        let key = (ip.masked(mask_len(rules[i]) as nat), mask_len(rules[i]));
        assert(subnet_key(rules[i]) == Some(key));
        lemma_positions_contains(n, |j: int| subnet_key(rules[j]) == Some(key), i as usize);
        assert(subnet_list(rules, n, Some(key)).contains(i as usize));
        assert((key.0 is V4) == v4);
    }
    match hit {
        Some(key) => {
            let list = subnet_list(rules, n, Some(key));
            assert(list.len() > 0);
            assert(list.contains(list[0]));
            lemma_positions_contains(n, |j: int| subnet_key(rules[j]) == Some(key), list[0]);
            let i = list[0] as int;
            assert(subnet_covers(rules[i], ip) && mask_len(rules[i]) == key.1);
            assert(longest_prefix(rules, n, ip) is Some);
            let m = longest_prefix(rules, n, ip)->0;
            let w = choose|w: int| 0 <= w < n && #[trigger] subnet_covers(rules[w], ip) && mask_len(rules[w]) == m;
            assert(table.contains_key((ip.masked(m as nat), m)));
        },
        None => {
            if longest_prefix(rules, n, ip) is Some {
                let m = longest_prefix(rules, n, ip)->0;
                let w = choose|w: int| 0 <= w < n && #[trigger] subnet_covers(rules[w], ip) && mask_len(rules[w]) == m;
                assert(table.contains_key((ip.masked(m as nat), m)));
            }
        },
    }
}

/// The positions that the intervals of a point query carry.
fn hit_positions(hits: &Vec<(u32, u32, usize)>) -> (ids: Vec<usize>)
    ensures
        ids@.len() == hits@.len(),
        forall|j: int| 0 <= j < ids@.len() ==> #[trigger] ids@[j] == hits@[j].2,
{
    let mut ids: Vec<usize> = Vec::new();
    let mut j: usize = 0;
    while j < hits.len()
        invariant
            j <= hits@.len(),
            ids@.len() == j,
            forall|i: int| 0 <= i < j ==> #[trigger] ids@[i] == hits@[i].2,
        decreases hits@.len() - j,
    {
        ids.push(hits[j].2);
        j += 1;
    }
    ids
}

/// The lowest applicable position over the two lists of the selected pool
/// is the deciding rule.
proof fn lemma_scanned(rules: Seq<Rule>, p: Packet, exact: Seq<usize>, any: Seq<usize>, best: Option<usize>)
    requires
        rules.len() <= usize::MAX,
        is_pool(rules, p, selected_field(rules, p), exact, any),
        match best {
            Some(i) => {
                &&& i < rules.len()
                &&& rules[i as int].matches(p)
                &&& exact.contains(i) || any.contains(i)
                &&& forall|j: int| 0 <= j < exact.len() && rules[#[trigger] exact[j] as int].matches(p) ==> i <= exact[j]
                &&& forall|j: int| 0 <= j < any.len() && rules[#[trigger] any[j] as int].matches(p) ==> i <= any[j]
            },
            None => {
                &&& forall|j: int| 0 <= j < exact.len() ==> !rules[#[trigger] exact[j] as int].matches(p)
                &&& forall|j: int| 0 <= j < any.len() ==> !rules[#[trigger] any[j] as int].matches(p)
            },
        },
    ensures
        deciding_rule(rules, p) == best,
{
    let n = rules.len();
    let field = selected_field(rules, p);
    let dec = |i: int| decisive(rules, p, i);
    assert forall|j: int| 0 <= j < n && #[trigger] dec(j) implies (match best {
        Some(i) => i <= j,
        None => false,
    }) by {
        assert(in_pool(rules, p, field, j));
        if exact.contains(j as usize) {
            let a = choose|a: int| 0 <= a < exact.len() && exact[a] == j as usize;
            assert(rules[exact[a] as int].matches(p));
        } else {
            let a = choose|a: int| 0 <= a < any.len() && any[a] == j as usize;
            assert(rules[any[a] as int].matches(p));
        }
    }
    match best {
        Some(i) => {
            assert(in_pool(rules, p, field, i as int));
            assert(dec(i as int));
            lemma_least_is(n, dec, i);
        },
        None => {
            lemma_least(n, dec);
        },
    }
}

impl IndexedRules {
    /// The rules of the policy, in order.
    pub closed spec fn rules(&self) -> Seq<Rule> {
        self.raw@
    }

    /// The target of a packet that no rule decides.
    pub closed spec fn default_target(&self) -> RuleTarget {
        self.default_target
    }

    /// The state of the rate-limit buckets, in order.
    pub closed spec fn buckets(&self) -> Seq<BucketState> {
        Seq::new(self.rate_state@.len(), |i: int| self.rate_state@[i]@)
    }

    /// The entries of the cache, the least recently used first.
    pub closed spec fn cache_order(&self) -> Seq<(u64, (Option<usize>, RuleTarget))> {
        cache_items(self.cache)
    }

    /// The decisions held in the cache, by fingerprint.
    pub open spec fn cached(&self) -> Map<u64, (Option<usize>, RuleTarget)> {
        entries_of(self.cache_order())
    }

    /// The device and protocol lists hold what their names say.
    closed spec fn enums_indexed(&self) -> bool {
        let rules = self.raw@;
        let n = rules.len();
        &&& self.device_in@ == device_list(rules, n, Some(Device::Input))
        &&& self.device_out@ == device_list(rules, n, Some(Device::Output))
        &&& self.any_device@ == device_list(rules, n, None)
        &&& self.proto_tcp@ == proto_list(rules, n, Some(Proto::Tcp))
        &&& self.proto_udp@ == proto_list(rules, n, Some(Proto::Udp))
        &&& self.proto_udplite@ == proto_list(rules, n, Some(Proto::UdpLite))
        &&& self.any_proto@ == proto_list(rules, n, None)
    }

    /// The executable, port and subnet indices hold what their names say.
    closed spec fn keys_indexed(&self) -> bool {
        let rules = self.raw@;
        let n = rules.len();
        &&& exes_indexed(rules, n, self.exe_slots@, self.exe_lists@)
        &&& self.any_exe@ == exe_list(rules, n, None)
        &&& tree_intervals(self.port) == port_entries(rules, n).to_multiset()
        &&& self.any_port@ == any_port_list(rules, n)
        &&& self.v4_table.wf()
        &&& self.v6_table.wf()
        &&& subnets_indexed(rules, n, self.v4_table@, true)
        &&& subnets_indexed(rules, n, self.v6_table@, false)
        &&& self.any_v4@ == subnet_list(rules, n, None)
        &&& self.any_v6@ == subnet_list(rules, n, None)
    }

    /// The table is well formed: the policy is valid, every index agrees
    /// with the rules, and the cache is bounded and does not expire.
    pub closed spec fn wf(&self) -> bool {
        &&& policy_valid(self.raw@, self.default_target, self.rate_state@.len())
        &&& self.enums_indexed()
        &&& self.keys_indexed()
        &&& !cache_expires(self.cache)
        &&& cache_capacity(self.cache) == CACHE_CAPACITY
        &&& distinct_keys(cache_items(self.cache))
        &&& cache_items(self.cache).len() <= CACHE_CAPACITY
        &&& cache_sound(self.raw@, self.default_target, entries_of(cache_items(self.cache)))
    }

    /// The classification that the table hands out for a packet: the cached
    /// one where the cache holds the packet's fingerprint, else a fresh one.
    pub open spec fn decision(&self, p: Packet) -> (Option<usize>, RuleTarget) {
        if self.cached().contains_key(fingerprint_of(p)) {
            self.cached()[fingerprint_of(p)]
        } else {
            classify(self.rules(), self.default_target(), p)
        }
    }

    /// Every cached decision is the classification of some packet with that
    /// fingerprint, so it names a rule of the policy and an existing bucket.
    pub proof fn lemma_cache_sound(&self)
        requires
            self.wf(),
        ensures
            cache_sound(self.rules(), self.default_target(), self.cached()),
            forall|k: u64| #[trigger] self.cached().contains_key(k) ==> self.cached()[k].1.in_range(self.buckets().len()),
            forall|k: u64| #[trigger] self.cached().contains_key(k) ==> match self.cached()[k].0 {
                Some(i) => i < self.rules().len(),
                None => true,
            },
    {
        assert forall|k: u64| #[trigger] self.cached().contains_key(k) implies self.cached()[k].1.in_range(self.buckets().len())
            && match self.cached()[k].0 {
                Some(i) => i < self.rules().len(),
                None => true,
            } by {
            let q = choose|q: Packet| fingerprint_of(q) == k && self.cached()[k] == classify(self.raw@, self.default_target, q);
            assert(self.raw@.len() == self.raw.len());
            lemma_classify_in_range(self.raw@, self.default_target, q, self.rate_state@.len() as nat);
        }
    }

    /// First rule wins, for the table as a whole: the rule handed out for
    /// a packet is the lowest rule that applies to it, where no packet with
    /// the same fingerprint is classified otherwise, and the lookup goes by
    /// a field other than the subnet or that lowest rule is in the subnet
    /// pool.
    pub proof fn lemma_decision_is_first_match(&self, p: Packet)
        requires
            self.wf(),
            forall|q: Packet| fingerprint_of(q) == fingerprint_of(p) ==> #[trigger] classify(self.rules(), self.default_target(), q)
                == classify(self.rules(), self.default_target(), p),
            selected_field(self.rules(), p) != Field::Subnet || match first_match(self.rules(), p) {
                Some(i) => in_pool(self.rules(), p, Field::Subnet, i as int),
                None => true,
            },
        ensures
            self.decision(p).0 == first_match(self.rules(), p),
    {
        assert(self.raw@.len() == self.raw.len());
        lemma_first_match_decides(self.raw@, p);
        if self.cached().contains_key(fingerprint_of(p)) {
            let k = fingerprint_of(p);
            let q = choose|q: Packet| fingerprint_of(q) == k && self.cached()[k] == classify(self.raw@, self.default_target, q);
            assert(classify(self.raw@, self.default_target, q) == classify(self.raw@, self.default_target, p));
        }
    }

    /// Looks the packet up in the cache and classifies it on a miss; the
    /// fresh decision is then cached.
    fn decide(&mut self, device: Device, protocol: Proto, addr: SocketAddress, exe: &str) -> (d: (Option<usize>, RuleTarget))
        requires
            old(self).wf(),
        ensures
            final(self).wf(),
            final(self).rules() == old(self).rules(),
            final(self).default_target() == old(self).default_target(),
            final(self).buckets() == old(self).buckets(),
            final(self).rate_state == old(self).rate_state,
            d == old(self).decision(Packet { device, proto: protocol, addr, exe: exe@ }),
            d.1.in_range(old(self).buckets().len()),
            final(self).cached().contains_key(fingerprint_of(Packet { device, proto: protocol, addr, exe: exe@ })),
            final(self).cached()[fingerprint_of(Packet { device, proto: protocol, addr, exe: exe@ })] == d,
            final(self).cache_order() == (if old(self).cached().contains_key(
                fingerprint_of(Packet { device, proto: protocol, addr, exe: exe@ }),
            ) {
                touched(old(self).cache_order(), fingerprint_of(Packet { device, proto: protocol, addr, exe: exe@ }))
            } else {
                inserted(
                    old(self).cache_order(),
                    CACHE_CAPACITY as nat,
                    fingerprint_of(Packet { device, proto: protocol, addr, exe: exe@ }),
                    old(self).decision(Packet { device, proto: protocol, addr, exe: exe@ }),
                )
            }),
            forall|k: u64| k != fingerprint_of(Packet { device, proto: protocol, addr, exe: exe@ })
                && #[trigger] final(self).cached().contains_key(k) ==> old(self).cached().contains_key(k)
                && final(self).cached()[k] == old(self).cached()[k],
            old(self).cached().contains_key(fingerprint_of(Packet { device, proto: protocol, addr, exe: exe@ }))
                ==> final(self).cached() == old(self).cached(),
            !old(self).cached().contains_key(fingerprint_of(Packet { device, proto: protocol, addr, exe: exe@ }))
                && old(self).cache_order().len() < CACHE_CAPACITY
                ==> final(self).cached() == old(self).cached().insert(
                    fingerprint_of(Packet { device, proto: protocol, addr, exe: exe@ }), d),
    {
        let ghost p = Packet { device, proto: protocol, addr, exe: exe@ };
        let ghost before = *self;
        proof {
            self.lemma_cache_sound();
        }
        let key = fingerprint(device, protocol, addr, exe);
        let hit = cache_get(&mut self.cache, key);
        proof {
            lemma_touched(cache_items(before.cache), key);
        }
        match hit {
            Some(d) => {
                assert(self.buckets() == before.buckets());
                assert(before.cached().contains_key(key));
                d
            },
            None => {
                assert(cache_items(self.cache) == cache_items(before.cache));
                assert(self.wf());
                let d = self.match_target(device, protocol, addr, exe);
                cache_insert(&mut self.cache, key, d);
                proof {
                    lemma_inserted(cache_items(before.cache), CACHE_CAPACITY as nat, key, d);
                    assert(self.buckets() == before.buckets());
                    let now = entries_of(cache_items(self.cache));
                    assert forall|k: u64| #[trigger] now.contains_key(k) implies exists|q: Packet|
                        fingerprint_of(q) == k && now[k] == classify(self.raw@, self.default_target, q) by {
                        if k == key {
                            assert(fingerprint_of(p) == k && now[k] == classify(self.raw@, self.default_target, p));
                        } else {
                            assert(before.cached().contains_key(k));
                        }
                    }
                }
                d
            },
        }
    }

    /// The decision that the cache holds for a packet descriptor, if it
    /// holds one. Nothing is classified and no bucket is charged.
    pub fn cached_decision(&mut self, device: Device, protocol: Proto, addr: SocketAddress, exe: &str) -> (d: Option<(Option<usize>, RuleTarget)>)
        requires
            old(self).wf(),
        ensures
            final(self).wf(),
            final(self).rules() == old(self).rules(),
            final(self).default_target() == old(self).default_target(),
            final(self).buckets() == old(self).buckets(),
            final(self).cached() == old(self).cached(),
            final(self).cache_order() == touched(
                old(self).cache_order(),
                fingerprint_of(Packet { device, proto: protocol, addr, exe: exe@ }),
            ),
            d == (if old(self).cached().contains_key(fingerprint_of(Packet { device, proto: protocol, addr, exe: exe@ })) {
                Some(old(self).cached()[fingerprint_of(Packet { device, proto: protocol, addr, exe: exe@ })])
            } else {
                None
            }),
    {
        let ghost before = *self;
        let key = fingerprint(device, protocol, addr, exe);
        let d = cache_get(&mut self.cache, key);
        proof {
            lemma_touched(cache_items(before.cache), key);
        }
        assert(self.buckets() == before.buckets());
        d
    }

    /// Decides a packet at the clock reading `now`: the matched rule, if
    /// any, and whether the packet is accepted. The classification comes
    /// from the cache or is computed and cached; a rate-limit target then
    /// charges its bucket with `len` bytes at `now`.
    pub fn is_acceptable_at(
        &mut self,
        device: Device,
        protocol: Proto,
        addr: SocketAddress,
        len: usize,
        exe: &str,
        now: u128,
    ) -> (r: (Option<usize>, bool))
        requires
            old(self).wf(),
        ensures
            final(self).wf(),
            final(self).rules() == old(self).rules(),
            final(self).default_target() == old(self).default_target(),
            r.0 == old(self).decision(Packet { device, proto: protocol, addr, exe: exe@ }).0,
            r.1 == verdict(
                old(self).decision(Packet { device, proto: protocol, addr, exe: exe@ }).1,
                old(self).buckets(),
                now as nat,
                len as nat,
            ),
            final(self).buckets() == charged_buckets(
                old(self).decision(Packet { device, proto: protocol, addr, exe: exe@ }).1,
                old(self).buckets(),
                now as nat,
                len as nat,
            ),
            final(self).cached().contains_key(fingerprint_of(Packet { device, proto: protocol, addr, exe: exe@ })),
            final(self).cached()[fingerprint_of(Packet { device, proto: protocol, addr, exe: exe@ })]
                == old(self).decision(Packet { device, proto: protocol, addr, exe: exe@ }),
            final(self).cache_order() == (if old(self).cached().contains_key(
                fingerprint_of(Packet { device, proto: protocol, addr, exe: exe@ }),
            ) {
                touched(old(self).cache_order(), fingerprint_of(Packet { device, proto: protocol, addr, exe: exe@ }))
            } else {
                inserted(
                    old(self).cache_order(),
                    CACHE_CAPACITY as nat,
                    fingerprint_of(Packet { device, proto: protocol, addr, exe: exe@ }),
                    old(self).decision(Packet { device, proto: protocol, addr, exe: exe@ }),
                )
            }),
            forall|k: u64| k != fingerprint_of(Packet { device, proto: protocol, addr, exe: exe@ })
                && #[trigger] final(self).cached().contains_key(k) ==> old(self).cached().contains_key(k)
                && final(self).cached()[k] == old(self).cached()[k],
            old(self).cached().contains_key(fingerprint_of(Packet { device, proto: protocol, addr, exe: exe@ }))
                ==> final(self).cached() == old(self).cached(),
            !old(self).cached().contains_key(fingerprint_of(Packet { device, proto: protocol, addr, exe: exe@ }))
                && old(self).cache_order().len() < CACHE_CAPACITY
                ==> final(self).cached() == old(self).cached().insert(
                    fingerprint_of(Packet { device, proto: protocol, addr, exe: exe@ }),
                    old(self).decision(Packet { device, proto: protocol, addr, exe: exe@ })),
    {
        let (rule_id, target) = self.decide(device, protocol, addr, exe);
        let ghost mid = *self;
        let accept = match target {
            RuleTarget::Accept => true,
            RuleTarget::Drop => false,
            RuleTarget::RateLimit(rate_id) => {
                let fits = self.rate_state[rate_id].stuff_at(now, len);
                proof {
                    assert(self.buckets() =~= charged_buckets(target, mid.buckets(), now as nat, len as nat));
                }
                fits
            },
        };
        (rule_id, accept)
    }

    /// Decides a packet at the present time. The result is that of
    /// [`IndexedRules::is_acceptable_at`] for the reading that the clock of
    /// the charged bucket gave.
    pub fn is_acceptable(&mut self, device: Device, protocol: Proto, addr: SocketAddress, len: usize, exe: &str) -> (r: (Option<usize>, bool))
        requires
            old(self).wf(),
        ensures
            final(self).wf(),
            final(self).rules() == old(self).rules(),
            final(self).default_target() == old(self).default_target(),
            r.0 == old(self).decision(Packet { device, proto: protocol, addr, exe: exe@ }).0,
            exists|now: u128|
                r.1 == verdict(
                    old(self).decision(Packet { device, proto: protocol, addr, exe: exe@ }).1,
                    old(self).buckets(),
                    now as nat,
                    len as nat,
                ) && final(self).buckets() == #[trigger] charged_buckets(
                    old(self).decision(Packet { device, proto: protocol, addr, exe: exe@ }).1,
                    old(self).buckets(),
                    now as nat,
                    len as nat,
                ),
            final(self).cached().contains_key(fingerprint_of(Packet { device, proto: protocol, addr, exe: exe@ })),
            final(self).cached()[fingerprint_of(Packet { device, proto: protocol, addr, exe: exe@ })]
                == old(self).decision(Packet { device, proto: protocol, addr, exe: exe@ }),
            final(self).cache_order() == (if old(self).cached().contains_key(
                fingerprint_of(Packet { device, proto: protocol, addr, exe: exe@ }),
            ) {
                touched(old(self).cache_order(), fingerprint_of(Packet { device, proto: protocol, addr, exe: exe@ }))
            } else {
                inserted(
                    old(self).cache_order(),
                    CACHE_CAPACITY as nat,
                    fingerprint_of(Packet { device, proto: protocol, addr, exe: exe@ }),
                    old(self).decision(Packet { device, proto: protocol, addr, exe: exe@ }),
                )
            }),
            forall|k: u64| k != fingerprint_of(Packet { device, proto: protocol, addr, exe: exe@ })
                && #[trigger] final(self).cached().contains_key(k) ==> old(self).cached().contains_key(k)
                && final(self).cached()[k] == old(self).cached()[k],
    {
        let (rule_id, target) = self.decide(device, protocol, addr, exe);
        let ghost mid = *self;
        let accept = match target {
            RuleTarget::Accept => {
                assert(self.buckets() == charged_buckets(target, mid.buckets(), 0, len as nat));
                true
            },
            RuleTarget::Drop => {
                assert(self.buckets() == charged_buckets(target, mid.buckets(), 0, len as nat));
                false
            },
            RuleTarget::RateLimit(rate_id) => {
                let ghost bucket = self.rate_state@[rate_id as int]@;
                let fits = self.rate_state[rate_id].stuff(len);
                proof {
                    let now = choose|now: u128|
                        fits == bucket.admits(now as nat, len as nat)
                        && self.rate_state@[rate_id as int]@ == #[trigger] bucket.charged(now as nat, len as nat);
                    assert(self.buckets() =~= charged_buckets(target, mid.buckets(), now as nat, len as nat));
                }
                fits
            },
        };
        (rule_id, accept)
    }

    /// Builds the indices over a valid policy. Every bucket starts empty,
    /// with the byte limit given for it, and the cache starts empty.
    pub fn new(default_target: RuleTarget, rules: Vec<Rule>, rate_rules: Vec<usize>) -> (r: IndexedRules)
        requires
            policy_valid(rules@, default_target, rate_rules@.len()),
        ensures
            r.wf(),
            r.rules() == rules@,
            r.default_target() == default_target,
            r.buckets() == Seq::new(
                rate_rules@.len(),
                |i: int| (BucketState { bytes: 0, window_start: 0, limit: rate_rules@[i] as nat }),
            ),
            r.cache_order() == Seq::<(u64, (Option<usize>, RuleTarget))>::empty(),
            r.cached() == Map::<u64, (Option<usize>, RuleTarget)>::empty(),
    {
        let mut rate_state: Vec<Bucket> = Vec::new();
        let mut b: usize = 0;
        while b < rate_rules.len()
            invariant
                b <= rate_rules@.len(),
                rate_state@.len() == b,
                forall|i: int| 0 <= i < b ==> (#[trigger] rate_state@[i])@ == (BucketState {
                    bytes: 0,
                    window_start: 0,
                    limit: rate_rules@[i] as nat,
                }),
            decreases rate_rules@.len() - b,
        {
            rate_state.push(Bucket::new(rate_rules[b]));
            b += 1;
        }

        let mut device_in: Vec<usize> = Vec::new();
        let mut device_out: Vec<usize> = Vec::new();
        let mut any_device: Vec<usize> = Vec::new();
        let mut proto_tcp: Vec<usize> = Vec::new();
        let mut proto_udp: Vec<usize> = Vec::new();
        let mut proto_udplite: Vec<usize> = Vec::new();
        let mut any_proto: Vec<usize> = Vec::new();
        let mut exe_slots: StringHashMap<usize> = StringHashMap::new();
        let mut exe_lists: Vec<Vec<usize>> = Vec::new();
        let mut any_exe: Vec<usize> = Vec::new();
        let mut v4_table = PrefixTable::new();
        let mut any_v4: Vec<usize> = Vec::new();
        let mut v6_table = PrefixTable::new();
        let mut any_v6: Vec<usize> = Vec::new();
        let mut port_rules: Vec<(u32, u32, usize)> = Vec::new();
        let mut any_port: Vec<usize> = Vec::new();

        let mut k: usize = 0;
        while k < rules.len()
            invariant
                k <= rules@.len(),
                device_in@ == device_list(rules@, k as nat, Some(Device::Input)),
                device_out@ == device_list(rules@, k as nat, Some(Device::Output)),
                any_device@ == device_list(rules@, k as nat, None),
                proto_tcp@ == proto_list(rules@, k as nat, Some(Proto::Tcp)),
                proto_udp@ == proto_list(rules@, k as nat, Some(Proto::Udp)),
                proto_udplite@ == proto_list(rules@, k as nat, Some(Proto::UdpLite)),
                any_proto@ == proto_list(rules@, k as nat, None),
                exes_indexed(rules@, k as nat, exe_slots@, exe_lists@),
                any_exe@ == exe_list(rules@, k as nat, None),
                port_rules@ == port_entries(rules@, k as nat),
                any_port@ == any_port_list(rules@, k as nat),
                v4_table.wf(),
                v6_table.wf(),
                subnets_indexed(rules@, k as nat, v4_table@, true),
                subnets_indexed(rules@, k as nat, v6_table@, false),
                any_v4@ == subnet_list(rules@, k as nat, None),
                any_v6@ == subnet_list(rules@, k as nat, None),
            decreases rules@.len() - k,
        {
            proof {
                lemma_lists_step(rules@, k as nat);
            }
            match rules[k].device {
                Some(Device::Input) => device_in.push(k),
                Some(Device::Output) => device_out.push(k),
                None => any_device.push(k),
            }
            match rules[k].proto {
                Some(Proto::Tcp) => proto_tcp.push(k),
                Some(Proto::Udp) => proto_udp.push(k),
                Some(Proto::UdpLite) => proto_udplite.push(k),
                None => any_proto.push(k),
            }
            index_exe(&mut exe_slots, &mut exe_lists, &mut any_exe, &rules, k);
            match rules[k].port {
                Some((lo, hi)) => {
                    let start: u32 = lo as u32;
                    let end: u32 = hi as u32 + 1;
                    port_rules.push((start, end, k));
                    assert(port_entry(rules@[k as int], k as int) == (start, end, k));
                },
                None => any_port.push(k),
            }
            index_subnet(&mut v4_table, &mut v6_table, &mut any_v4, &mut any_v6, &rules, k);
            k += 1;
        }

        let port = tree_from_intervals(port_rules);
        let cache = cache_with_capacity(CACHE_CAPACITY);
        let r = IndexedRules {
            device_in,
            device_out,
            any_device,
            proto_tcp,
            proto_udp,
            proto_udplite,
            any_proto,
            exe_slots,
            exe_lists,
            any_exe,
            v4_table,
            any_v4,
            v6_table,
            any_v6,
            port,
            any_port,
            raw: rules,
            default_target,
            rate_state,
            cache,
        };
        proof {
            assert(r.buckets() =~= Seq::new(
                rate_rules@.len(),
                |i: int| (BucketState { bytes: 0, window_start: 0, limit: rate_rules@[i] as nat }),
            ));
            assert(r.cache_order() =~= Seq::<(u64, (Option<usize>, RuleTarget))>::empty());
            assert(r.cached() =~= Map::<u64, (Option<usize>, RuleTarget)>::empty());
        }
        r
    }

    /// Builds the table for a policy as the front-end delivers it. A policy
    /// that is not valid is refused with its first fault.
    pub fn from_rules(policy: Rules) -> (r: Result<IndexedRules, PolicyError>)
        ensures
            match r {
                Ok(t) => {
                    &&& policy_valid(policy.rules@, policy.default_target, policy.rate_rules@.len())
                    &&& t.wf()
                    &&& t.rules() == policy.rules@
                    &&& t.default_target() == policy.default_target
                    &&& t.buckets() == Seq::new(
                        policy.rate_rules@.len(),
                        |i: int| (BucketState { bytes: 0, window_start: 0, limit: policy.rate_rules@[i].limit as nat }),
                    )
                    &&& t.cache_order() == Seq::<(u64, (Option<usize>, RuleTarget))>::empty()
                    &&& t.cached() == Map::<u64, (Option<usize>, RuleTarget)>::empty()
                },
                Err(e) => {
                    &&& !policy_valid(policy.rules@, policy.default_target, policy.rate_rules@.len())
                    &&& Some(e) == policy_fault(policy.rules@, policy.default_target, policy.rate_rules@.len())
                },
            },
    {
        match policy.validate() {
            Ok(_) => {},
            Err(e) => {
                return Err(e);
            },
        }
        let mut limits: Vec<usize> = Vec::new();
        let mut i: usize = 0;
        while i < policy.rate_rules.len()
            invariant
                i <= policy.rate_rules@.len(),
                limits@.len() == i,
                forall|j: int| 0 <= j < i ==> limits@[j] == (#[trigger] policy.rate_rules@[j]).limit,
            decreases policy.rate_rules@.len() - i,
        {
            limits.push(policy.rate_rules[i].limit);
            i += 1;
        }
        let ghost rate_rules = policy.rate_rules@;
        let t = IndexedRules::new(policy.default_target, policy.rules, limits);
        proof {
            assert(t.buckets() =~= Seq::new(
                rate_rules.len(),
                |i: int| (BucketState { bytes: 0, window_start: 0, limit: rate_rules[i].limit as nat }),
            ));
        }
        Ok(t)
    }

    /// The rules of the policy, unchanged.
    pub fn raw(&self) -> (r: &Vec<Rule>)
        ensures
            r@ == self.rules(),
    {
        &self.raw
    }

    /// The target of a packet that no rule decides.
    pub fn fallback(&self) -> (t: RuleTarget)
        ensures
            t == self.default_target(),
    {
        self.default_target
    }

    /// The rate-limit buckets, in the order of the policy.
    pub fn rate_state(&self) -> (r: &Vec<Bucket>)
        ensures
            r@.len() == self.buckets().len(),
            forall|i: int| 0 <= i < r@.len() ==> (#[trigger] r@[i])@ == self.buckets()[i],
    {
        &self.rate_state
    }

    /// The rules that name the direction `device`, ascending.
    pub fn device_index(&self, device: Device) -> (r: &Vec<usize>)
        requires
            self.wf(),
        ensures
            r@ == device_list(self.rules(), self.rules().len(), Some(device)),
    {
        match device {
            Device::Input => &self.device_in,
            Device::Output => &self.device_out,
        }
    }

    /// The rules without a device filter, ascending.
    pub fn any_device(&self) -> (r: &Vec<usize>)
        requires
            self.wf(),
        ensures
            r@ == device_list(self.rules(), self.rules().len(), None),
    {
        &self.any_device
    }

    /// The rules that name the protocol `protocol`, ascending.
    pub fn proto_index(&self, protocol: Proto) -> (r: &Vec<usize>)
        requires
            self.wf(),
        ensures
            r@ == proto_list(self.rules(), self.rules().len(), Some(protocol)),
    {
        match protocol {
            Proto::Tcp => &self.proto_tcp,
            Proto::Udp => &self.proto_udp,
            Proto::UdpLite => &self.proto_udplite,
        }
    }

    /// The rules without a protocol filter, ascending.
    pub fn any_proto(&self) -> (r: &Vec<usize>)
        requires
            self.wf(),
        ensures
            r@ == proto_list(self.rules(), self.rules().len(), None),
    {
        &self.any_proto
    }

    /// The rules that name the executable `exe`, ascending; `None` where
    /// no rule names it.
    pub fn exe_index(&self, exe: &str) -> (r: Option<&Vec<usize>>)
        requires
            self.wf(),
        ensures
            match r {
                Some(v) => v@ == exe_list(self.rules(), self.rules().len(), Some(exe@)),
                None => exe_list(self.rules(), self.rules().len(), Some(exe@)) == Seq::<usize>::empty(),
            },
    {
        match self.exe_slots.get(exe) {
            Some(slot) => Some(&self.exe_lists[*slot]),
            None => None,
        }
    }

    /// The rules without an executable filter, ascending.
    pub fn any_exe(&self) -> (r: &Vec<usize>)
        requires
            self.wf(),
        ensures
            r@ == exe_list(self.rules(), self.rules().len(), None),
    {
        &self.any_exe
    }

    /// The rules whose port range holds `port`, each once, in the order in
    /// which the interval tree yields them.
    pub fn port_index(&self, port: u16) -> (r: Vec<usize>)
        requires
            self.wf(),
        ensures
            r@.len() == port_list(self.rules(), self.rules().len(), port).len(),
            forall|j: int| 0 <= j < r@.len() ==> (#[trigger] r@[j]) < self.rules().len() && port_covers(self.rules()[r@[j] as int], port),
            forall|i: int| 0 <= i < self.rules().len() && port_covers(#[trigger] self.rules()[i], port) ==> r@.contains(i as usize),
    {
        let ghost rules = self.raw@;
        let ghost n = rules.len();
        let count = self.raw.len();
        let hits = tree_query_point(&self.port, port as u32);
        let ids = hit_positions(&hits);
        proof {
            assert forall|v: (u32, u32, usize)| #[trigger] hits@.to_multiset().count(v) == (if covers(v, port as u32) {
                port_entries(rules, n).to_multiset().count(v)
            } else {
                0
            }) by {}
            lemma_port_query(rules, port, hits@);
            assert forall|j: int| 0 <= j < ids@.len() implies (#[trigger] ids@[j]) < n && port_covers(rules[ids@[j] as int], port) by {
                assert(hits@[j].2 < n);
            }
            assert forall|i: int| 0 <= i < n && port_covers(#[trigger] rules[i], port) implies ids@.contains(i as usize) by {
                let j = choose|j: int| 0 <= j < hits@.len() && hits@[j].2 == i;
                assert(ids@[j] == i as usize);
            }
        }
        ids
    }

    /// The rules without a port filter, ascending.
    pub fn any_port(&self) -> (r: &Vec<usize>)
        requires
            self.wf(),
        ensures
            r@ == any_port_list(self.rules(), self.rules().len()),
    {
        &self.any_port
    }

    /// The rules whose subnet is `prefix` with mask length `len`, host bits
    /// disregarded, ascending; `None` where no rule has that subnet.
    pub fn subnet_index(&self, prefix: IpAddress, len: u8) -> (r: Option<&Vec<usize>>)
        requires
            self.wf(),
        ensures
            match r {
                Some(v) => v@ == subnet_list(self.rules(), self.rules().len(), Some((prefix.masked(len as nat), len))),
                None => subnet_list(self.rules(), self.rules().len(), Some((prefix.masked(len as nat), len))) == Seq::<usize>::empty(),
            },
    {
        let key = prefix.mask(len);
        if key.is_ipv4() {
            self.v4_table.exact_match(key, len)
        } else {
            self.v6_table.exact_match(key, len)
        }
    }

    /// The rules without a subnet filter, as the IPv4 index holds them.
    pub fn any_v4(&self) -> (r: &Vec<usize>)
        requires
            self.wf(),
        ensures
            r@ == subnet_list(self.rules(), self.rules().len(), None),
    {
        &self.any_v4
    }

    /// The rules without a subnet filter, as the IPv6 index holds them.
    pub fn any_v6(&self) -> (r: &Vec<usize>)
        requires
            self.wf(),
        ensures
            r@ == subnet_list(self.rules(), self.rules().len(), None),
    {
        &self.any_v6
    }

    /// Scans `list` for rules that apply to the packet and keeps the lowest
    /// position among them and `best`.
    fn scan(
        &self,
        list: &Vec<usize>,
        best: Option<usize>,
        device: Device,
        protocol: Proto,
        addr: SocketAddress,
        exe: &str,
    ) -> (r: Option<usize>)
        requires
            forall|j: int| 0 <= j < list@.len() ==> #[trigger] list@[j] < self.raw@.len(),
            match best {
                Some(b) => b < self.raw@.len(),
                None => true,
            },
        ensures
            match r {
                Some(i) => {
                    &&& i < self.raw@.len()
                    &&& best == Some(i) || (list@.contains(i) && self.raw@[i as int].matches(
                        Packet { device, proto: protocol, addr, exe: exe@ },
                    ))
                    &&& best is Some ==> i <= best->0
                    &&& forall|j: int| 0 <= j < list@.len() && self.raw@[#[trigger] list@[j] as int].matches(
                        Packet { device, proto: protocol, addr, exe: exe@ },
                    ) ==> i <= list@[j]
                },
                None => {
                    &&& best is None
                    &&& forall|j: int| 0 <= j < list@.len() ==> !self.raw@[#[trigger] list@[j] as int].matches(
                        Packet { device, proto: protocol, addr, exe: exe@ },
                    )
                },
            },
    {
        let ghost p = Packet { device, proto: protocol, addr, exe: exe@ };
        let mut r = best;
        let mut j: usize = 0;
        while j < list.len()
            invariant
                j <= list@.len(),
                p == (Packet { device, proto: protocol, addr, exe: exe@ }),
                forall|i: int| 0 <= i < list@.len() ==> #[trigger] list@[i] < self.raw@.len(),
                match r {
                    Some(i) => {
                        &&& i < self.raw@.len()
                        &&& best == Some(i) || (list@.contains(i) && self.raw@[i as int].matches(p))
                        &&& best is Some ==> i <= best->0
                        &&& forall|a: int| 0 <= a < j && self.raw@[#[trigger] list@[a] as int].matches(p) ==> i <= list@[a]
                    },
                    None => {
                        &&& best is None
                        &&& forall|a: int| 0 <= a < j ==> !self.raw@[#[trigger] list@[a] as int].matches(p)
                    },
                },
            decreases list@.len() - j,
        {
            let id = list[j];
            if self.raw[id].match_target(device, protocol, addr, exe).is_some() {
                let lower = match r {
                    Some(i) => id < i,
                    None => true,
                };
                if lower {
                    r = Some(id);
                    assert(list@.contains(id));
                }
            }
            j += 1;
        }
        r
    }

    /// The pool of the device field.
    fn device_pool(&self, device: Device, Ghost(p): Ghost<Packet>) -> (pool: (&Vec<usize>, &Vec<usize>))
        requires
            self.wf(),
            p.device == device,
        ensures
            is_pool(self.raw@, p, Field::Device, pool.0@, pool.1@),
    {
        let count = self.raw.len();
        proof {
            lemma_lists_are_pool(self.raw@, p, Field::Device);
        }
        match device {
            Device::Input => (&self.device_in, &self.any_device),
            Device::Output => (&self.device_out, &self.any_device),
        }
    }

    /// The pool of the protocol field.
    fn proto_pool(&self, protocol: Proto, Ghost(p): Ghost<Packet>) -> (pool: (&Vec<usize>, &Vec<usize>))
        requires
            self.wf(),
            p.proto == protocol,
        ensures
            is_pool(self.raw@, p, Field::Proto, pool.0@, pool.1@),
    {
        let count = self.raw.len();
        proof {
            lemma_lists_are_pool(self.raw@, p, Field::Proto);
        }
        match protocol {
            Proto::Tcp => (&self.proto_tcp, &self.any_proto),
            Proto::Udp => (&self.proto_udp, &self.any_proto),
            Proto::UdpLite => (&self.proto_udplite, &self.any_proto),
        }
    }

    /// The rules that name the executable `exe`, if any does.
    fn exe_pool(&self, exe: &str, Ghost(p): Ghost<Packet>) -> (pool: (Option<&Vec<usize>>, &Vec<usize>))
        requires
            self.wf(),
            p.exe == exe@,
        ensures
            is_pool(
                self.raw@,
                p,
                Field::Exe,
                match pool.0 {
                    Some(v) => v@,
                    None => Seq::empty(),
                },
                pool.1@,
            ),
    {
        let count = self.raw.len();
        proof {
            lemma_lists_are_pool(self.raw@, p, Field::Exe);
        }
        match self.exe_slots.get(exe) {
            Some(slot) => (Some(&self.exe_lists[*slot]), &self.any_exe),
            None => (None, &self.any_exe),
        }
    }

    /// The pool of the port field: what the interval tree yields for the
    /// port, in the tree's order, and the rules without a port filter.
    fn port_pool(&self, port: u16, Ghost(p): Ghost<Packet>) -> (pool: (Vec<usize>, &Vec<usize>))
        requires
            self.wf(),
            p.addr.port == port,
        ensures
            is_pool(self.raw@, p, Field::Port, pool.0@, pool.1@),
    {
        let ghost rules = self.raw@;
        let ghost n = rules.len();
        let count = self.raw.len();
        let hits = tree_query_point(&self.port, port as u32);
        let ids = hit_positions(&hits);
        proof {
            lemma_lists_are_pool(rules, p, Field::Port);
            assert forall|v: (u32, u32, usize)| #[trigger] hits@.to_multiset().count(v) == (if covers(v, port as u32) {
                port_entries(rules, n).to_multiset().count(v)
            } else {
                0
            }) by {}
            lemma_port_query(rules, port, hits@);
            assert forall|i: int| 0 <= i < n implies (#[trigger] in_pool(rules, p, Field::Port, i) <==> ids@.contains(i as usize)
                || self.any_port@.contains(i as usize)) by {
                lemma_positions_contains(n, |j: int| rules[j].port is None, i as usize);
                if port_covers(rules[i], port) {
                    let j = choose|j: int| 0 <= j < hits@.len() && hits@[j].2 == i;
                    assert(ids@[j] == i as usize);
                }
                if ids@.contains(i as usize) {
                    let j = choose|j: int| 0 <= j < ids@.len() && ids@[j] == i as usize;
                    assert(hits@[j].2 == i);
                }
            }
            assert forall|j: int| 0 <= j < ids@.len() implies #[trigger] ids@[j] < n by {
                assert(hits@[j].2 < n);
            }
        }
        (ids, &self.any_port)
    }

    /// The pool of the subnet field: the rules of the longest subnet that
    /// holds the address, if any does, and the rules without a subnet.
    fn subnet_pool(&self, ip: IpAddress, Ghost(p): Ghost<Packet>) -> (pool: (Option<&Vec<usize>>, &Vec<usize>))
        requires
            self.wf(),
            p.addr.ip == ip,
        ensures
            is_pool(
                self.raw@,
                p,
                Field::Subnet,
                match pool.0 {
                    Some(v) => v@,
                    None => Seq::empty(),
                },
                pool.1@,
            ),
    {
        let ghost rules = self.raw@;
        let count = self.raw.len();
        let v4 = ip.is_ipv4();
        let table = if v4 {
            &self.v4_table
        } else {
            &self.v6_table
        };
        let any: &Vec<usize> = if v4 {
            &self.any_v4
        } else {
            &self.any_v6
        };
        let found = table.longest_match(ip);
        proof {
            lemma_lists_are_pool(rules, p, Field::Subnet);
            let hit: Option<(IpAddress, u8)> = match found {
                Some((prefix, len, _)) => Some((prefix, len)),
                None => None,
            };
            assert forall|l: u8| table@.contains_key((ip.masked(l as nat), l)) implies (match hit {
                Some(key) => l <= key.1,
                None => false,
            }) by {
                assert(table.covers(ip, l));
            }
            lemma_table_lookup(rules, table@, v4, ip, hit);
        }
        match found {
            Some((_, _, ids)) => (Some(ids), any),
            None => (None, any),
        }
    }

    /// Classifies a packet from the indices alone, without the cache: the
    /// lowest rule in the smallest pool that applies to the packet, with its
    /// target, or no rule and the default target.
    pub fn match_target(&self, device: Device, protocol: Proto, addr: SocketAddress, exe: &str) -> (r: (Option<usize>, RuleTarget))
        requires
            self.wf(),
        ensures
            r == classify(self.rules(), self.default_target(), Packet { device, proto: protocol, addr, exe: exe@ }),
            r.1.in_range(self.buckets().len()),
    {
        let ghost p = Packet { device, proto: protocol, addr, exe: exe@ };
        let ghost rules = self.raw@;
        let count = self.raw.len();
        let empty: Vec<usize> = Vec::new();

        let (exact_device, any_device) = self.device_pool(device, Ghost(p));
        let (exact_proto, any_proto) = self.proto_pool(protocol, Ghost(p));
        let (found_exe, any_exe) = self.exe_pool(exe, Ghost(p));
        let exact_exe: &Vec<usize> = match found_exe {
            Some(v) => v,
            None => &empty,
        };
        let (exact_port, any_port) = self.port_pool(addr.port, Ghost(p));
        let (found_ip, any_ip) = self.subnet_pool(addr.ip, Ghost(p));
        let exact_ip: &Vec<usize> = match found_ip {
            Some(v) => v,
            None => &empty,
        };

        let size_device: u128 = exact_device.len() as u128 + any_device.len() as u128;
        let size_proto: u128 = exact_proto.len() as u128 + any_proto.len() as u128;
        let size_exe: u128 = exact_exe.len() as u128 + any_exe.len() as u128;
        let size_port: u128 = exact_port.len() as u128 + any_port.len() as u128;
        let size_ip: u128 = exact_ip.len() as u128 + any_ip.len() as u128;

        let field = if size_device <= size_proto && size_device <= size_exe && size_device <= size_port && size_device <= size_ip {
            Field::Device
        } else if size_proto <= size_exe && size_proto <= size_port && size_proto <= size_ip {
            Field::Proto
        } else if size_exe <= size_port && size_exe <= size_ip {
            Field::Exe
        } else if size_port <= size_ip {
            Field::Port
        } else {
            Field::Subnet
        };
        assert(field == selected_field(rules, p));
        let (exact, any): (&Vec<usize>, &Vec<usize>) = match field {
            Field::Device => (exact_device, any_device),
            Field::Proto => (exact_proto, any_proto),
            Field::Exe => (exact_exe, any_exe),
            Field::Port => (&exact_port, any_port),
            Field::Subnet => (exact_ip, any_ip),
        };
        assert(is_pool(rules, p, field, exact@, any@));

        let first = self.scan(exact, None, device, protocol, addr, exe);
        let best = self.scan(any, first, device, protocol, addr, exe);
        proof {
            lemma_scanned(rules, p, exact@, any@, best);
            assert(self.buckets().len() == self.rate_state@.len());
        }
        match best {
            Some(i) => (Some(i), self.raw[i].target),
            None => (None, self.default_target),
        }
    }
}

} // verus!
