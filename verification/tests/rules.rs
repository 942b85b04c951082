use gleipnir::policy::{Device, IpAddress, PolicyError, Proto, RateLimitRule, Rule, RuleTarget, Rules, SocketAddress};
use gleipnir::rules::{IndexedRules, CACHE_CAPACITY};

fn to(a: u8, b: u8, c: u8, d: u8, port: u16) -> SocketAddress {
    SocketAddress { ip: IpAddress::v4(a, b, c, d), port }
}

fn rule(
    device: Option<Device>,
    proto: Option<Proto>,
    exe: Option<&str>,
    port: Option<(u16, u16)>,
    subnet: Option<(IpAddress, u8)>,
    target: RuleTarget,
) -> Rule {
    Rule { device, proto, exe: exe.map(String::from), port, subnet, target }
}

fn five_rules(third_prefix: IpAddress) -> Vec<Rule> {
    vec![
        rule(Some(Device::Input), None, None, None, Some((IpAddress::v4(1, 1, 1, 1), 32)), RuleTarget::Accept),
        rule(Some(Device::Input), Some(Proto::Tcp), None, None, Some((IpAddress::v4(1, 1, 1, 1), 32)), RuleTarget::Accept),
        rule(Some(Device::Input), Some(Proto::Tcp), None, None, Some((third_prefix, 30)), RuleTarget::Accept),
        rule(Some(Device::Input), None, Some(""), Some((10, 200)), Some((IpAddress::v4(2, 2, 2, 2), 32)), RuleTarget::Accept),
        rule(Some(Device::Input), None, Some(""), Some((100, 100)), Some((IpAddress::v4(0, 0, 0, 0), 0)), RuleTarget::Accept),
    ]
}

fn scenario() -> IndexedRules {
    IndexedRules::new(RuleTarget::Drop, five_rules(IpAddress::v4(2, 2, 2, 0)), vec![])
}

#[test]
fn rules_indexing() {
    let raw_rules = five_rules(IpAddress::v4(2, 2, 2, 2));

    let mut r = IndexedRules::new(RuleTarget::Drop, raw_rules.clone(), vec![]);
    assert_eq!(r.device_index(Device::Input), &vec![0, 1, 2, 3, 4]);
    assert_eq!(r.device_index(Device::Output), &Vec::<usize>::new());
    assert_eq!(r.any_device(), &Vec::<usize>::new());
    assert_eq!(r.proto_index(Proto::Tcp), &vec![1, 2]);
    assert_eq!(r.proto_index(Proto::Udp), &Vec::<usize>::new());
    assert_eq!(r.proto_index(Proto::UdpLite), &Vec::<usize>::new());
    assert_eq!(r.any_proto(), &vec![0, 3, 4]);
    assert_eq!(r.exe_index(""), Some(&vec![3, 4]));
    assert_eq!(r.exe_index("x"), None);
    assert_eq!(r.any_exe(), &vec![0, 1, 2]);
    for p in 10..=200 {
        if p == 100 {
            assert_eq!(r.port_index(p), vec![4, 3]);
        } else {
            assert_eq!(r.port_index(p), vec![3]);
        }
    }
    assert_eq!(r.any_port(), &vec![0, 1, 2]);
    assert_eq!(r.raw(), &raw_rules);
    assert_eq!(r.fallback(), RuleTarget::Drop);

    assert_eq!(
        r.is_acceptable(Device::Input, Proto::Tcp, to(2, 2, 2, 2, 100), 0, ""),
        (Some(3), true)
    );
}

#[test]
fn subnets_are_indexed_by_masked_prefix() {
    let r = IndexedRules::new(RuleTarget::Drop, five_rules(IpAddress::v4(2, 2, 2, 2)), vec![]);
    assert_eq!(r.subnet_index(IpAddress::v4(1, 1, 1, 1), 32), Some(&vec![0, 1]));
    assert_eq!(r.subnet_index(IpAddress::v4(2, 2, 2, 2), 30), Some(&vec![2]));
    assert_eq!(r.subnet_index(IpAddress::v4(2, 2, 2, 0), 30), Some(&vec![2]));
    assert_eq!(r.subnet_index(IpAddress::v4(2, 2, 2, 2), 32), Some(&vec![3]));
    assert_eq!(r.subnet_index(IpAddress::v4(0, 0, 0, 0), 0), Some(&vec![4]));
    assert_eq!(r.subnet_index(IpAddress::v4(9, 9, 9, 9), 0), Some(&vec![4]));
    assert_eq!(r.subnet_index(IpAddress::v4(2, 2, 2, 2), 31), None);
    assert_eq!(r.subnet_index(IpAddress::V6(0), 0), None);
    assert_eq!(r.any_v4(), &Vec::<usize>::new());
    assert_eq!(r.any_v6(), &Vec::<usize>::new());
}

#[test]
fn ports_outside_every_range_hit_nothing() {
    let r = scenario();
    assert_eq!(r.port_index(9), Vec::<usize>::new());
    assert_eq!(r.port_index(201), Vec::<usize>::new());
    assert_eq!(r.port_index(0), Vec::<usize>::new());
    assert_eq!(r.port_index(65535), Vec::<usize>::new());
}

#[test]
fn port_range_up_to_the_last_port() {
    let rules = vec![
        rule(None, None, None, Some((65000, 65535)), None, RuleTarget::Accept),
        rule(None, None, None, Some((0, 0)), None, RuleTarget::Accept),
    ];
    let mut r = IndexedRules::new(RuleTarget::Drop, rules, vec![]);
    assert_eq!(r.port_index(65535), vec![0]);
    assert_eq!(r.port_index(65000), vec![0]);
    assert_eq!(r.port_index(64999), Vec::<usize>::new());
    assert_eq!(r.port_index(0), vec![1]);
    assert_eq!(r.port_index(1), Vec::<usize>::new());
    assert_eq!(r.is_acceptable(Device::Output, Proto::Udp, to(8, 8, 8, 8, 65535), 1, "/bin/x"), (Some(0), true));
}

#[test]
fn longest_subnet_hides_an_earlier_shorter_one() {
    let mut r = scenario();
    assert_eq!(
        r.is_acceptable(Device::Input, Proto::Tcp, to(2, 2, 2, 2, 100), 64, ""),
        (Some(3), true)
    );
}

#[test]
fn first_rule_of_two_on_one_subnet_wins() {
    let mut r = scenario();
    assert_eq!(
        r.is_acceptable(Device::Input, Proto::Tcp, to(1, 1, 1, 1, 53), 100, "x"),
        (Some(0), true)
    );
}

#[test]
fn outbound_packet_falls_to_default_drop() {
    let mut r = scenario();
    assert_eq!(
        r.is_acceptable(Device::Output, Proto::Tcp, to(1, 1, 1, 1, 53), 100, "x"),
        (None, false)
    );
}

#[test]
fn lookup_by_subnet_scans_only_the_longest_prefix() {
    let mut r = scenario();
    assert_eq!(r.match_target(Device::Input, Proto::Udp, to(2, 2, 2, 3, 100), ""), (None, RuleTarget::Drop));
    assert_eq!(
        r.is_acceptable(Device::Input, Proto::Udp, to(2, 2, 2, 3, 100), 10, ""),
        (None, false)
    );
}

#[test]
fn catch_all_subnet_decides_where_it_is_the_longest() {
    let mut r = scenario();
    assert_eq!(
        r.is_acceptable(Device::Input, Proto::Udp, to(7, 7, 7, 7, 100), 10, ""),
        (Some(4), true)
    );
}

#[test]
fn unknown_address_falls_to_default_drop() {
    let mut r = scenario();
    assert_eq!(
        r.is_acceptable(Device::Input, Proto::Tcp, to(9, 9, 9, 9, 80), 10, "x"),
        (None, false)
    );
}

#[test]
fn default_accept_applies_without_a_match() {
    let mut r = IndexedRules::new(RuleTarget::Accept, five_rules(IpAddress::v4(2, 2, 2, 0)), vec![]);
    assert_eq!(
        r.is_acceptable(Device::Output, Proto::Tcp, to(9, 9, 9, 9, 80), 10, "x"),
        (None, true)
    );
}

#[test]
fn empty_policy_uses_the_default() {
    let mut drop = IndexedRules::new(RuleTarget::Drop, vec![], vec![]);
    assert_eq!(drop.is_acceptable(Device::Input, Proto::Tcp, to(1, 2, 3, 4, 5), 6, "/x"), (None, false));
    let mut accept = IndexedRules::new(RuleTarget::Accept, vec![], vec![]);
    assert_eq!(accept.is_acceptable(Device::Input, Proto::Tcp, to(1, 2, 3, 4, 5), 6, "/x"), (None, true));
}

#[test]
fn lowest_matching_rule_wins_off_the_subnet_field() {
    let rules = vec![
        rule(Some(Device::Output), None, None, None, None, RuleTarget::Drop),
        rule(None, Some(Proto::Udp), None, None, None, RuleTarget::Drop),
        rule(None, None, Some("/usr/bin/curl"), None, None, RuleTarget::Accept),
        rule(None, None, None, Some((80, 80)), None, RuleTarget::Drop),
        rule(None, None, None, None, None, RuleTarget::Accept),
    ];
    let mut r = IndexedRules::new(RuleTarget::Drop, rules, vec![]);
    assert_eq!(r.is_acceptable(Device::Input, Proto::Tcp, to(1, 1, 1, 1, 80), 1, "/usr/bin/curl"), (Some(2), true));
    assert_eq!(r.is_acceptable(Device::Input, Proto::Tcp, to(1, 1, 1, 1, 80), 1, "/usr/bin/wget"), (Some(3), false));
    assert_eq!(r.is_acceptable(Device::Input, Proto::Tcp, to(1, 1, 1, 1, 81), 1, "/usr/bin/wget"), (Some(4), true));
    assert_eq!(r.is_acceptable(Device::Input, Proto::Udp, to(1, 1, 1, 1, 80), 1, "/usr/bin/curl"), (Some(1), false));
    assert_eq!(r.is_acceptable(Device::Output, Proto::Udp, to(1, 1, 1, 1, 80), 1, "/usr/bin/curl"), (Some(0), false));
}

#[test]
fn v6_rules_and_v4_rules_do_not_mix() {
    let net6 = IpAddress::v6([0x2001, 0x0db8, 0, 0, 0, 0, 0, 0]);
    let host6 = IpAddress::v6([0x2001, 0x0db8, 0, 0, 0, 0, 0, 1]);
    let rules = vec![
        rule(None, None, None, None, Some((net6, 32)), RuleTarget::Accept),
        rule(None, None, None, None, Some((IpAddress::v4(10, 0, 0, 0), 8)), RuleTarget::Accept),
    ];
    let mut r = IndexedRules::new(RuleTarget::Drop, rules, vec![]);
    let at = |ip, port| SocketAddress { ip, port };
    assert_eq!(r.is_acceptable(Device::Input, Proto::Tcp, at(host6, 1), 1, ""), (Some(0), true));
    assert_eq!(r.is_acceptable(Device::Input, Proto::Tcp, at(IpAddress::v4(10, 9, 8, 7), 1), 1, ""), (Some(1), true));
    assert_eq!(r.is_acceptable(Device::Input, Proto::Tcp, at(IpAddress::v4(11, 0, 0, 1), 1), 1, ""), (None, false));
    assert_eq!(r.is_acceptable(Device::Input, Proto::Tcp, at(IpAddress::V6(1), 1), 1, ""), (None, false));
    assert_eq!(r.subnet_index(net6, 32), Some(&vec![0]));
    assert_eq!(r.subnet_index(host6, 32), Some(&vec![0]));
    assert_eq!(r.subnet_index(host6, 128), None);
}

#[test]
fn rate_limited_rule_charges_its_bucket() {
    let rules = vec![rule(None, None, None, None, None, RuleTarget::RateLimit(0))];
    let mut r = IndexedRules::new(RuleTarget::Drop, rules, vec![1000]);
    let a = to(1, 1, 1, 1, 1);
    assert_eq!(r.is_acceptable_at(Device::Input, Proto::Tcp, a, 400, "", 0), (Some(0), true));
    assert_eq!(r.is_acceptable_at(Device::Input, Proto::Tcp, a, 400, "", 1), (Some(0), true));
    assert_eq!(r.is_acceptable_at(Device::Input, Proto::Tcp, a, 400, "", 2), (Some(0), false));
    assert_eq!(r.is_acceptable_at(Device::Input, Proto::Tcp, a, 400, "", 503), (Some(0), true));
    assert_eq!(r.rate_state()[0].limit(), 1000);
}

#[test]
fn rate_limit_as_default_target() {
    let mut r = IndexedRules::new(RuleTarget::RateLimit(1), vec![], vec![10, 100]);
    let a = to(1, 1, 1, 1, 1);
    assert_eq!(r.is_acceptable_at(Device::Input, Proto::Tcp, a, 60, "", 0), (None, true));
    assert_eq!(r.is_acceptable_at(Device::Input, Proto::Tcp, a, 60, "", 0), (None, false));
    assert_eq!(r.is_acceptable_at(Device::Input, Proto::Tcp, a, 39, "", 0), (None, true));
}

#[test]
fn payload_length_does_not_split_the_cache() {
    let mut r = scenario();
    let a = to(1, 1, 1, 1, 53);
    assert_eq!(r.cached_decision(Device::Input, Proto::Tcp, a, "x"), None);
    assert_eq!(r.is_acceptable(Device::Input, Proto::Tcp, a, 100, "x"), (Some(0), true));
    assert_eq!(r.cached_decision(Device::Input, Proto::Tcp, a, "x"), Some((Some(0), RuleTarget::Accept)));
    assert_eq!(r.is_acceptable(Device::Input, Proto::Tcp, a, 7, "x"), (Some(0), true));
    assert_eq!(r.cached_decision(Device::Input, Proto::Udp, a, "x"), None);
    assert_eq!(r.cached_decision(Device::Input, Proto::Tcp, a, "y"), None);
    assert_eq!(r.cached_decision(Device::Output, Proto::Tcp, a, "x"), None);
    assert_eq!(r.cached_decision(Device::Input, Proto::Tcp, to(1, 1, 1, 1, 54), "x"), None);
}

#[test]
fn cache_stores_the_target_not_the_verdict() {
    let rules = vec![rule(None, None, None, None, None, RuleTarget::RateLimit(0))];
    let mut r = IndexedRules::new(RuleTarget::Drop, rules, vec![100]);
    let a = to(1, 1, 1, 1, 1);
    assert_eq!(r.is_acceptable_at(Device::Input, Proto::Tcp, a, 99, "", 0), (Some(0), true));
    assert_eq!(r.cached_decision(Device::Input, Proto::Tcp, a, ""), Some((Some(0), RuleTarget::RateLimit(0))));
    assert_eq!(r.is_acceptable_at(Device::Input, Proto::Tcp, a, 99, "", 0), (Some(0), false));
    assert_eq!(r.cached_decision(Device::Input, Proto::Tcp, a, ""), Some((Some(0), RuleTarget::RateLimit(0))));
}

#[test]
fn cache_is_bounded() {
    assert_eq!(CACHE_CAPACITY, 2048);
    let mut r = scenario();
    for port in 0..3000u16 {
        r.is_acceptable(Device::Input, Proto::Tcp, to(9, 9, 9, 9, port), 1, "");
    }
    assert_eq!(r.cached_decision(Device::Input, Proto::Tcp, to(9, 9, 9, 9, 2999), ""), Some((None, RuleTarget::Drop)));
    assert_eq!(r.cached_decision(Device::Input, Proto::Tcp, to(9, 9, 9, 9, 0), ""), None);
    let held = (0..3000u16)
        .filter(|port| r.cached_decision(Device::Input, Proto::Tcp, to(9, 9, 9, 9, *port), "").is_some())
        .count();
    assert_eq!(held, 2048);
}

#[test]
fn repeated_classification_is_the_same() {
    let mut r = scenario();
    let a = to(2, 2, 2, 2, 100);
    let fresh = r.match_target(Device::Input, Proto::Tcp, a, "");
    assert_eq!(fresh, (Some(3), RuleTarget::Accept));
    assert_eq!(r.match_target(Device::Input, Proto::Tcp, a, ""), fresh);
    let first = r.is_acceptable(Device::Input, Proto::Tcp, a, 1, "");
    let second = r.is_acceptable(Device::Input, Proto::Tcp, a, 1, "");
    assert_eq!(first, second);
}

#[test]
fn every_rule_sits_in_one_list_per_field() {
    let rules = five_rules(IpAddress::v4(2, 2, 2, 2));
    let r = IndexedRules::new(RuleTarget::Drop, rules.clone(), vec![]);
    for (i, rule) in rules.iter().enumerate() {
        let in_device = [Device::Input, Device::Output].iter().filter(|d| r.device_index(**d).contains(&i)).count();
        assert_eq!(in_device + r.any_device().contains(&i) as usize, 1);
        let in_proto = [Proto::Tcp, Proto::Udp, Proto::UdpLite].iter().filter(|p| r.proto_index(**p).contains(&i)).count();
        assert_eq!(in_proto + r.any_proto().contains(&i) as usize, 1);
        let in_exe = ["", "x"].iter().filter(|e| r.exe_index(e).map_or(false, |l| l.contains(&i))).count();
        assert_eq!(in_exe + r.any_exe().contains(&i) as usize, 1);
        assert_eq!(rule.port.is_some(), !r.any_port().contains(&i));
        assert_eq!(rule.subnet.is_some(), !r.any_v4().contains(&i));
        assert_eq!(rule.subnet.is_some(), !r.any_v6().contains(&i));
        if let Some((lo, hi)) = rule.port {
            for p in lo..=hi {
                assert!(r.port_index(p).contains(&i));
            }
        }
        if let Some((prefix, len)) = rule.subnet {
            assert!(r.subnet_index(prefix, len).unwrap().contains(&i));
        }
    }
}

#[test]
fn policy_is_checked_at_ingress() {
    let good = Rules {
        rules: five_rules(IpAddress::v4(2, 2, 2, 0)),
        rate_rules: vec![RateLimitRule { name: String::from("slow"), limit: 1000 }],
        default_target: RuleTarget::RateLimit(0),
    };
    assert_eq!(good.validate(), Ok(()));
    let mut table = IndexedRules::from_rules(good.clone()).ok().unwrap();
    assert_eq!(table.raw(), &good.rules);
    assert_eq!(table.fallback(), RuleTarget::RateLimit(0));
    assert_eq!(table.rate_state().len(), 1);
    assert_eq!(table.rate_state()[0].limit(), 1000);
    assert_eq!(table.is_acceptable_at(Device::Output, Proto::Tcp, to(1, 1, 1, 1, 1), 999, "", 0), (None, true));
    assert_eq!(table.is_acceptable_at(Device::Output, Proto::Tcp, to(1, 1, 1, 1, 1), 1, "", 0), (None, false));
}

#[test]
fn inverted_port_range_is_refused() {
    let mut policy = Rules { rules: five_rules(IpAddress::v4(2, 2, 2, 0)), rate_rules: vec![], default_target: RuleTarget::Drop };
    policy.rules[3].port = Some((200, 10));
    policy.rules[4].subnet = Some((IpAddress::v4(0, 0, 0, 0), 33));
    let expected = PolicyError::PortRange { index: 3, begin: 200, end: 10 };
    assert_eq!(policy.validate(), Err(expected));
    assert_eq!(policy.rules[3].check(3, 0), Err(expected));
    assert_eq!(IndexedRules::from_rules(policy).err(), Some(expected));
}

#[test]
fn mask_out_of_range_is_refused() {
    let mut policy = Rules { rules: five_rules(IpAddress::v4(2, 2, 2, 0)), rate_rules: vec![], default_target: RuleTarget::Drop };
    policy.rules[1].subnet = Some((IpAddress::v4(1, 1, 1, 1), 33));
    assert_eq!(policy.validate(), Err(PolicyError::MaskLength { index: 1, len: 33 }));
    policy.rules[1].subnet = Some((IpAddress::V6(1), 129));
    assert_eq!(policy.validate(), Err(PolicyError::MaskLength { index: 1, len: 129 }));
    policy.rules[1].subnet = Some((IpAddress::V6(1), 128));
    assert_eq!(policy.validate(), Ok(()));
    policy.rules[1].subnet = Some((IpAddress::v4(1, 1, 1, 1), 32));
    assert_eq!(policy.validate(), Ok(()));
}

#[test]
fn missing_bucket_is_refused() {
    let mut policy = Rules {
        rules: five_rules(IpAddress::v4(2, 2, 2, 0)),
        rate_rules: vec![RateLimitRule { name: String::from("a"), limit: 1 }],
        default_target: RuleTarget::RateLimit(1),
    };
    assert_eq!(policy.validate(), Err(PolicyError::DefaultRateBucket { bucket: 1 }));
    policy.rules[2].target = RuleTarget::RateLimit(5);
    assert_eq!(policy.validate(), Err(PolicyError::RateBucket { index: 2, bucket: 5 }));
    policy.rules[2].target = RuleTarget::RateLimit(0);
    policy.default_target = RuleTarget::RateLimit(0);
    assert_eq!(policy.validate(), Ok(()));
}

#[test]
fn a_hit_keeps_an_entry_from_eviction() {
    let mut r = scenario();
    for port in 0..2048u16 {
        r.is_acceptable(Device::Input, Proto::Tcp, to(9, 9, 9, 9, port), 1, "");
    }
    assert!(r.cached_decision(Device::Input, Proto::Tcp, to(9, 9, 9, 9, 1), "").is_some());
    r.is_acceptable(Device::Input, Proto::Tcp, to(9, 9, 9, 9, 0), 1, "");
    r.is_acceptable(Device::Input, Proto::Tcp, to(9, 9, 9, 9, 5000), 1, "");
    assert_eq!(r.cached_decision(Device::Input, Proto::Tcp, to(9, 9, 9, 9, 2), ""), None);
    assert!(r.cached_decision(Device::Input, Proto::Tcp, to(9, 9, 9, 9, 0), "").is_some());
    assert!(r.cached_decision(Device::Input, Proto::Tcp, to(9, 9, 9, 9, 1), "").is_some());
    assert!(r.cached_decision(Device::Input, Proto::Tcp, to(9, 9, 9, 9, 5000), "").is_some());
}
