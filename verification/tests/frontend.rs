use gleipnir::frontend::{
    decode_target, display_rule_number, encode_target, sum_recent, InvalidQRule, ProgramStatus, QRule,
};
use gleipnir::policy::{Device, IpAddress, Proto, Rule, RuleTarget};

fn form() -> QRule {
    QRule {
        device: 0,
        proto: 0,
        exe: String::new(),
        port_begin: 0,
        port_end: 0,
        addr: None,
        mask: 0,
        target: 0,
    }
}

#[test]
fn target_numbers() {
    assert_eq!(encode_target(RuleTarget::Accept), 0);
    assert_eq!(encode_target(RuleTarget::Drop), 1);
    assert_eq!(encode_target(RuleTarget::RateLimit(0)), 2);
    assert_eq!(encode_target(RuleTarget::RateLimit(7)), 9);
    assert_eq!(decode_target(0), RuleTarget::Accept);
    assert_eq!(decode_target(1), RuleTarget::Drop);
    assert_eq!(decode_target(2), RuleTarget::RateLimit(0));
    assert_eq!(decode_target(9), RuleTarget::RateLimit(7));
    for code in 0..50 {
        assert_eq!(encode_target(decode_target(code)), code);
    }
}

#[test]
fn matched_rule_is_shown_from_one() {
    assert_eq!(display_rule_number(None), 0);
    assert_eq!(display_rule_number(Some(0)), 1);
    assert_eq!(display_rule_number(Some(41)), 42);
}

#[test]
fn empty_form_is_the_wildcard_rule() {
    let rule = form().to_rule().unwrap();
    assert_eq!(
        rule,
        Rule { device: None, proto: None, exe: None, port: None, subnet: None, target: RuleTarget::Accept }
    );
    assert_eq!(QRule::from_rule(&rule), form());
}

#[test]
fn full_form_round_trip() {
    let rule = Rule {
        device: Some(Device::Output),
        proto: Some(Proto::UdpLite),
        exe: Some(String::from("/usr/bin/curl")),
        port: Some((80, 443)),
        subnet: Some((IpAddress::v4(10, 0, 0, 0), 8)),
        target: RuleTarget::RateLimit(3),
    };
    let q = QRule::from_rule(&rule);
    assert_eq!(q.device, 2);
    assert_eq!(q.proto, 3);
    assert_eq!(q.exe, "/usr/bin/curl");
    assert_eq!((q.port_begin, q.port_end), (80, 443));
    assert_eq!(q.addr, Some(IpAddress::v4(10, 0, 0, 0)));
    assert_eq!(q.mask, 8);
    assert_eq!(q.target, 5);
    assert_eq!(q.to_rule(), Ok(rule));
}

#[test]
fn device_and_protocol_codes() {
    let mut q = form();
    q.device = 1;
    q.proto = 1;
    let r = q.to_rule().unwrap();
    assert_eq!((r.device, r.proto), (Some(Device::Input), Some(Proto::Tcp)));
    q.proto = 2;
    assert_eq!(q.to_rule().unwrap().proto, Some(Proto::Udp));
    q.device = 3;
    assert_eq!(q.to_rule(), Err(InvalidQRule::Device { code: 3 }));
    q.device = 2;
    q.proto = 4;
    assert_eq!(q.to_rule(), Err(InvalidQRule::Proto { code: 4 }));
}

#[test]
fn port_fields() {
    let mut q = form();
    q.port_begin = 8080;
    assert_eq!(q.to_rule().unwrap().port, Some((8080, 8080)));
    q.port_end = 9000;
    assert_eq!(q.to_rule().unwrap().port, Some((8080, 9000)));
    q.port_end = 8080;
    assert_eq!(q.to_rule().unwrap().port, Some((8080, 8080)));
    q.port_end = 80;
    assert_eq!(q.to_rule(), Err(InvalidQRule::PortRange { begin: 8080, end: 80 }));
    q.port_begin = 0;
    assert_eq!(q.to_rule().unwrap().port, Some((0, 80)));
}

#[test]
fn address_and_mask() {
    let mut q = form();
    q.mask = 24;
    assert_eq!(q.to_rule().unwrap().subnet, None);
    q.addr = Some(IpAddress::V6(1));
    assert_eq!(q.to_rule().unwrap().subnet, Some((IpAddress::V6(1), 24)));
}

#[test]
fn counters_go_by_direction() {
    let mut s = ProgramStatus::new("/bin/x");
    assert_eq!(s, ProgramStatus { exe: String::from("/bin/x"), sending: 0, receiving: 0 });
    s.record(false, Device::Input, 100);
    s.record(false, Device::Output, 7);
    s.record(true, Device::Input, 1000);
    s.record(true, Device::Output, 1000);
    assert_eq!((s.sending, s.receiving), (7, 100));
    assert!(s.try_record(false, Device::Output, 3));
    assert_eq!((s.sending, s.receiving), (10, 100));
    assert!(!s.try_record(false, Device::Input, usize::MAX));
    assert!(s.try_record(true, Device::Input, usize::MAX));
    assert_eq!((s.sending, s.receiving), (10, 100));
    assert_eq!(s.clone_new(), ProgramStatus::new("/bin/x"));
}

#[test]
fn chart_sums_the_last_entries() {
    let history = vec![1, 2, 3, 4, 5];
    assert_eq!(sum_recent(&history, 0), Some(0));
    assert_eq!(sum_recent(&history, 1), Some(5));
    assert_eq!(sum_recent(&history, 2), Some(9));
    assert_eq!(sum_recent(&history, 5), Some(15));
    assert_eq!(sum_recent(&history, 80), Some(15));
    assert_eq!(sum_recent(&vec![], 80), Some(0));
    assert_eq!(sum_recent(&vec![u32::MAX, 1], 1), Some(1));
    assert_eq!(sum_recent(&vec![u32::MAX, 1], 2), None);
}
