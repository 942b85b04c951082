use gleipnir::fingerprint::fingerprint;
use gleipnir::policy::{apply_mask_v4, apply_mask_v6, Device, IpAddress, Proto, Rule, RuleTarget, SocketAddress};

fn any_rule() -> Rule {
    Rule { device: None, proto: None, exe: None, port: None, subnet: None, target: RuleTarget::Accept }
}

fn to(ip: IpAddress, port: u16) -> SocketAddress {
    SocketAddress { ip, port }
}

#[test]
fn mask_v4_values() {
    let ip = 0x0102_0304;
    assert_eq!(apply_mask_v4(ip, 0), 0);
    assert_eq!(apply_mask_v4(ip, 24), 0x0102_0300);
    assert_eq!(apply_mask_v4(ip, 23), 0x0102_0200);
    assert_eq!(apply_mask_v4(ip, 32), ip);
    assert_eq!(apply_mask_v4(ip, 200), ip);
    assert_eq!(apply_mask_v4(0x0202_0202, 30), 0x0202_0200);
    assert_eq!(apply_mask_v4(0xffff_ffff, 1), 0x8000_0000);
}

#[test]
fn mask_v6_values() {
    let ip: u128 = 0x2001_0db8_aaaa_bbbb_cccc_dddd_eeee_ffff;
    assert_eq!(apply_mask_v6(ip, 0), 0);
    assert_eq!(apply_mask_v6(ip, 47), 0x2001_0db8_aaaa_0000_0000_0000_0000_0000);
    assert_eq!(apply_mask_v6(ip, 48), 0x2001_0db8_aaaa_0000_0000_0000_0000_0000);
    assert_eq!(apply_mask_v6(ip, 96), 0x2001_0db8_aaaa_bbbb_cccc_dddd_0000_0000);
    assert_eq!(apply_mask_v6(ip, 3), 0x2000_0000_0000_0000_0000_0000_0000_0000);
    assert_eq!(apply_mask_v6(ip, 128), ip);
    assert_eq!(apply_mask_v6(ip, 255), ip);
}

#[test]
fn address_constructors() {
    assert_eq!(IpAddress::v4(127, 0, 0, 1), IpAddress::V4(0x7f00_0001));
    assert_eq!(IpAddress::v6([0x2001, 0x0db8, 0, 0, 0, 0xff00, 0x0042, 0x8329]), IpAddress::V6(0x2001_0db8_0000_0000_0000_ff00_0042_8329));
    assert_eq!(IpAddress::v4(1, 2, 3, 4).mask(16), IpAddress::v4(1, 2, 0, 0));
    assert_eq!(IpAddress::v4(1, 2, 3, 4).bits(), 32);
    assert_eq!(IpAddress::V6(5).bits(), 128);
    assert!(IpAddress::v4(1, 2, 3, 4).is_ipv4());
    assert!(!IpAddress::V6(5).is_ipv4());
}

#[test]
fn protocol_numbers() {
    assert_eq!(Proto::Tcp.number(), 6);
    assert_eq!(Proto::Udp.number(), 17);
    assert_eq!(Proto::UdpLite.number(), 136);
    assert!(Device::Input.is_input());
    assert!(!Device::Output.is_input());
}

#[test]
fn wildcard_rule_matches_everything() {
    let r = any_rule();
    assert_eq!(r.match_target(Device::Input, Proto::Tcp, to(IpAddress::v4(1, 2, 3, 4), 5), "/bin/sh"), Some(RuleTarget::Accept));
    assert_eq!(r.match_target(Device::Output, Proto::UdpLite, to(IpAddress::V6(9), 0), ""), Some(RuleTarget::Accept));
}

#[test]
fn each_filter_can_refuse() {
    let a = to(IpAddress::v4(10, 1, 2, 3), 443);
    let base = Rule {
        device: Some(Device::Output),
        proto: Some(Proto::Tcp),
        exe: Some(String::from("/usr/bin/curl")),
        port: Some((443, 443)),
        subnet: Some((IpAddress::v4(10, 1, 0, 0), 16)),
        target: RuleTarget::RateLimit(2),
    };
    assert_eq!(base.match_target(Device::Output, Proto::Tcp, a, "/usr/bin/curl"), Some(RuleTarget::RateLimit(2)));
    assert_eq!(base.match_target(Device::Input, Proto::Tcp, a, "/usr/bin/curl"), None);
    assert_eq!(base.match_target(Device::Output, Proto::Udp, a, "/usr/bin/curl"), None);
    assert_eq!(base.match_target(Device::Output, Proto::Tcp, a, "/usr/bin/curl2"), None);
    assert_eq!(base.match_target(Device::Output, Proto::Tcp, a, ""), None);
    assert_eq!(base.match_target(Device::Output, Proto::Tcp, to(a.ip, 444), "/usr/bin/curl"), None);
    assert_eq!(base.match_target(Device::Output, Proto::Tcp, to(IpAddress::v4(10, 2, 2, 3), 443), "/usr/bin/curl"), None);
    assert_eq!(base.match_target(Device::Output, Proto::Tcp, to(IpAddress::V6(0x0a01_0203), 443), "/usr/bin/curl"), None);
}

#[test]
fn subnet_prefix_need_not_be_normalised() {
    let mut r = any_rule();
    r.subnet = Some((IpAddress::v4(2, 2, 2, 2), 30));
    for last in 0..4 {
        assert!(r.match_target(Device::Input, Proto::Tcp, to(IpAddress::v4(2, 2, 2, last), 1), "").is_some());
    }
    assert!(r.match_target(Device::Input, Proto::Tcp, to(IpAddress::v4(2, 2, 2, 4), 1), "").is_none());
    r.subnet = Some((IpAddress::v4(200, 1, 1, 1), 0));
    assert!(r.match_target(Device::Input, Proto::Tcp, to(IpAddress::v4(9, 9, 9, 9), 1), "").is_some());
    assert!(r.match_target(Device::Input, Proto::Tcp, to(IpAddress::V6(9), 1), "").is_none());
}

#[test]
fn port_range_is_inclusive() {
    let mut r = any_rule();
    r.port = Some((10, 200));
    let at = |port| to(IpAddress::v4(1, 1, 1, 1), port);
    assert!(r.match_target(Device::Input, Proto::Tcp, at(10), "").is_some());
    assert!(r.match_target(Device::Input, Proto::Tcp, at(200), "").is_some());
    assert!(r.match_target(Device::Input, Proto::Tcp, at(9), "").is_none());
    assert!(r.match_target(Device::Input, Proto::Tcp, at(201), "").is_none());
}

#[test]
fn fingerprint_goes_by_the_descriptor() {
    let a = to(IpAddress::v4(1, 1, 1, 1), 53);
    let h = fingerprint(Device::Input, Proto::Tcp, a, "x");
    assert_eq!(h, fingerprint(Device::Input, Proto::Tcp, a, "x"));
    assert_ne!(h, fingerprint(Device::Output, Proto::Tcp, a, "x"));
    assert_ne!(h, fingerprint(Device::Input, Proto::Udp, a, "x"));
    assert_ne!(h, fingerprint(Device::Input, Proto::Tcp, to(a.ip, 54), "x"));
    assert_ne!(h, fingerprint(Device::Input, Proto::Tcp, to(IpAddress::v4(1, 1, 1, 2), 53), "x"));
    assert_ne!(h, fingerprint(Device::Input, Proto::Tcp, to(IpAddress::V6(0x0101_0101), 53), "x"));
    assert_ne!(h, fingerprint(Device::Input, Proto::Tcp, a, "y"));
}
