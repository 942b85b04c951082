use gleipnir::netlink::{
    retain, select, ByteOrder, InetDiagMsg, InetDiagReqV2, Ipv4or6, Port,
    QueryError, AF_INET, AF_INET6, MESSAGE_SIZE, REQUEST_SIZE,
};
use gleipnir::netlink::{port_round_trip, request_flags};
use gleipnir::policy::{IpAddress, Proto, SocketAddress};

fn endpoint(ip: IpAddress, port: u16) -> SocketAddress {
    SocketAddress { ip, port }
}

fn response(src: IpAddress, sport: u16, dst: IpAddress, dport: u16, inode: u32, uid: u32) -> Vec<u8> {
    let mut bytes = vec![0u8; MESSAGE_SIZE];
    bytes[0] = if src.is_ipv4() { AF_INET } else { AF_INET6 };
    bytes[4..6].copy_from_slice(&sport.to_be_bytes());
    bytes[6..8].copy_from_slice(&dport.to_be_bytes());
    match src {
        IpAddress::V4(a) => bytes[8..12].copy_from_slice(&a.to_be_bytes()),
        IpAddress::V6(a) => bytes[8..24].copy_from_slice(&a.to_be_bytes()),
    }
    match dst {
        IpAddress::V4(a) => bytes[24..28].copy_from_slice(&a.to_be_bytes()),
        IpAddress::V6(a) => bytes[24..40].copy_from_slice(&a.to_be_bytes()),
    }
    bytes[64..68].copy_from_slice(&uid.to_le_bytes());
    bytes[68..72].copy_from_slice(&inode.to_le_bytes());
    bytes
}

#[test]
fn ipv4or6_convert_stdipaddr() {
    let v4 = IpAddress::v4(127, 0, 0, 1);
    let ipv4or6 = Ipv4or6::from_ip(v4);
    assert_eq!(IpAddress::V4(ipv4or6.to_v4()), v4);

    let v6 = IpAddress::v6([0x2001, 0x0db8, 0x0000, 0x0000, 0x0000, 0xff00, 0x0042, 0x8329]);
    let ipv4or6 = Ipv4or6::from_ip(v6);
    assert_eq!(IpAddress::V6(ipv4or6.to_v6()), v6);
}

#[test]
fn port_convert_u16() {
    let port = Port::from(1234);
    assert_eq!(u16::from(port), 1234);
}

#[test]
fn port_round_trip_over_all_numbers() {
    for n in 0..=u16::MAX {
        assert_eq!(Port::new(n).get(), n);
        assert_eq!(port_round_trip(n), n);
    }
}

#[test]
fn port_bytes_are_big_endian() {
    let req = InetDiagReqV2::new(
        Proto::Tcp,
        endpoint(IpAddress::v4(10, 0, 0, 1), 0x1234),
        endpoint(IpAddress::v4(10, 0, 0, 2), 80),
    )
    .unwrap();
    let bytes = req.packet(ByteOrder::Little);
    assert_eq!(&bytes[8..10], &[0x12, 0x34]);
    assert_eq!(&bytes[10..12], &[0, 80]);
}

#[test]
fn v4_address_fills_first_four_bytes() {
    let stored = Ipv4or6::from_v4(0x7f00_0001);
    assert_eq!(stored.to_v4(), 0x7f00_0001);
    assert_eq!(stored.to_v6(), 0x7f00_0001u128 << 96);
    assert!(stored.matches_ip(IpAddress::v4(127, 0, 0, 1)));
    assert!(!stored.matches_ip(IpAddress::v4(127, 0, 0, 2)));
}

#[test]
fn v6_address_round_trip() {
    let a: u128 = 0x2001_0db8_0000_0000_0000_ff00_0042_8329;
    let stored = Ipv4or6::from_v6(a);
    assert_eq!(stored.to_v6(), a);
    assert_eq!(Ipv4or6::from_v6(stored.to_v6()), stored);
    assert!(stored.matches_ip(IpAddress::V6(a)));
    assert!(!stored.matches_ip(IpAddress::V6(a + 1)));
}

#[test]
fn v4_bytes_round_trip() {
    let stored = Ipv4or6::from_v4(0x0102_0304);
    assert_eq!(Ipv4or6::from_v4(stored.to_v4()), stored);
}

#[test]
fn request_layout_tcp_v4() {
    let local = endpoint(IpAddress::v4(192, 168, 1, 2), 40000);
    let remote = endpoint(IpAddress::v4(1, 1, 1, 1), 443);
    let req = InetDiagReqV2::new(Proto::Tcp, local, remote).unwrap();
    let bytes = req.packet(ByteOrder::Little);
    assert_eq!(bytes.len(), REQUEST_SIZE);
    assert_eq!(bytes.len(), 56);
    let mut expected = vec![2u8, 6, 0, 0, 0xff, 0xff, 0xff, 0xff];
    expected.extend_from_slice(&40000u16.to_be_bytes());
    expected.extend_from_slice(&443u16.to_be_bytes());
    expected.extend_from_slice(&[192, 168, 1, 2, 0, 0, 0, 0, 0, 0, 0, 0, 0, 0, 0, 0]);
    expected.extend_from_slice(&[1, 1, 1, 1, 0, 0, 0, 0, 0, 0, 0, 0, 0, 0, 0, 0]);
    expected.extend_from_slice(&[0, 0, 0, 0]);
    expected.extend_from_slice(&[0xff; 8]);
    assert_eq!(bytes, expected);
    assert_eq!(req.packet(ByteOrder::Big), expected);
}

#[test]
fn request_layout_udplite_v6() {
    let a: u128 = 0x2001_0db8_0000_0000_0000_ff00_0042_8329;
    let local = endpoint(IpAddress::V6(a), 53);
    let remote = endpoint(IpAddress::V6(1), 5353);
    let req = InetDiagReqV2::new(Proto::UdpLite, local, remote).unwrap();
    assert_eq!(req.sdiag_family, 10);
    assert_eq!(req.sdiag_protocol, 136);
    assert_eq!(req.idiag_states, 0xffff_ffff);
    assert_eq!(req.id.idiag_if, 0);
    assert_eq!(req.id.idiag_cookie, [0xffff_ffff, 0xffff_ffff]);
    let bytes = req.packet(ByteOrder::Little);
    assert_eq!(&bytes[12..28], &a.to_be_bytes());
    assert_eq!(&bytes[28..44], &1u128.to_be_bytes());
}

#[test]
fn request_protocol_numbers() {
    let local = endpoint(IpAddress::v4(10, 0, 0, 1), 1);
    let remote = endpoint(IpAddress::v4(10, 0, 0, 2), 2);
    assert_eq!(InetDiagReqV2::new(Proto::Tcp, local, remote).unwrap().sdiag_protocol, 6);
    assert_eq!(InetDiagReqV2::new(Proto::Udp, local, remote).unwrap().sdiag_protocol, 17);
    assert_eq!(InetDiagReqV2::new(Proto::UdpLite, local, remote).unwrap().sdiag_protocol, 136);
}

#[test]
fn request_refuses_mixed_families() {
    let local = endpoint(IpAddress::v4(10, 0, 0, 1), 1);
    let remote = endpoint(IpAddress::V6(1), 2);
    assert_eq!(InetDiagReqV2::new(Proto::Tcp, local, remote), Err(QueryError::FamilyMismatch));
    assert_eq!(InetDiagReqV2::new(Proto::Tcp, remote, local), Err(QueryError::FamilyMismatch));
}

#[test]
fn flags_ask_for_matches_only_off_tcp() {
    assert_eq!(request_flags(Proto::Tcp), 0x001);
    assert_eq!(request_flags(Proto::Udp), 0x201);
    assert_eq!(request_flags(Proto::UdpLite), 0x201);
}

#[test]
fn decode_reads_every_field() {
    let mut bytes = vec![0u8; 72];
    for (i, b) in bytes.iter_mut().enumerate() {
        *b = i as u8 + 1;
    }
    let m = InetDiagMsg::decode(&bytes, ByteOrder::Little).unwrap();
    assert_eq!(m.idiag_family, 1);
    assert_eq!(m.idiag_state, 2);
    assert_eq!(m.idiag_timer, 3);
    assert_eq!(m.idiag_retrans, 4);
    assert_eq!(m.id.idiag_sport.get(), 0x0506);
    assert_eq!(m.id.idiag_dport.get(), 0x0708);
    assert_eq!(m.id.idiag_src.to_v4(), 0x090a_0b0c);
    assert_eq!(m.id.idiag_src.to_v6(), 0x090a_0b0c_0d0e_0f10_1112_1314_1516_1718);
    assert_eq!(m.id.idiag_dst.to_v6(), 0x191a_1b1c_1d1e_1f20_2122_2324_2526_2728);
    assert_eq!(m.id.idiag_if, 0x2c2b_2a29);
    assert_eq!(m.id.idiag_cookie, [0x302f_2e2d, 0x3433_3231]);
    assert_eq!(m.idiag_expires, 0x3837_3635);
    assert_eq!(m.idiag_rqueue, 0x3c3b_3a39);
    assert_eq!(m.idiag_wqueue, 0x403f_3e3d);
    assert_eq!(m.idiag_uid, 0x4443_4241);
    assert_eq!(m.idiag_inode, 0x4847_4645);
    let big = InetDiagMsg::decode(&bytes, ByteOrder::Big).unwrap();
    assert_eq!(big.id.idiag_sport.get(), 0x0506);
    assert_eq!(big.id.idiag_if, 0x292a_2b2c);
    assert_eq!(big.idiag_inode, 0x4546_4748);
}

#[test]
fn decode_refuses_short_payload() {
    assert_eq!(InetDiagMsg::decode(&[0u8; 71], ByteOrder::Little), None);
    assert_eq!(InetDiagMsg::decode(&[], ByteOrder::Little), None);
    assert!(InetDiagMsg::decode(&[0u8; 72], ByteOrder::Little).is_some());
    assert!(InetDiagMsg::decode(&[0u8; 100], ByteOrder::Little).is_some());
}

#[test]
fn answer_needs_all_four_fields_and_an_inode() {
    let l = endpoint(IpAddress::v4(10, 0, 0, 1), 1000);
    let r = endpoint(IpAddress::v4(10, 0, 0, 2), 2000);
    let msg = |src, sport, dst, dport, inode| {
        InetDiagMsg::decode(&response(src, sport, dst, dport, inode, 7), ByteOrder::Little).unwrap()
    };
    assert!(msg(l.ip, 1000, r.ip, 2000, 5).is_answer(l, r));
    assert!(!msg(l.ip, 1000, r.ip, 2000, 0).is_answer(l, r));
    assert!(!msg(l.ip, 1001, r.ip, 2000, 5).is_answer(l, r));
    assert!(!msg(l.ip, 1000, r.ip, 2001, 5).is_answer(l, r));
    assert!(!msg(IpAddress::v4(10, 0, 0, 9), 1000, r.ip, 2000, 5).is_answer(l, r));
    assert!(!msg(l.ip, 1000, IpAddress::v4(0, 0, 0, 0), 2000, 5).is_answer(l, r));
}

#[test]
fn select_takes_the_last_answer() {
    let l = endpoint(IpAddress::v4(10, 0, 0, 1), 1000);
    let r = endpoint(IpAddress::v4(10, 0, 0, 2), 2000);
    let decode = |bytes: Vec<u8>| InetDiagMsg::decode(&bytes, ByteOrder::Little).unwrap();
    let wildcard = decode(response(IpAddress::v4(0, 0, 0, 0), 1000, r.ip, 2000, 11, 1));
    let first = decode(response(l.ip, 1000, r.ip, 2000, 22, 2));
    let closing = decode(response(l.ip, 1000, r.ip, 2000, 0, 3));
    let second = decode(response(l.ip, 1000, r.ip, 2000, 44, 4));
    let other = decode(response(l.ip, 1000, r.ip, 2001, 55, 5));

    let picked = select(&vec![wildcard, first, closing, second, other], l, r).unwrap();
    assert_eq!(picked.idiag_inode, 44);
    assert_eq!(picked.idiag_uid, 4);
    assert_eq!(select(&vec![first, wildcard], l, r).unwrap().idiag_inode, 22);
    assert_eq!(select(&vec![wildcard, closing, other], l, r), Err(QueryError::NotFound));
    assert_eq!(select(&vec![], l, r), Err(QueryError::NotFound));
}

#[test]
fn retain_keeps_or_replaces() {
    let l = endpoint(IpAddress::V6(7), 1);
    let r = endpoint(IpAddress::V6(8), 2);
    let decode = |bytes: Vec<u8>| InetDiagMsg::decode(&bytes, ByteOrder::Little).unwrap();
    let good = decode(response(l.ip, 1, r.ip, 2, 9, 0));
    let bad = decode(response(l.ip, 1, r.ip, 3, 9, 0));
    assert_eq!(retain(None, good, l, r), Some(good));
    assert_eq!(retain(None, bad, l, r), None);
    assert_eq!(retain(Some(good), bad, l, r), Some(good));
}
