//! The wire records of the kernel's socket-diagnostics protocol: the request
//! for one five-tuple, the decoding of a response, and the choice among the
//! responses.

use vstd::prelude::*;
use crate::policy::{IpAddress, Proto, SocketAddress};

verus! {

/// Message type of a socket-diagnostics request by family.
pub const SOCK_DIAG_BY_FAMILY: u16 = 20;

/// Cookie value that matches any socket.
pub const INET_DIAG_NOCOOKIE: u32 = 0xffff_ffff;

/// Address family number of IPv4.
pub const AF_INET: u8 = 2;

/// Address family number of IPv6.
pub const AF_INET6: u8 = 10;

/// Netlink flag of a request message.
pub const NLM_F_REQUEST: u16 = 0x001;

/// Netlink flag that asks for all sockets that match.
pub const NLM_F_MATCH: u16 = 0x200;

/// Size in bytes of an encoded request.
pub const REQUEST_SIZE: usize = 56;

/// Size in bytes of an encoded response.
pub const MESSAGE_SIZE: usize = 72;

/// A port number in network byte order.
#[derive(Clone, Copy, Debug, PartialEq, Eq)]
pub struct Port([u8; 2]);

impl Port {
    /// The two bytes, most significant first.
    pub closed spec fn bytes(self) -> Seq<u8> {
        self.0@
    }

    /// The port number that the two bytes hold.
    pub open spec fn value(self) -> u16 {
        ((self.bytes()[0] as u16) << 8u16) | (self.bytes()[1] as u16)
    }

    /// The port with the bytes of `port`, most significant first.
    pub closed spec fn of(port: u16) -> Port {
        Port([(port >> 8u16) as u8, port as u8])
    }

    /// Encodes a port number.
    pub fn new(port: u16) -> (p: Port)
        ensures
            p == Port::of(port),
            p.bytes() == seq![(port >> 8u16) as u8, port as u8],
            p.value() == port,
    {
        let hi: u8 = #[verifier::truncate] ((port >> 8u16) as u8);
        let lo: u8 = #[verifier::truncate] (port as u8);
        proof {
            lemma_port_round_trip(port);
        }
        let p = Port([hi, lo]);
        assert(p.bytes() =~= seq![(port >> 8u16) as u8, port as u8]);
        p
    }

    /// Decodes the port number.
    pub fn get(self) -> (port: u16)
        ensures
            port == self.value(),
    {
        ((self.0[0] as u16) << 8u16) | (self.0[1] as u16)
    }
}

impl From<u16> for Port {
    fn from(port: u16) -> (p: Port) {
        Port::new(port)
    }
}

impl vstd::std_specs::convert::FromSpecImpl<u16> for Port {
    open spec fn obeys_from_spec() -> bool {
        true
    }

    open spec fn from_spec(port: u16) -> Port {
        Port::of(port)
    }
}

impl From<Port> for u16 {
    fn from(port: Port) -> (n: u16) {
        port.get()
    }
}

impl vstd::std_specs::convert::FromSpecImpl<Port> for u16 {
    open spec fn obeys_from_spec() -> bool {
        true
    }

    open spec fn from_spec(port: Port) -> u16 {
        port.value()
    }
}

/// Encoding a port number and decoding it again gives the number back.
pub proof fn lemma_port_round_trip(port: u16)
    ensures
        Port::of(port).bytes() == seq![(port >> 8u16) as u8, port as u8],
        Port::of(port).value() == port,
{
    assert(Port::of(port).bytes() =~= seq![(port >> 8u16) as u8, port as u8]);
    assert(((((port >> 8u16) as u8) as u16) << 8u16) | ((port as u8) as u16) == port) by (bit_vector);
}

/// Decoding a port and encoding the number again gives the port back.
pub proof fn lemma_port_bytes_round_trip(p: Port)
    ensures
        Port::of(p.value()).bytes() == p.bytes(),
{
    let hi = p.bytes()[0];
    let lo = p.bytes()[1];
    let v = ((hi as u16) << 8u16) | (lo as u16);
    assert((v >> 8u16) as u8 == hi && v as u8 == lo) by (bit_vector)
        requires
            v == ((hi as u16) << 8u16) | (lo as u16),
    ;
    assert(Port::of(p.value()).0@ =~= p.0@);
}

/// Through the conversions: a number made a port and a number again is
/// the number it was.
pub fn port_round_trip(port: u16) -> (back: u16)
    ensures
        back == port,
{
    proof {
        lemma_port_round_trip(port);
    }
    let p = Port::from(port);
    u16::from(p)
}

/// An IP address as the kernel stores it: sixteen bytes in network order,
/// of which an IPv4 address fills the first four and leaves the rest zero.
#[derive(Clone, Copy, Debug, PartialEq, Eq)]
pub struct Ipv4or6([u8; 16]);

/// The sixteen bytes that hold the IPv4 address `a`.
pub open spec fn v4_octets(a: u32) -> Seq<u8> {
    seq![
        (a >> 24u32) as u8,
            (a >> 16u32) as u8,
            (a >> 8u32) as u8,
            a as u8,
        0u8, 0u8, 0u8, 0u8, 0u8, 0u8, 0u8, 0u8, 0u8, 0u8, 0u8, 0u8,
    ]
}

/// The sixteen bytes that hold the IPv6 address `a`.
pub open spec fn v6_octets(a: u128) -> Seq<u8> {
    seq![
        (a >> 120u128) as u8,
            (a >> 112u128) as u8,
            (a >> 104u128) as u8,
            (a >> 96u128) as u8,
            (a >> 88u128) as u8,
            (a >> 80u128) as u8,
            (a >> 72u128) as u8,
            (a >> 64u128) as u8,
            (a >> 56u128) as u8,
            (a >> 48u128) as u8,
            (a >> 40u128) as u8,
            (a >> 32u128) as u8,
            (a >> 24u128) as u8,
            (a >> 16u128) as u8,
            (a >> 8u128) as u8,
            a as u8,
    ]
}

impl Ipv4or6 {
    /// The sixteen bytes.
    pub closed spec fn octets(self) -> Seq<u8> {
        self.0@
    }

    /// The IPv4 address in the first four bytes.
    pub open spec fn v4_value(self) -> u32 {
        ((self.octets()[0] as u32) << 24u32) | ((self.octets()[1] as u32) << 16u32) | ((self.octets()[2] as u32) << 8u32) | (self.octets()[3] as u32)
    }

    /// The IPv6 address in the sixteen bytes.
    pub open spec fn v6_value(self) -> u128 {
        ((self.octets()[0] as u128) << 120u128) | ((self.octets()[1] as u128) << 112u128) | ((self.octets()[2] as u128) << 104u128) | ((self.octets()[3] as u128) << 96u128) | ((self.octets()[4] as u128) << 88u128) | ((self.octets()[5] as u128) << 80u128) | ((self.octets()[6] as u128) << 72u128) | ((self.octets()[7] as u128) << 64u128) | ((self.octets()[8] as u128) << 56u128) | ((self.octets()[9] as u128) << 48u128) | ((self.octets()[10] as u128) << 40u128) | ((self.octets()[11] as u128) << 32u128) | ((self.octets()[12] as u128) << 24u128) | ((self.octets()[13] as u128) << 16u128) | ((self.octets()[14] as u128) << 8u128) | (self.octets()[15] as u128)
    }

    /// Whether the bytes after the first four are zero.
    pub open spec fn is_v4(self) -> bool {
        forall|k: int| 4 <= k < 16 ==> self.octets()[k] == 0
    }

    /// Whether the bytes hold `ip`: for an IPv4 address the first four
    /// bytes count, for an IPv6 address all sixteen.
    pub open spec fn holds(self, ip: IpAddress) -> bool {
        match ip {
            IpAddress::V4(a) => self.v4_value() == a,
            IpAddress::V6(a) => self.v6_value() == a,
        }
    }

    /// The bytes that hold `ip`.
    pub open spec fn octets_of(ip: IpAddress) -> Seq<u8> {
        match ip {
            IpAddress::V4(a) => v4_octets(a),
            IpAddress::V6(a) => v6_octets(a),
        }
    }

    /// Stores an IPv4 address.
    pub fn from_v4(a: u32) -> (r: Ipv4or6)
        ensures
            r.octets() == v4_octets(a),
            r.v4_value() == a,
            r.is_v4(),
    {
        proof {
            lemma_v4_round_trip(a);
        }
        let r = Ipv4or6([
            #[verifier::truncate] ((a >> 24u32) as u8),
            #[verifier::truncate] ((a >> 16u32) as u8),
            #[verifier::truncate] ((a >> 8u32) as u8),
            #[verifier::truncate] (a as u8),
            0, 0, 0, 0, 0, 0, 0, 0, 0, 0, 0, 0,
        ]);
        assert(r.octets() =~= v4_octets(a));
        r
    }

    /// Stores an IPv6 address.
    pub fn from_v6(a: u128) -> (r: Ipv4or6)
        ensures
            r.octets() == v6_octets(a),
            r.v6_value() == a,
    {
        proof {
            lemma_v6_round_trip(a);
        }
        let r = Ipv4or6([
            #[verifier::truncate] ((a >> 120u128) as u8),
            #[verifier::truncate] ((a >> 112u128) as u8),
            #[verifier::truncate] ((a >> 104u128) as u8),
            #[verifier::truncate] ((a >> 96u128) as u8),
            #[verifier::truncate] ((a >> 88u128) as u8),
            #[verifier::truncate] ((a >> 80u128) as u8),
            #[verifier::truncate] ((a >> 72u128) as u8),
            #[verifier::truncate] ((a >> 64u128) as u8),
            #[verifier::truncate] ((a >> 56u128) as u8),
            #[verifier::truncate] ((a >> 48u128) as u8),
            #[verifier::truncate] ((a >> 40u128) as u8),
            #[verifier::truncate] ((a >> 32u128) as u8),
            #[verifier::truncate] ((a >> 24u128) as u8),
            #[verifier::truncate] ((a >> 16u128) as u8),
            #[verifier::truncate] ((a >> 8u128) as u8),
            #[verifier::truncate] (a as u8),
        ]);
        assert(r.octets() =~= v6_octets(a));
        r
    }

    /// Stores an address of either family.
    pub fn from_ip(ip: IpAddress) -> (r: Ipv4or6)
        ensures
            r.octets() == Ipv4or6::octets_of(ip),
            r.holds(ip),
    {
        match ip {
            IpAddress::V4(a) => Ipv4or6::from_v4(a),
            IpAddress::V6(a) => Ipv4or6::from_v6(a),
        }
    }

    /// Reads the first four bytes as an IPv4 address.
    pub fn to_v4(self) -> (a: u32)
        ensures
            a == self.v4_value(),
    {
        ((self.0[0] as u32) << 24u32) | ((self.0[1] as u32) << 16u32) | ((self.0[2] as u32) << 8u32) | (self.0[3] as u32)
    }

    /// Reads the sixteen bytes as an IPv6 address.
    pub fn to_v6(self) -> (a: u128)
        ensures
            a == self.v6_value(),
    {
        ((self.0[0] as u128) << 120u128) | ((self.0[1] as u128) << 112u128) | ((self.0[2] as u128) << 104u128) | ((self.0[3] as u128) << 96u128) | ((self.0[4] as u128) << 88u128) | ((self.0[5] as u128) << 80u128) | ((self.0[6] as u128) << 72u128) | ((self.0[7] as u128) << 64u128) | ((self.0[8] as u128) << 56u128) | ((self.0[9] as u128) << 48u128) | ((self.0[10] as u128) << 40u128) | ((self.0[11] as u128) << 32u128) | ((self.0[12] as u128) << 24u128) | ((self.0[13] as u128) << 16u128) | ((self.0[14] as u128) << 8u128) | (self.0[15] as u128)
    }

    /// Whether the bytes hold `ip`.
    pub fn matches_ip(self, ip: IpAddress) -> (r: bool)
        ensures
            r == self.holds(ip),
    {
        match ip {
            IpAddress::V4(a) => self.to_v4() == a,
            IpAddress::V6(a) => self.to_v6() == a,
        }
    }
}

/// Storing an IPv4 address and reading it again gives the address back.
pub proof fn lemma_v4_round_trip(a: u32)
    ensures
        ((v4_octets(a)[0] as u32) << 24u32) | ((v4_octets(a)[1] as u32) << 16u32) | ((v4_octets(a)[2] as u32) << 8u32) | (v4_octets(a)[3] as u32) == a,
{
    assert(((((a >> 24u32) as u8) as u32) << 24u32) | ((((a >> 16u32) as u8) as u32) << 16u32) | ((((a >> 8u32) as u8) as u32) << 8u32) | ((a as u8) as u32) == a) by (bit_vector);
}

/// Reading an IPv4 address and storing it again gives the same bytes,
/// where the bytes after the first four were zero.
pub proof fn lemma_v4_bytes_round_trip(x: Ipv4or6)
    requires
        x.is_v4(),
    ensures
        v4_octets(x.v4_value()) == x.octets(),
{
    let b0 = x.octets()[0];
    let b1 = x.octets()[1];
    let b2 = x.octets()[2];
    let b3 = x.octets()[3];
    let v = x.v4_value();
    assert((v >> 24u32) as u8 == b0 && (v >> 16u32) as u8 == b1 && (v >> 8u32) as u8 == b2 && v as u8 == b3) by (bit_vector)
        requires
            v == ((b0 as u32) << 24u32) | ((b1 as u32) << 16u32) | ((b2 as u32) << 8u32) | (b3 as u32),
    ;
    assert(x.octets().len() == 16);
    assert(v4_octets(v) =~= x.octets());
}

/// Storing an IPv6 address and reading it again gives the address back.
pub proof fn lemma_v6_round_trip(a: u128)
    ensures
        ((v6_octets(a)[0] as u128) << 120u128) | ((v6_octets(a)[1] as u128) << 112u128) | ((v6_octets(a)[2] as u128) << 104u128) | ((v6_octets(a)[3] as u128) << 96u128) | ((v6_octets(a)[4] as u128) << 88u128) | ((v6_octets(a)[5] as u128) << 80u128) | ((v6_octets(a)[6] as u128) << 72u128) | ((v6_octets(a)[7] as u128) << 64u128) | ((v6_octets(a)[8] as u128) << 56u128) | ((v6_octets(a)[9] as u128) << 48u128) | ((v6_octets(a)[10] as u128) << 40u128) | ((v6_octets(a)[11] as u128) << 32u128) | ((v6_octets(a)[12] as u128) << 24u128) | ((v6_octets(a)[13] as u128) << 16u128) | ((v6_octets(a)[14] as u128) << 8u128) | (v6_octets(a)[15] as u128) == a,
{
    assert(((((a >> 120u128) as u8) as u128) << 120u128) | ((((a >> 112u128) as u8) as u128) << 112u128) | ((((a >> 104u128) as u8) as u128) << 104u128) | ((((a >> 96u128) as u8) as u128) << 96u128) | ((((a >> 88u128) as u8) as u128) << 88u128) | ((((a >> 80u128) as u8) as u128) << 80u128) | ((((a >> 72u128) as u8) as u128) << 72u128) | ((((a >> 64u128) as u8) as u128) << 64u128) | ((((a >> 56u128) as u8) as u128) << 56u128) | ((((a >> 48u128) as u8) as u128) << 48u128) | ((((a >> 40u128) as u8) as u128) << 40u128) | ((((a >> 32u128) as u8) as u128) << 32u128) | ((((a >> 24u128) as u8) as u128) << 24u128) | ((((a >> 16u128) as u8) as u128) << 16u128) | ((((a >> 8u128) as u8) as u128) << 8u128) | ((a as u8) as u128) == a) by (bit_vector);
}

/// Reading an IPv6 address and storing it again gives the same bytes.
pub proof fn lemma_v6_bytes_round_trip(x: Ipv4or6)
    ensures
        v6_octets(x.v6_value()) == x.octets(),
{
    let b0 = x.octets()[0];
    let b1 = x.octets()[1];
    let b2 = x.octets()[2];
    let b3 = x.octets()[3];
    let b4 = x.octets()[4];
    let b5 = x.octets()[5];
    let b6 = x.octets()[6];
    let b7 = x.octets()[7];
    let b8 = x.octets()[8];
    let b9 = x.octets()[9];
    let b10 = x.octets()[10];
    let b11 = x.octets()[11];
    let b12 = x.octets()[12];
    let b13 = x.octets()[13];
    let b14 = x.octets()[14];
    let b15 = x.octets()[15];
    let v = x.v6_value();
    assert((v >> 120u128) as u8 == b0 && (v >> 112u128) as u8 == b1 && (v >> 104u128) as u8 == b2 && (v >> 96u128) as u8 == b3 && (v >> 88u128) as u8 == b4 && (v >> 80u128) as u8 == b5 && (v >> 72u128) as u8 == b6 && (v >> 64u128) as u8 == b7 && (v >> 56u128) as u8 == b8 && (v >> 48u128) as u8 == b9 && (v >> 40u128) as u8 == b10 && (v >> 32u128) as u8 == b11 && (v >> 24u128) as u8 == b12 && (v >> 16u128) as u8 == b13 && (v >> 8u128) as u8 == b14 && v as u8 == b15) by (bit_vector)
        requires
            v == ((b0 as u128) << 120u128) | ((b1 as u128) << 112u128) | ((b2 as u128) << 104u128) | ((b3 as u128) << 96u128) | ((b4 as u128) << 88u128) | ((b5 as u128) << 80u128) | ((b6 as u128) << 72u128) | ((b7 as u128) << 64u128) | ((b8 as u128) << 56u128) | ((b9 as u128) << 48u128) | ((b10 as u128) << 40u128) | ((b11 as u128) << 32u128) | ((b12 as u128) << 24u128) | ((b13 as u128) << 16u128) | ((b14 as u128) << 8u128) | (b15 as u128),
    ;
    assert(x.octets().len() == 16);
    assert(v6_octets(v) =~= x.octets());
}

/// The order of the bytes of the kernel's own integers: that of the host.
#[derive(Clone, Copy, Debug, PartialEq, Eq, Structural)]
pub enum ByteOrder {
    Little,
    Big,
}

/// Why a query has no answer.
#[derive(Clone, Copy, Debug, PartialEq, Eq, Structural)]
pub enum QueryError {
    /// The two addresses of the query are of different families.
    FamilyMismatch,
    /// No response names a live socket with exactly the queried endpoints.
    NotFound,
}

/// The identity of a socket: its two endpoints, interface and cookie.
#[derive(Clone, Copy, Debug, PartialEq, Eq)]
pub struct InetDiagSockId {
    pub idiag_sport: Port,
    pub idiag_dport: Port,
    pub idiag_src: Ipv4or6,
    pub idiag_dst: Ipv4or6,
    pub idiag_if: u32,
    pub idiag_cookie: [u32; 2],
}

/// One response of the kernel: a socket with its owner and queue state.
#[derive(Clone, Copy, Debug, PartialEq, Eq)]
pub struct InetDiagMsg {
    pub idiag_family: u8,
    pub idiag_state: u8,
    pub idiag_timer: u8,
    pub idiag_retrans: u8,
    pub id: InetDiagSockId,
    pub idiag_expires: u32,
    pub idiag_rqueue: u32,
    pub idiag_wqueue: u32,
    pub idiag_uid: u32,
    pub idiag_inode: u32,
}

/// A request for the sockets of one five-tuple.
#[derive(Clone, Copy, Debug, PartialEq, Eq)]
pub struct InetDiagReqV2 {
    pub sdiag_family: u8,
    pub sdiag_protocol: u8,
    pub idiag_ext: u8,
    pub pad: u8,
    pub idiag_states: u32,
    pub id: InetDiagSockId,
}

/// The four bytes of `v` in the given order.
pub open spec fn word_bytes(v: u32, order: ByteOrder) -> Seq<u8> {
    match order {
        ByteOrder::Big => seq![(v >> 24u32) as u8, (v >> 16u32) as u8, (v >> 8u32) as u8, v as u8],
        ByteOrder::Little => seq![v as u8, (v >> 8u32) as u8, (v >> 16u32) as u8, (v >> 24u32) as u8],
    }
}

/// The integer that four bytes from position `at` hold in the given order.
pub open spec fn word_at(bytes: Seq<u8>, at: int, order: ByteOrder) -> u32 {
    match order {
        ByteOrder::Big => ((bytes[at] as u32) << 24u32) | ((bytes[at + 1] as u32) << 16u32) | ((bytes[at + 2] as u32) << 8u32) | (bytes[at + 3] as u32),
        ByteOrder::Little => ((bytes[at + 3] as u32) << 24u32) | ((bytes[at + 2] as u32) << 16u32) | ((bytes[at + 1] as u32) << 8u32) | (bytes[at] as u32),
    }
}

/// The netlink flags of a query: a request, and for the protocols other
/// than TCP one that asks for all matching sockets.
pub open spec fn flags_of(protocol: Proto) -> u16 {
    if protocol == Proto::Tcp {
        NLM_F_REQUEST
    } else {
        NLM_F_REQUEST | NLM_F_MATCH
    }
}

/// The netlink flags of a query for `protocol`.
pub fn request_flags(protocol: Proto) -> (flags: u16)
    ensures
        flags == flags_of(protocol),
{
    match protocol {
        Proto::Tcp => NLM_F_REQUEST,
        _ => NLM_F_REQUEST | NLM_F_MATCH,
    }
}

/// Appends the four bytes of `v` in the given order.
fn put_word(out: &mut Vec<u8>, v: u32, order: ByteOrder)
    ensures
        final(out)@ == old(out)@ + word_bytes(v, order),
{
    let b0: u8 = #[verifier::truncate] ((v >> 24u32) as u8);
    let b1: u8 = #[verifier::truncate] ((v >> 16u32) as u8);
    let b2: u8 = #[verifier::truncate] ((v >> 8u32) as u8);
    let b3: u8 = #[verifier::truncate] (v as u8);
    match order {
        ByteOrder::Big => {
            out.push(b0);
            out.push(b1);
            out.push(b2);
            out.push(b3);
        },
        ByteOrder::Little => {
            out.push(b3);
            out.push(b2);
            out.push(b1);
            out.push(b0);
        },
    }
    assert(out@ =~= old(out)@ + word_bytes(v, order));
}

/// Reads four bytes from position `at` in the given order.
fn get_word(bytes: &[u8], at: usize, order: ByteOrder) -> (v: u32)
    requires
        at + 4 <= bytes@.len(),
    ensures
        v == word_at(bytes@, at as int, order),
{
    let b0 = bytes[at] as u32;
    let b1 = bytes[at + 1] as u32;
    let b2 = bytes[at + 2] as u32;
    let b3 = bytes[at + 3] as u32;
    match order {
        ByteOrder::Big => (b0 << 24u32) | (b1 << 16u32) | (b2 << 8u32) | b3,
        ByteOrder::Little => (b3 << 24u32) | (b2 << 16u32) | (b1 << 8u32) | b0,
    }
}

impl InetDiagSockId {
    /// The forty-eight bytes of the record: both ports and both addresses
    /// in network order, then interface and cookie in the host's order.
    pub open spec fn encoding(self, order: ByteOrder) -> Seq<u8> {
        self.idiag_sport.bytes() + self.idiag_dport.bytes() + self.idiag_src.octets() + self.idiag_dst.octets()
            + word_bytes(self.idiag_if, order) + word_bytes(self.idiag_cookie[0], order) + word_bytes(self.idiag_cookie[1], order)
    }

    /// Whether the record names exactly the two endpoints.
    pub open spec fn names(self, local: SocketAddress, remote: SocketAddress) -> bool {
        &&& self.idiag_src.holds(local.ip)
        &&& self.idiag_sport.value() == local.port
        &&& self.idiag_dst.holds(remote.ip)
        &&& self.idiag_dport.value() == remote.port
    }
}

impl InetDiagReqV2 {
    /// The request for the socket between `local` and `remote`: the family
    /// of the addresses, the protocol's number, any state, no interface and
    /// no cookie. Addresses of different families are refused.
    pub fn new(protocol: Proto, local: SocketAddress, remote: SocketAddress) -> (r: Result<InetDiagReqV2, QueryError>)
        ensures
            match r {
                Ok(req) => {
                    &&& local.ip.same_family(remote.ip)
                    &&& req.sdiag_family == (if local.ip is V4 {
                        AF_INET
                    } else {
                        AF_INET6
                    })
                    &&& req.sdiag_protocol == protocol.spec_number()
                    &&& req.idiag_ext == 0
                    &&& req.pad == 0
                    &&& req.idiag_states == 0xffff_ffffu32
                    &&& req.id.idiag_sport.value() == local.port
                    &&& req.id.idiag_dport.value() == remote.port
                    &&& req.id.idiag_src.octets() == Ipv4or6::octets_of(local.ip)
                    &&& req.id.idiag_dst.octets() == Ipv4or6::octets_of(remote.ip)
                    &&& req.id.names(local, remote)
                    &&& req.id.idiag_if == 0
                    &&& req.id.idiag_cookie@ == seq![INET_DIAG_NOCOOKIE, INET_DIAG_NOCOOKIE]
                },
                Err(e) => e == QueryError::FamilyMismatch && !local.ip.same_family(remote.ip),
            },
    {
        if local.ip.is_ipv4() != remote.ip.is_ipv4() {
            return Err(QueryError::FamilyMismatch);
        }
        let family = if local.ip.is_ipv4() {
            AF_INET
        } else {
            AF_INET6
        };
        let cookie: [u32; 2] = [INET_DIAG_NOCOOKIE, INET_DIAG_NOCOOKIE];
        assert(cookie@ =~= seq![INET_DIAG_NOCOOKIE, INET_DIAG_NOCOOKIE]);
        Ok(InetDiagReqV2 {
            sdiag_family: family,
            sdiag_protocol: protocol.number(),
            idiag_ext: 0,
            pad: 0,
            idiag_states: 0xffff_ffff,
            id: InetDiagSockId {
                idiag_sport: Port::new(local.port),
                idiag_dport: Port::new(remote.port),
                idiag_src: Ipv4or6::from_ip(local.ip),
                idiag_dst: Ipv4or6::from_ip(remote.ip),
                idiag_if: 0,
                idiag_cookie: cookie,
            },
        })
    }

    /// The fifty-six bytes of the request as the kernel reads them.
    pub open spec fn encoding(self, order: ByteOrder) -> Seq<u8> {
        seq![self.sdiag_family, self.sdiag_protocol, self.idiag_ext, self.pad] + word_bytes(self.idiag_states, order)
            + self.id.encoding(order)
    }

    /// Encodes the request for a host of the given byte order.
    pub fn packet(&self, order: ByteOrder) -> (out: Vec<u8>)
        ensures
            out@ == self.encoding(order),
            out@.len() == REQUEST_SIZE,
    {
        let mut out: Vec<u8> = Vec::new();
        out.push(self.sdiag_family);
        out.push(self.sdiag_protocol);
        out.push(self.idiag_ext);
        out.push(self.pad);
        assert(out@ =~= seq![self.sdiag_family, self.sdiag_protocol, self.idiag_ext, self.pad]);
        put_word(&mut out, self.idiag_states, order);
        let ghost head = out@;
        out.push(self.id.idiag_sport.0[0]);
        out.push(self.id.idiag_sport.0[1]);
        assert(out@ =~= head + self.id.idiag_sport.bytes());
        out.push(self.id.idiag_dport.0[0]);
        out.push(self.id.idiag_dport.0[1]);
        assert(out@ =~= head + self.id.idiag_sport.bytes() + self.id.idiag_dport.bytes());
        let ghost ports = out@;
        let mut k: usize = 0;
        while k < 16
            invariant
                k <= 16,
                out@ == ports + self.id.idiag_src.octets().take(k as int),
            decreases 16 - k,
        {
            out.push(self.id.idiag_src.0[k]);
            assert(out@ =~= ports + self.id.idiag_src.octets().take(k + 1));
            k += 1;
        }
        assert(self.id.idiag_src.octets().take(16) =~= self.id.idiag_src.octets());
        let ghost source = out@;
        let mut k: usize = 0;
        while k < 16
            invariant
                k <= 16,
                out@ == source + self.id.idiag_dst.octets().take(k as int),
            decreases 16 - k,
        {
            out.push(self.id.idiag_dst.0[k]);
            assert(out@ =~= source + self.id.idiag_dst.octets().take(k + 1));
            k += 1;
        }
        assert(self.id.idiag_dst.octets().take(16) =~= self.id.idiag_dst.octets());
        put_word(&mut out, self.id.idiag_if, order);
        put_word(&mut out, self.id.idiag_cookie[0], order);
        put_word(&mut out, self.id.idiag_cookie[1], order);
        assert(out@ =~= self.encoding(order));
        out
    }
}

impl InetDiagMsg {
    /// Whether a response answers the query: it names exactly the two
    /// endpoints and its socket has an inode.
    pub open spec fn answers(self, local: SocketAddress, remote: SocketAddress) -> bool {
        self.id.names(local, remote) && self.idiag_inode != 0
    }

    /// Whether `bytes` decode to this message: every field holds what the
    /// bytes at its place in the record say.
    pub open spec fn decodes(self, bytes: Seq<u8>, order: ByteOrder) -> bool {
        &&& self.idiag_family == bytes[0]
        &&& self.idiag_state == bytes[1]
        &&& self.idiag_timer == bytes[2]
        &&& self.idiag_retrans == bytes[3]
        &&& self.id.idiag_sport.bytes() == bytes.subrange(4, 6)
        &&& self.id.idiag_dport.bytes() == bytes.subrange(6, 8)
        &&& self.id.idiag_src.octets() == bytes.subrange(8, 24)
        &&& self.id.idiag_dst.octets() == bytes.subrange(24, 40)
        &&& self.id.idiag_if == word_at(bytes, 40, order)
        &&& self.id.idiag_cookie@ == seq![word_at(bytes, 44, order), word_at(bytes, 48, order)]
        &&& self.idiag_expires == word_at(bytes, 52, order)
        &&& self.idiag_rqueue == word_at(bytes, 56, order)
        &&& self.idiag_wqueue == word_at(bytes, 60, order)
        &&& self.idiag_uid == word_at(bytes, 64, order)
        &&& self.idiag_inode == word_at(bytes, 68, order)
    }

    /// Decodes the payload of a response from a host of the given byte
    /// order. A payload shorter than the record is no message.
    pub fn decode(bytes: &[u8], order: ByteOrder) -> (r: Option<InetDiagMsg>)
        ensures
            match r {
                Some(m) => bytes@.len() >= MESSAGE_SIZE && m.decodes(bytes@, order),
                None => bytes@.len() < MESSAGE_SIZE,
            },
    {
        if bytes.len() < MESSAGE_SIZE {
            return None;
        }
        let sport = Port([bytes[4], bytes[5]]);
        let dport = Port([bytes[6], bytes[7]]);
        assert(sport.bytes() =~= bytes@.subrange(4, 6));
        assert(dport.bytes() =~= bytes@.subrange(6, 8));
        let src = Ipv4or6([
            bytes[8], bytes[9], bytes[10], bytes[11], bytes[12], bytes[13], bytes[14], bytes[15],
            bytes[16], bytes[17], bytes[18], bytes[19], bytes[20], bytes[21], bytes[22], bytes[23],
        ]);
        let dst = Ipv4or6([
            bytes[24], bytes[25], bytes[26], bytes[27], bytes[28], bytes[29], bytes[30], bytes[31],
            bytes[32], bytes[33], bytes[34], bytes[35], bytes[36], bytes[37], bytes[38], bytes[39],
        ]);
        assert(src.octets() =~= bytes@.subrange(8, 24));
        assert(dst.octets() =~= bytes@.subrange(24, 40));
        let cookie: [u32; 2] = [get_word(bytes, 44, order), get_word(bytes, 48, order)];
        assert(cookie@ =~= seq![word_at(bytes@, 44, order), word_at(bytes@, 48, order)]);
        Some(InetDiagMsg {
            idiag_family: bytes[0],
            idiag_state: bytes[1],
            idiag_timer: bytes[2],
            idiag_retrans: bytes[3],
            id: InetDiagSockId {
                idiag_sport: sport,
                idiag_dport: dport,
                idiag_src: src,
                idiag_dst: dst,
                idiag_if: get_word(bytes, 40, order),
                idiag_cookie: cookie,
            },
            idiag_expires: get_word(bytes, 52, order),
            idiag_rqueue: get_word(bytes, 56, order),
            idiag_wqueue: get_word(bytes, 60, order),
            idiag_uid: get_word(bytes, 64, order),
            idiag_inode: get_word(bytes, 68, order),
        })
    }

    /// Whether the response answers the query for `local` and `remote`.
    pub fn is_answer(&self, local: SocketAddress, remote: SocketAddress) -> (r: bool)
        ensures
            r == self.answers(local, remote),
    {
        self.id.idiag_src.matches_ip(local.ip) && self.id.idiag_sport.get() == local.port
            && self.id.idiag_dst.matches_ip(remote.ip) && self.id.idiag_dport.get() == remote.port
            && self.idiag_inode != 0
    }
}

/// Keeps the later of two answers: `msg` replaces `kept` if it answers the
/// query, else `kept` stays.
pub fn retain(kept: Option<InetDiagMsg>, msg: InetDiagMsg, local: SocketAddress, remote: SocketAddress) -> (r: Option<InetDiagMsg>)
    ensures
        r == (if msg.answers(local, remote) {
            Some(msg)
        } else {
            kept
        }),
{
    if msg.is_answer(local, remote) {
        Some(msg)
    } else {
        kept
    }
}

/// The position of the last response that answers the query.
pub open spec fn last_answer(responses: Seq<InetDiagMsg>, local: SocketAddress, remote: SocketAddress) -> Option<int>
    decreases responses.len(),
{
    if responses.len() == 0 {
        None
    } else if responses.last().answers(local, remote) {
        Some(responses.len() - 1)
    } else {
        last_answer(responses.drop_last(), local, remote)
    }
}

/// `last_answer` is the position of an answer with no answer after it, and
/// is `None` only if there is no answer.
pub proof fn lemma_last_answer(responses: Seq<InetDiagMsg>, local: SocketAddress, remote: SocketAddress)
    ensures
        match last_answer(responses, local, remote) {
            Some(i) => {
                &&& 0 <= i < responses.len()
                &&& responses[i].answers(local, remote)
                &&& forall|j: int| i < j < responses.len() ==> !(#[trigger] responses[j]).answers(local, remote)
            },
            None => forall|j: int| 0 <= j < responses.len() ==> !(#[trigger] responses[j]).answers(local, remote),
        },
    decreases responses.len(),
{
    if responses.len() > 0 && !responses.last().answers(local, remote) {
        let rest = responses.drop_last();
        lemma_last_answer(rest, local, remote);
        assert forall|j: int| 0 <= j < rest.len() implies rest[j] == responses[j] by {}
        match last_answer(rest, local, remote) {
            Some(i) => {
                assert(rest[i] == responses[i]);
                assert forall|j: int| i < j < responses.len() implies !(#[trigger] responses[j]).answers(local, remote) by {
                    if j < rest.len() {
                        assert(rest[j] == responses[j]);
                    }
                }
            },
            None => {
                assert forall|j: int| 0 <= j < responses.len() implies !(#[trigger] responses[j]).answers(local, remote) by {
                    if j < rest.len() {
                        assert(rest[j] == responses[j]);
                    }
                }
            },
        }
    }
}

/// Chooses among the responses to a query: the last one that answers it.
/// Without any, the socket is not found.
pub fn select(responses: &Vec<InetDiagMsg>, local: SocketAddress, remote: SocketAddress) -> (r: Result<InetDiagMsg, QueryError>)
    ensures
        match r {
            Ok(m) => last_answer(responses@, local, remote) is Some && m == responses@[last_answer(
                responses@,
                local,
                remote,
            )->0],
            Err(e) => e == QueryError::NotFound && last_answer(responses@, local, remote) is None,
        },
{
    let mut kept: Option<InetDiagMsg> = None;
    let mut i: usize = 0;
    while i < responses.len()
        invariant
            i <= responses@.len(),
            match kept {
                Some(m) => last_answer(responses@.take(i as int), local, remote) is Some && m == responses@[last_answer(
                    responses@.take(i as int),
                    local,
                    remote,
                )->0],
                None => last_answer(responses@.take(i as int), local, remote) is None,
            },
        decreases responses@.len() - i,
    {
        proof {
            let next = responses@.take(i + 1);
            assert(next.last() == responses@[i as int]);
            assert(next.drop_last() =~= responses@.take(i as int));
        }
        kept = retain(kept, responses[i], local, remote);
        i += 1;
    }
    assert(responses@.take(i as int) =~= responses@);
    match kept {
        Some(m) => Ok(m),
        None => Err(QueryError::NotFound),
    }
}

} // verus!
