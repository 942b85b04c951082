//! The fingerprint of a packet descriptor: the key of the decision cache.
//! The payload length is no part of it.

use vstd::prelude::*;
use vstd::std_specs::hash::DefaultHasherAdditionalSpecFns;
use std::collections::hash_map::DefaultHasher;
use std::hash::Hasher;
use crate::policy::{Device, IpAddress, Packet, Proto, SocketAddress};

verus! {

/// One byte that tells the directions apart.
pub open spec fn device_code(d: Device) -> u8 {
    match d {
        Device::Input => 0,
        Device::Output => 1,
    }
}

/// One byte that tells the address families apart.
pub open spec fn family_code(ip: IpAddress) -> u8 {
    match ip {
        IpAddress::V4(_) => 4,
        IpAddress::V6(_) => 6,
    }
}

/// The address as a 128-bit number.
pub open spec fn address_value(ip: IpAddress) -> u128 {
    match ip {
        IpAddress::V4(a) => a as u128,
        IpAddress::V6(a) => a,
    }
}

/// Byte `k` of the sixteen big-endian bytes of `v`.
pub open spec fn address_byte(v: u128, k: int) -> u8 {
    (v >> ((8 * (15 - k)) as u128)) as u8
}

/// The fixed-size part of what is hashed: direction, protocol number,
/// family, port in big-endian order, and sixteen address bytes.
pub open spec fn header_bytes(device: Device, proto: Proto, addr: SocketAddress) -> Seq<u8> {
    seq![
        device_code(device),
        proto.spec_number(),
        family_code(addr.ip),
        (addr.port >> 8u16) as u8,
        addr.port as u8,
    ] + Seq::new(16, |k: int| address_byte(address_value(addr.ip), k))
}

/// The fingerprint: the hash of the header and of the bytes of the path.
pub open spec fn fingerprint_of(p: Packet) -> u64 {
    DefaultHasher::spec_finish(seq![header_bytes(p.device, p.proto, p.addr), vstd::utf8::encode_utf8(p.exe)])
}

/// Computes the fingerprint of a packet descriptor.
pub fn fingerprint(device: Device, protocol: Proto, addr: SocketAddress, exe: &str) -> (h: u64)
    ensures
        h == fingerprint_of(Packet { device, proto: protocol, addr, exe: exe@ }),
{
    let mut header: Vec<u8> = Vec::new();
    header.push(match device {
        Device::Input => 0,
        Device::Output => 1,
    });
    header.push(protocol.number());
    let value: u128 = match addr.ip {
        IpAddress::V4(a) => {
            header.push(4);
            a as u128
        },
        IpAddress::V6(a) => {
            header.push(6);
            a
        },
    };
    header.push(#[verifier::truncate] ((addr.port >> 8u16) as u8));
    header.push(#[verifier::truncate] (addr.port as u8));
    let ghost fixed = header@;
    let mut k: usize = 0;
    while k < 16
        invariant
            k <= 16,
            value == address_value(addr.ip),
            header@ == fixed + Seq::new(k as nat, |j: int| address_byte(value, j)),
        decreases 16 - k,
    {
        let shift: u128 = 8 * (15 - k as u128);
        header.push(#[verifier::truncate] ((value >> shift) as u8));
        proof {
            assert(header@ =~= fixed + Seq::new((k + 1) as nat, |j: int| address_byte(value, j)));
        }
        k += 1;
    }
    proof {
        assert(header@ =~= header_bytes(device, protocol, addr));
    }
    let mut hasher = DefaultHasher::new();
    hasher.write(header.as_slice());
    hasher.write(exe.as_bytes());
    proof {
        assert(hasher@ =~= seq![header_bytes(device, protocol, addr), vstd::utf8::encode_utf8(exe@)]);
    }
    hasher.finish()
}

} // verus!
