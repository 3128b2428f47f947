//! IP addresses, CIDR networks and the client access rule of the local listener.
use vstd::prelude::*;

verus! {

/// An IP address as its integer value.
#[derive(Debug, Clone, Copy, PartialEq, Eq, Structural)]
pub enum IpAddress {
    V4(u32),
    V6(u128),
}

/// A socket address.
#[derive(Debug, Clone, Copy, PartialEq, Eq, Structural)]
pub struct SocketAddress {
    pub ip: IpAddress,
    pub port: u16,
}

/// A CIDR network: an address and a prefix length.
#[derive(Debug, Clone, Copy, PartialEq, Eq, Structural)]
pub enum IpNetwork {
    V4 { addr: u32, prefix_len: u8 },
    V6 { addr: u128, prefix_len: u8 },
}

impl IpNetwork {
    /// The prefix length fits the address family.
    pub open spec fn wf(self) -> bool {
        match self {
            IpNetwork::V4 { prefix_len, .. } => prefix_len <= 32,
            IpNetwork::V6 { prefix_len, .. } => prefix_len <= 128,
        }
    }
}

/// The network mask of an IPv4 prefix length.
pub open spec fn mask_v4(prefix_len: u8) -> u32 {
    if prefix_len == 0 {
        0
    } else {
        0xffff_ffffu32 << ((32 - prefix_len) as u32)
    }
}

/// The network mask of an IPv6 prefix length.
pub open spec fn mask_v6(prefix_len: u8) -> u128 {
    if prefix_len == 0 {
        0
    } else {
        0xffff_ffff_ffff_ffff_ffff_ffff_ffff_ffffu128 << ((128 - prefix_len) as u128)
    }
}

/// An address is in a network of its own family when it lies between the network address
/// and the broadcast address.
pub open spec fn contains_spec(net: IpNetwork, a: IpAddress) -> bool {
    match (net, a) {
        (IpNetwork::V4 { addr, prefix_len }, IpAddress::V4(x)) => (addr & mask_v4(prefix_len))
            <= x <= (addr | !mask_v4(prefix_len)),
        (IpNetwork::V6 { addr, prefix_len }, IpAddress::V6(x)) => (addr & mask_v6(prefix_len))
            <= x <= (addr | !mask_v6(prefix_len)),
        _ => false,
    }
}

/// Whether `net` contains the address `a`.
pub fn network_contains(net: &IpNetwork, a: &IpAddress) -> (r: bool)
    requires
        net.wf(),
    ensures
        r == contains_spec(*net, *a),
{
    match (net, a) {
        (IpNetwork::V4 { addr, prefix_len }, IpAddress::V4(x)) => {
            let mask: u32 = if *prefix_len == 0 {
                0
            } else {
                0xffff_ffffu32 << ((32 - *prefix_len) as u32)
            };
            (*addr & mask) <= *x && *x <= (*addr | !mask)
        },
        (IpNetwork::V6 { addr, prefix_len }, IpAddress::V6(x)) => {
            let mask: u128 = if *prefix_len == 0 {
                0
            } else {
                0xffff_ffff_ffff_ffff_ffff_ffff_ffff_ffffu128 << ((128 - *prefix_len) as u128)
            };
            (*addr & mask) <= *x && *x <= (*addr | !mask)
        },
        _ => false,
    }
}

/// Loopback, RFC 1918 private ranges, IPv6 loopback, unique-local and link-local ranges.
pub open spec fn default_networks_spec() -> Seq<IpNetwork> {
    seq![
        IpNetwork::V4 { addr: 0x7f00_0000, prefix_len: 8 },
        IpNetwork::V6 { addr: 1, prefix_len: 128 },
        IpNetwork::V4 { addr: 0x0a00_0000, prefix_len: 8 },
        IpNetwork::V4 { addr: 0xac10_0000, prefix_len: 12 },
        IpNetwork::V4 { addr: 0xc0a8_0000, prefix_len: 16 },
        IpNetwork::V6 { addr: 0xfc00_0000_0000_0000_0000_0000_0000_0000, prefix_len: 7 },
        IpNetwork::V6 { addr: 0xfe80_0000_0000_0000_0000_0000_0000_0000, prefix_len: 10 },
    ]
}

/// The networks allowed by default: 127.0.0.0/8, ::1/128, 10.0.0.0/8, 172.16.0.0/12,
/// 192.168.0.0/16, fc00::/7 and fe80::/10.
pub fn default_allowed_networks() -> (r: Vec<IpNetwork>)
    ensures
        r@ == default_networks_spec(),
{
    let mut v: Vec<IpNetwork> = Vec::new();
    v.push(IpNetwork::V4 { addr: 0x7f00_0000, prefix_len: 8 });
    v.push(IpNetwork::V6 { addr: 1, prefix_len: 128 });
    v.push(IpNetwork::V4 { addr: 0x0a00_0000, prefix_len: 8 });
    v.push(IpNetwork::V4 { addr: 0xac10_0000, prefix_len: 12 });
    v.push(IpNetwork::V4 { addr: 0xc0a8_0000, prefix_len: 16 });
    v.push(IpNetwork::V6 { addr: 0xfc00_0000_0000_0000_0000_0000_0000_0000, prefix_len: 7 });
    v.push(IpNetwork::V6 { addr: 0xfe80_0000_0000_0000_0000_0000_0000_0000, prefix_len: 10 });
    assert(v@ =~= default_networks_spec());
    v
}

/// Every network has a prefix length that fits its family.
pub open spec fn all_wf(nets: Seq<IpNetwork>) -> bool {
    forall|i: int| 0 <= i < nets.len() ==> (#[trigger] nets[i]).wf()
}

/// A client may connect when its address lies in one of the allowed networks.
pub open spec fn is_allowed_spec(nets: Seq<IpNetwork>, peer: IpAddress) -> bool {
    exists|i: int| 0 <= i < nets.len() && contains_spec(#[trigger] nets[i], peer)
}

/// Whether a client at `peer` may use the listener.
pub fn is_allowed_peer(nets: &Vec<IpNetwork>, peer: &IpAddress) -> (r: bool)
    requires
        all_wf(nets@),
    ensures
        r == is_allowed_spec(nets@, *peer),
{
    let mut i: usize = 0;
    while i < nets.len()
        invariant
            i <= nets@.len(),
            all_wf(nets@),
            forall|j: int| 0 <= j < i ==> !contains_spec(#[trigger] nets@[j], *peer),
        decreases nets@.len() - i,
    {
        if network_contains(&nets[i], peer) {
            return true;
        }
        i = i + 1;
    }
    false
}


/// Whether every network's prefix length fits its family.
pub fn networks_valid(nets: &Vec<IpNetwork>) -> (r: bool)
    ensures
        r == all_wf(nets@),
{
    let mut i: usize = 0;
    while i < nets.len()
        invariant
            i <= nets@.len(),
            forall|j: int| 0 <= j < i ==> (#[trigger] nets@[j]).wf(),
        decreases nets@.len() - i,
    {
        let ok = match nets[i] {
            IpNetwork::V4 { prefix_len, .. } => prefix_len <= 32,
            IpNetwork::V6 { prefix_len, .. } => prefix_len <= 128,
        };
        if !ok {
            return false;
        }
        i = i + 1;
    }
    true
}

} // verus!
