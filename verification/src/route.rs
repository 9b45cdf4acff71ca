//! Finding the network interface that holds the machine's local address on
//! its default route.

use vstd::prelude::*;
use crate::networksetup::opt_view;

verus! {

/// An IP address: four bytes, or sixteen, read as one big-endian number.
#[derive(Debug, Clone, Copy, PartialEq, Eq, Structural)]
pub enum IpAddress {
    V4(u32),
    V6(u128),
}

/// A socket address, with the fields that make two of them equal.
#[derive(Debug, Clone, Copy, PartialEq, Eq, Structural)]
pub enum SocketAddress {
    V4 { ip: u32, port: u16 },
    V6 { ip6: u128, port: u16, flowinfo: u32, scope_id: u32 },
}

/// A network interface: its name and the socket addresses of its addresses
/// (`None` where an address has none).
pub struct NetworkInterface {
    pub name: String,
    pub addresses: Vec<Option<SocketAddress>>,
}

/// The socket address of `ip` and `port`, as `SocketAddr::new` makes it: an
/// IPv6 one with no flow information and no scope.
pub open spec fn spec_socket_address(ip: IpAddress, port: u16) -> SocketAddress {
    match ip {
        IpAddress::V4(a) => SocketAddress::V4 { ip: a, port },
        IpAddress::V6(a) => SocketAddress::V6 { ip6: a, port, flowinfo: 0, scope_id: 0 },
    }
}

/// The socket address of `ip` and `port`.
pub fn socket_address(ip: IpAddress, port: u16) -> (r: SocketAddress)
    ensures
        r == spec_socket_address(ip, port),
{
    match ip {
        IpAddress::V4(a) => SocketAddress::V4 { ip: a, port },
        IpAddress::V6(a) => SocketAddress::V6 { ip6: a, port, flowinfo: 0, scope_id: 0 },
    }
}

/// Whether one of `addresses` is `addr`.
pub open spec fn has_address(addresses: Seq<Option<SocketAddress>>, addr: SocketAddress) -> bool {
    exists|k: int| 0 <= k < addresses.len() && addresses[k] == Some(addr)
}

/// The name of the first interface of `interfaces` that has the address
/// `addr`.
pub open spec fn first_interface_with(interfaces: Seq<NetworkInterface>, addr: SocketAddress) -> Option<
    Seq<char>,
>
    decreases interfaces.len(),
{
    if interfaces.len() == 0 {
        None
    } else if has_address(interfaces[0].addresses@, addr) {
        Some(interfaces[0].name@)
    } else {
        first_interface_with(interfaces.drop_first(), addr)
    }
}

/// No interface among the first `n` of `interfaces` holds `addr` at any
/// position of its address list.
pub open spec fn none_holds_before(interfaces: Seq<NetworkInterface>, addr: SocketAddress, n: int) -> bool {
    forall|j: int, m: int|
        0 <= j < n && 0 <= m < interfaces[j].addresses@.len() ==> #[trigger] interfaces[j].addresses@[m]
            != Some(addr)
}

/// The interface lookup finds the first interface that holds `addr`
/// anywhere in its address list, whatever comes before it there (other
/// addresses, IPv6 ones, or none).
pub proof fn law_interface_found_at_any_position(
    interfaces: Seq<NetworkInterface>,
    addr: SocketAddress,
    i: int,
    k: int,
)
    requires
        0 <= i < interfaces.len(),
        0 <= k < interfaces[i].addresses@.len(),
        interfaces[i].addresses@[k] == Some(addr),
        none_holds_before(interfaces, addr, i),
    ensures
        first_interface_with(interfaces, addr) == Some(interfaces[i].name@),
    decreases i,
{
    if i == 0 {
        assert(has_address(interfaces[0].addresses@, addr));
    } else {
        let rest = interfaces.drop_first();
        assert(!has_address(interfaces[0].addresses@, addr)) by {
            if has_address(interfaces[0].addresses@, addr) {
                let m = choose|m: int|
                    0 <= m < interfaces[0].addresses@.len() && interfaces[0].addresses@[m] == Some(addr);
                assert(interfaces[0].addresses@[m] != Some(addr));
            }
        }
        assert forall|j: int, m: int|
            0 <= j < i - 1 && 0 <= m < rest[j].addresses@.len() implies #[trigger] rest[j].addresses@[m]
                != Some(addr) by {
            assert(rest[j] == interfaces[j + 1]);
            assert(interfaces[j + 1].addresses@[m] != Some(addr));
        }
        assert(rest[i - 1] == interfaces[i]);
        law_interface_found_at_any_position(rest, addr, i - 1, k);
    }
}

/// The interface lookup finds nothing only when no interface holds `addr`
/// at any position.
pub proof fn law_interface_not_found(interfaces: Seq<NetworkInterface>, addr: SocketAddress)
    requires
        none_holds_before(interfaces, addr, interfaces.len() as int),
    ensures
        first_interface_with(interfaces, addr) is None,
    decreases interfaces.len(),
{
    if interfaces.len() > 0 {
        let rest = interfaces.drop_first();
        assert(!has_address(interfaces[0].addresses@, addr)) by {
            if has_address(interfaces[0].addresses@, addr) {
                let m = choose|m: int|
                    0 <= m < interfaces[0].addresses@.len() && interfaces[0].addresses@[m] == Some(addr);
                assert(interfaces[0].addresses@[m] != Some(addr));
            }
        }
        assert forall|j: int, m: int|
            0 <= j < rest.len() && 0 <= m < rest[j].addresses@.len() implies #[trigger] rest[j].addresses@[m]
                != Some(addr) by {
            assert(rest[j] == interfaces[j + 1]);
            assert(interfaces[j + 1].addresses@[m] != Some(addr));
        }
        law_interface_not_found(rest, addr);
    }
}

/// Whether one of `addresses` is `addr`.
fn holds_address(addresses: &Vec<Option<SocketAddress>>, addr: SocketAddress) -> (r: bool)
    ensures
        r == has_address(addresses@, addr),
{
    let mut k: usize = 0;
    while k < addresses.len()
        invariant
            k <= addresses.len(),
            forall|m: int| 0 <= m < k ==> addresses@[m] != Some(addr),
        decreases addresses.len() - k,
    {
        match addresses[k] {
            Some(a) => {
                if a == addr {
                    return true;
                }
            },
            None => {},
        }
        k = k + 1;
    }
    false
}

/// The name of the first interface that has the local address `ip` (with
/// port 0), as the service looks up the interface of its default route.
pub fn interface_for_local_ip(interfaces: &Vec<NetworkInterface>, ip: IpAddress) -> (r: Option<
    String,
>)
    ensures
        opt_view(r) == first_interface_with(interfaces@, spec_socket_address(ip, 0)),
{
    let addr = socket_address(ip, 0);
    let ghost all = interfaces@;
    assert(all.skip(0) =~= all);
    let mut i: usize = 0;
    while i < interfaces.len()
        invariant
            i <= interfaces.len(),
            all == interfaces@,
            addr == spec_socket_address(ip, 0),
            first_interface_with(all, addr) == first_interface_with(all.skip(i as int), addr),
        decreases interfaces.len() - i,
    {
        assert(all.skip(i as int)[0] == interfaces@[i as int]);
        assert(all.skip(i as int).drop_first() =~= all.skip(i + 1));
        if holds_address(&interfaces[i].addresses, addr) {
            return Some(interfaces[i].name.clone());
        }
        i = i + 1;
    }
    assert(all.skip(i as int).len() == 0);
    None
}

} // verus!
