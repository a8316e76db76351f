use vstd::prelude::*;

use crate::server::WebServer;
use crate::text::{append_bytes, decimal, decimal_bytes};

verus! {

/// Separates the address from the port in a peer's name.
pub const COLON: u8 = 58;

/// Opens an IPv6 address in a peer's name.
pub const OPEN_BRACKET: u8 = 91;

/// Closes an IPv6 address in a peer's name.
pub const CLOSE_BRACKET: u8 = 93;

/// Separates the octets of an IPv4 address.
pub const PERIOD: u8 = 46;

/// The address of the other end of a connection.
pub enum PeerAddr {
    /// An IPv4 address: its four octets and the port.
    V4(u8, u8, u8, u8, u16),
    /// An IPv6 address, as its standard text form, and the port.
    V6(Vec<u8>, u16),
}

/// The name of a peer: "a.b.c.d:port" for IPv4, "[address]:port" for IPv6,
/// and nothing when the peer is unknown.
pub open spec fn peer_name_of(peer: Option<PeerAddr>) -> Seq<u8> {
    match peer {
        None => seq![],
        Some(PeerAddr::V4(a, b, c, d, port)) => decimal(a as nat) + seq![PERIOD] + decimal(b as nat)
            + seq![PERIOD] + decimal(c as nat) + seq![PERIOD] + decimal(d as nat) + seq![COLON]
            + decimal(port as nat),
        Some(PeerAddr::V6(address, port)) => seq![OPEN_BRACKET] + address@ + seq![
            CLOSE_BRACKET,
            COLON,
        ] + decimal(port as nat),
    }
}

/// Appends `n` in base ten.
fn push_decimal(v: &mut Vec<u8>, n: u64)
    ensures
        final(v)@ == old(v)@ + decimal(n as nat),
{
    let digits = decimal_bytes(n);
    append_bytes(v, digits.as_slice());
}


impl WebServer {
/// The name of a peer, by which its connection is found again, as it is
/// written: "a.b.c.d:port", "[address]:port", or empty for an unknown peer.
pub fn get_peer_name(peer: Option<PeerAddr>) -> (r: Vec<u8>)
    ensures
        r@ == peer_name_of(peer),
{
    let mut name: Vec<u8> = Vec::new();
    match peer {
        None => {
            assert(name@ =~= seq![]);
        },
        Some(PeerAddr::V4(a, b, c, d, port)) => {
            push_decimal(&mut name, a as u64);
            name.push(PERIOD);
            push_decimal(&mut name, b as u64);
            name.push(PERIOD);
            push_decimal(&mut name, c as u64);
            name.push(PERIOD);
            push_decimal(&mut name, d as u64);
            name.push(COLON);
            push_decimal(&mut name, port as u64);
            assert(name@ =~= peer_name_of(peer));
        },
        Some(PeerAddr::V6(address, port)) => {
            name.push(OPEN_BRACKET);
            append_bytes(&mut name, address.as_slice());
            name.push(CLOSE_BRACKET);
            name.push(COLON);
            push_decimal(&mut name, port as u64);
            assert(name@ =~= peer_name_of(peer));
        },
    }
    name
}
}

} // verus!
