//! IPv4 socket addresses (four octets and a port) and their text form.
use vstd::prelude::*;
use vstd::std_specs::cmp::PartialEqSpecImpl;

use crate::text::{decimal, push_decimal};

verus! {

/// An IPv4 socket address: the four octets of the address and a port.
#[derive(Debug, Clone, Copy, Hash)]
pub struct SocketAddrV4 {
    pub octets: [u8; 4],
    pub port: u16,
}

/// The value of a socket address.
pub struct SocketAddrView {
    pub octets: Seq<u8>,
    pub port: u16,
}

impl View for SocketAddrV4 {
    type V = SocketAddrView;

    open spec fn view(&self) -> SocketAddrView {
        SocketAddrView { octets: self.octets@, port: self.port }
    }
}

/// The text form of a socket address: the octets in decimal, separated by
/// dots, then a colon and the port in decimal (as in `127.0.0.1:12000`).
pub open spec fn socket_text(a: SocketAddrView) -> Seq<char> {
    decimal(a.octets[0] as nat) + seq!['.'] + decimal(a.octets[1] as nat) + seq!['.'] + decimal(
        a.octets[2] as nat,
    ) + seq!['.'] + decimal(a.octets[3] as nat) + seq![':'] + decimal(a.port as nat)
}

impl SocketAddrV4 {
    /// A socket address from the octets of an IPv4 address and a port.
    pub fn new(octets: [u8; 4], port: u16) -> (a: SocketAddrV4)
        ensures
            a@.octets == octets@,
            a@.port == port,
    {
        SocketAddrV4 { octets, port }
    }

    /// The octets of the IPv4 address.
    pub fn octets(&self) -> (o: [u8; 4])
        ensures
            o@ == self@.octets,
    {
        self.octets
    }

    /// The port.
    pub fn port(&self) -> (p: u16)
        ensures
            p == self@.port,
    {
        self.port
    }

    /// Formats the address as text, such as `127.0.0.1:12000`.
    pub fn to_string(&self) -> (s: String)
        ensures
            s@ == socket_text(self@),
    {
        let mut s = String::new();
        push_decimal(&mut s, self.octets[0] as u64);
        s.append(".");
        push_decimal(&mut s, self.octets[1] as u64);
        s.append(".");
        push_decimal(&mut s, self.octets[2] as u64);
        s.append(".");
        push_decimal(&mut s, self.octets[3] as u64);
        s.append(":");
        push_decimal(&mut s, self.port as u64);
        proof {
            reveal_strlit(".");
            reveal_strlit(":");
        }
        assert(s@ =~= socket_text(self@));
        s
    }
}

impl PartialEq for SocketAddrV4 {
    fn eq(&self, other: &Self) -> (r: bool) {
        let r = self.octets[0] == other.octets[0] && self.octets[1] == other.octets[1]
            && self.octets[2] == other.octets[2] && self.octets[3] == other.octets[3] && self.port
            == other.port;
        proof {
            if r {
                assert(self.octets@ =~= other.octets@);
            }
        }
        r
    }
}

impl PartialEqSpecImpl for SocketAddrV4 {
    open spec fn obeys_eq_spec() -> bool {
        true
    }

    open spec fn eq_spec(&self, other: &SocketAddrV4) -> bool {
        self@ == other@
    }
}

impl Eq for SocketAddrV4 {

}

} // verus!
