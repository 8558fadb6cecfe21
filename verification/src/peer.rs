//! Peers: an ID, a socket address, and when the last heartbeat came.
use vstd::prelude::*;
use vstd::std_specs::cmp::PartialEqSpecImpl;
use vstd::string::*;
use vstd::utf8::*;

use bytes::BytesMut;

use crate::buffer::{
    buffer_bytes, buffer_get_u16, buffer_get_u8, buffer_limit, buffer_put_slice, buffer_put_u16,
    buffer_remaining, lemma_u16_be_roundtrip, u16_be_bytes, u16_from_be,
};
use crate::message::PEER_BYTES_LEN;
use crate::error::{parsing_error, result_is, Error, ErrorView};
use crate::id::{peer_id_parse, peer_id_text, PeerId};
use crate::socket::{socket_text, SocketAddrV4, SocketAddrView};
use crate::text::{find_pair, first_pair_index, is_first_pair, lemma_first_pair_unique, pair_at};
use crate::util::{
    is_url_safe_char, lemma_base64_url_encoding, lemma_socket_text_len, lemma_socket_text_roundtrip,
    parse_ipv4socket, std_socket_addr,
};

verus! {

/// Struct to identify peers and send messages.
///
/// This also keeps track of the last heartbeat (in milliseconds on the
/// clock of the node that keeps the peer) to determine if the peer has been
/// online recently enough to keep in memory.
#[derive(Debug, Clone, Copy, Hash)]
pub struct Peer {
    pub id: PeerId,
    pub addr: SocketAddrV4,
    pub last_heartbeat: Option<u64>,
}

/// The value of a peer.
pub struct PeerView {
    pub id: Seq<u8>,
    pub addr: SocketAddrView,
    pub last_heartbeat: Option<u64>,
}

impl View for Peer {
    type V = PeerView;

    open spec fn view(&self) -> PeerView {
        PeerView { id: self.id@, addr: self.addr@, last_heartbeat: self.last_heartbeat }
    }
}

/// Whether a peer value has an 18-byte ID and four octets, as the values of
/// the library's peers do.
pub open spec fn peer_wf(p: PeerView) -> bool {
    p.id.len() == 18 && p.addr.octets.len() == 4
}

/// The bytes of a peer in a message: its ID, the octets of its address, and
/// its port in big-endian order.
pub open spec fn peer_bytes(p: PeerView) -> Seq<u8> {
    p.id + p.addr.octets + u16_be_bytes(p.addr.port)
}

/// The peer that the first 24 bytes of `b` stand for, with no heartbeat.
pub open spec fn peer_from_bytes(b: Seq<u8>) -> PeerView {
    PeerView {
        id: b.take(18),
        addr: SocketAddrView { octets: b.subrange(18, 22), port: u16_from_be(b.subrange(22, 24)) },
        last_heartbeat: None,
    }
}

/// The text form of a peer: the text of its ID, two colons, and the text of
/// its address.
pub open spec fn peer_text(p: PeerView) -> Seq<char> {
    peer_id_text(p.id) + seq![':', ':'] + socket_text(p.addr)
}

/// The outcome of parsing the text `s` as a peer: it is split at its first
/// `::`; the part before is read as a peer ID, the part after as a socket
/// address.
pub open spec fn peer_parse(s: Seq<char>) -> Result<PeerView, ErrorView> {
    let b = encode_utf8(s);
    let i = first_pair_index(b, 58);
    if i < 0 {
        Err(parsing_error(s, "Peer"@))
    } else {
        let addr_bytes = b.skip(i + 2);
        match peer_id_parse(decode_utf8(b.take(i))) {
            Err(e) => Err(e),
            Ok(id) => match std_socket_addr(addr_bytes) {
                None => Err(parsing_error(decode_utf8(addr_bytes), "SocketAddrV4"@)),
                Some(addr) => Ok(PeerView { id, addr, last_heartbeat: None }),
            },
        }
    }
}

/// A peer as a message carries it: the same ID and address, without the
/// time of its last heartbeat, which stays with the node that observed it.
pub open spec fn without_heartbeat(p: PeerView) -> PeerView {
    PeerView { id: p.id, addr: p.addr, last_heartbeat: None }
}

/// Reading a peer back from the front of a buffer to which it was written
/// gives the peer without its heartbeat time and leaves what followed it.
pub proof fn lemma_peer_bytes_roundtrip(p: PeerView, rest: Seq<u8>)
    requires
        peer_wf(p),
    ensures
        peer_from_bytes(peer_bytes(p) + rest) == without_heartbeat(p),
        (peer_bytes(p) + rest).len() >= 24,
        (peer_bytes(p) + rest).skip(24) == rest,
{
    let b = peer_bytes(p) + rest;
    lemma_u16_be_roundtrip(p.addr.port);
    assert(b.take(18) =~= p.id);
    assert(b.subrange(18, 22) =~= p.addr.octets);
    assert(b.subrange(22, 24) =~= u16_be_bytes(p.addr.port));
    assert(b.skip(24) =~= rest);
}

/// Whether every character of the text is of the URL-safe base64 alphabet.
pub open spec fn url_safe_text(s: Seq<char>) -> bool {
    forall|i: int| 0 <= i < s.len() ==> is_url_safe_char(#[trigger] s[i])
}

/// The text form of a peer is ASCII, and at most 47 characters long: 24 for
/// the ID, two colons and at most 21 for the address.
pub proof fn lemma_peer_text_ascii(p: PeerView)
    requires
        peer_wf(p),
    ensures
        url_safe_text(peer_id_text(p.id)),
        is_ascii_chars(peer_text(p)),
        encode_utf8(peer_text(p)).len() == peer_text(p).len(),
        peer_text(p).len() <= 47,
{
    let idt = peer_id_text(p.id);
    let st = socket_text(p.addr);
    let sep = seq![':', ':'];
    let t = peer_text(p);
    lemma_base64_url_encoding(p.id);
    lemma_socket_text_len(p.addr);
    assert(is_ascii_chars(t)) by {
        assert forall|k: int| 0 <= k < t.len() implies '\0' <= #[trigger] t[k] <= '\u{7f}' by {
            if k < idt.len() {
                assert(t[k] == idt[k]);
                assert(is_url_safe_char(idt[k]));
            } else if k < idt.len() + 2 {
                assert(t[k] == sep[k - idt.len()]);
            } else {
                assert(t[k] == st[k - idt.len() - 2]);
            }
        }
    }
    is_ascii_chars_encode_utf8(t);
}

/// Where the two colons and the parts around them stand in the bytes of the
/// text form of a peer.
proof fn lemma_peer_text_layout(p: PeerView)
    requires
        peer_wf(p),
    ensures
        ({
            let b = encode_utf8(peer_text(p));
            let i = peer_id_text(p.id).len() as int;
            &&& first_pair_index(b, 58) == i
            &&& decode_utf8(b.take(i)) == peer_id_text(p.id)
            &&& b.skip(i + 2) == encode_utf8(socket_text(p.addr))
        }),
{
    let idt = peer_id_text(p.id);
    let st = socket_text(p.addr);
    let sep = seq![':', ':'];
    let t = peer_text(p);
    lemma_base64_url_encoding(p.id);
    lemma_socket_text_roundtrip(p.addr);
    assert(is_ascii_chars(idt)) by {
        assert forall|k: int| 0 <= k < idt.len() implies '\0' <= #[trigger] idt[k] <= '\u{7f}' by {
            assert(is_url_safe_char(idt[k]));
        }
    }
    assert(is_ascii_chars(sep));
    assert(is_ascii_chars(t)) by {
        assert forall|k: int| 0 <= k < t.len() implies '\0' <= #[trigger] t[k] <= '\u{7f}' by {
            if k < idt.len() {
                assert(t[k] == idt[k]);
            } else if k < idt.len() + 2 {
                assert(t[k] == sep[k - idt.len()]);
            } else {
                assert(t[k] == st[k - idt.len() - 2]);
            }
        }
    }
    is_ascii_chars_encode_utf8(t);
    is_ascii_chars_encode_utf8(idt);
    is_ascii_chars_encode_utf8(st);
    let b = encode_utf8(t);
    let i = idt.len() as int;
    assert(b.take(i) =~= encode_utf8(idt)) by {
        assert forall|k: int| 0 <= k < i implies b.take(i)[k] == encode_utf8(idt)[k] by {
            assert(t[k] == idt[k]);
        }
    }
    encode_utf8_decode_utf8(idt);
    assert(b.skip(i + 2) =~= encode_utf8(st)) by {
        assert forall|k: int| 0 <= k < st.len() implies b.skip(i + 2)[k] == encode_utf8(st)[k] by {
            assert(t[i + 2 + k] == st[k]);
        }
    }
    assert(':' as u8 == 58u8);
    assert(is_first_pair(b, 58, i)) by {
        assert(b[i] == t[i] as u8);
        assert(b[i + 1] == t[i + 1] as u8);
        assert forall|j: int| 0 <= j < i implies !#[trigger] pair_at(b, 58, j) by {
            assert(b[j] == t[j] as u8);
            assert(t[j] == idt[j]);
            assert(is_url_safe_char(idt[j]));
        }
    }
    lemma_first_pair_unique(b, 58, i);
}

/// In a UTF-8 text that begins with two one-byte characters, the third byte
/// begins a character.
proof fn lemma_boundary_after_two_ascii(b: Seq<u8>)
    requires
        valid_utf8(b),
        b.len() >= 2,
        b[0] < 128,
        b[1] < 128,
    ensures
        is_char_boundary(b, 2),
{
    let p1 = pop_first_scalar(b);
    assert(p1 =~= b.subrange(1, b.len() as int));
    assert(valid_utf8(p1));
    let p2 = pop_first_scalar(p1);
    assert(p2 =~= b.subrange(2, b.len() as int));
    assert(is_char_boundary(p2, 0));
    assert(is_char_boundary(p1, 1));
}

impl Peer {
    /// Create peer from known ID and address.
    pub fn new(id: PeerId, addr: SocketAddrV4) -> (p: Peer)
        ensures
            p@ == (PeerView { id: id@, addr: addr@, last_heartbeat: None }),
    {
        Peer { id, addr, last_heartbeat: None }
    }

    /// Create peer from address with random ID. Mainly used to initialize the
    /// using node as a peer itself. `None` where the operating system cannot
    /// give random bytes.
    pub fn with_random_id(addr: SocketAddrV4) -> (r: Option<Peer>)
        ensures
            r matches Some(p) ==> p@.addr == addr@ && p@.last_heartbeat is None && p@.id.len()
                == 18,
    {
        match PeerId::random() {
            Some(id) => Some(Self::new(id, addr)),
            None => None,
        }
    }

    /// Create peer from IPv4 octets and port number.
    pub fn from_socket(id: PeerId, ip: [u8; 4], port: u16) -> (p: Peer)
        ensures
            p@ == (PeerView {
                id: id@,
                addr: SocketAddrView { octets: ip@, port },
                last_heartbeat: None,
            }),
    {
        Self::new(id, SocketAddrV4::new(ip, port))
    }

    /// Create peer from IPv4 octets and port number, with a random ID. `None`
    /// where the operating system cannot give random bytes.
    pub fn from_socket_random_id(ip: [u8; 4], port: u16) -> (r: Option<Peer>)
        ensures
            r matches Some(p) ==> p@.addr == (SocketAddrView { octets: ip@, port })
                && p@.last_heartbeat is None && p@.id.len() == 18,
    {
        match PeerId::random() {
            Some(id) => Some(Self::new(id, SocketAddrV4::new(ip, port))),
            None => None,
        }
    }

    /// Try to create peer from ID, IPv4, and port number, given as a string.
    pub fn try_from_socket_str(id: PeerId, socket: &str) -> (r: Result<Peer, Error>)
        ensures
            result_is(
                r,
                match std_socket_addr(socket.spec_bytes()) {
                    Some(a) => Ok(PeerView { id: id@, addr: a, last_heartbeat: None }),
                    None => Err(parsing_error(socket@, "SocketAddrV4"@)),
                },
            ),
    {
        match parse_ipv4socket(socket) {
            Ok(addr) => Ok(Self::new(id, addr)),
            Err(e) => Err(e),
        }
    }

    /// Try to create peer from IPv4 and port number, given as string. An empty,
    /// all-zero peer ID will be used. Intended to connect to a peer with known
    /// socket address but unknown ID.
    pub fn try_from_socket_str_empty_id(socket: &str) -> (r: Result<Peer, Error>)
        ensures
            result_is(
                r,
                match std_socket_addr(socket.spec_bytes()) {
                    Some(a) => Ok(
                        PeerView { id: Seq::new(18, |i: int| 0u8), addr: a, last_heartbeat: None },
                    ),
                    None => Err(parsing_error(socket@, "SocketAddrV4"@)),
                },
            ),
    {
        Self::try_from_socket_str(PeerId::empty(), socket)
    }

    /// Write ID and socket address into bytes buffer.
    pub fn write_to_bytes(&self, bytes: &mut BytesMut)
        requires
            buffer_bytes(*old(bytes)).len() + PEER_BYTES_LEN <= buffer_limit(),
        ensures
            buffer_bytes(*final(bytes)) == buffer_bytes(*old(bytes)) + peer_bytes(self@),
    {
        self.id.write_to_bytes(bytes);
        buffer_put_slice(bytes, &self.addr.octets);
        buffer_put_u16(bytes, self.addr.port);
        assert(buffer_bytes(*bytes) =~= buffer_bytes(*old(bytes)) + peer_bytes(self@));
    }

    /// Read ID and socket address from bytes buffer. A buffer that holds fewer
    /// than 18 bytes gives `Error::Deserialization` and is left as it was; one
    /// that holds at least 18 but fewer than 24 gives the same error after the
    /// 18 bytes of the ID were taken from it.
    pub fn read_from_bytes(bytes: &mut BytesMut) -> (r: Result<Peer, Error>)
        ensures
            ({
                let b = buffer_bytes(*old(bytes));
                &&& b.len() < 18 ==> r == Err::<Peer, Error>(Error::Deserialization)
                    && buffer_bytes(*final(bytes)) == b
                &&& 18 <= b.len() < 24 ==> r == Err::<Peer, Error>(Error::Deserialization)
                    && buffer_bytes(*final(bytes)) == b.skip(18)
                &&& b.len() >= 24 ==> (r matches Ok(p) && p@ == peer_from_bytes(b))
                    && buffer_bytes(*final(bytes)) == b.skip(24)
            }),
    {
        let ghost b = buffer_bytes(*bytes);
        let id = match PeerId::read_from_bytes(bytes) {
            Ok(id) => id,
            Err(e) => {
                return Err(e);
            },
        };
        if buffer_remaining(bytes) < 6 {
            Err(Error::Deserialization)
        } else {
            let mut ip = [0u8; 4];
            ip[0] = buffer_get_u8(bytes);
            ip[1] = buffer_get_u8(bytes);
            ip[2] = buffer_get_u8(bytes);
            ip[3] = buffer_get_u8(bytes);
            let port = buffer_get_u16(bytes);
            assert(ip@ =~= b.subrange(18, 22));
            assert(b.skip(18).skip(1).skip(1).skip(1).skip(1) =~= b.skip(22));
            assert(b.skip(22) =~= b.subrange(22, b.len() as int));
            assert(b.skip(22).skip(2) =~= b.skip(24));
            assert(u16_from_be(b.skip(22)) == u16_from_be(b.subrange(22, 24)));
            let p = Peer::new(id, SocketAddrV4::new(ip, port));
            assert(p@.addr =~= peer_from_bytes(b).addr);
            Ok(p)
        }
    }

    /// Format ID and socket address as string.
    pub fn to_string(&self) -> (s: String)
        ensures
            s@ == peer_text(self@),
            url_safe_text(peer_id_text(self@.id)),
            encode_utf8(s@).len() == s@.len(),
            s@.len() <= 47,
    {
        let mut s = self.id.to_string();
        s.append("::");
        let a = self.addr.to_string();
        s.append(a.as_str());
        proof {
            reveal_strlit("::");
        }
        assert(s@ =~= peer_text(self@));
        proof {
            lemma_peer_text_ascii(self@);
        }
        s
    }

    /// Parses a peer from its text form, `ID::a.b.c.d:port`. Text without
    /// `::` gives `Error::Parsing` with the text and `Peer`; an ID or address
    /// that cannot be read gives the error of reading it.
    pub fn from_str(string: &str) -> (r: Result<Peer, Error>)
        requires
            string.spec_bytes().len() <= usize::MAX - 3,
        ensures
            result_is(r, peer_parse(string@)),
            forall|p: PeerView|
                #![trigger peer_text(p)]
                peer_wf(p) && string@ == peer_text(p) ==> (
                r matches Ok(x) && x@ == without_heartbeat(p)),
    {
        let b = string.as_bytes();
        let ghost bs = b@;
        proof {
            encode_utf8_valid_utf8(string@);
        }
        let i = match find_pair(b, 58) {
            Some(i) => i,
            None => {
                proof {
                    assert forall|p: PeerView|
                        #![trigger peer_text(p)]
                        peer_wf(p) && string@ == peer_text(p) implies false by {
                        lemma_peer_text_layout(p);
                    }
                }
                return Err(Error::Parsing { from: string.to_owned(), to: "Peer".to_owned() });
            },
        };
        proof {
            is_char_boundary_iff_not_is_continuation_byte(bs, i as int);
        }
        let (id_str, rest) = string.split_at(i);
        proof {
            valid_utf8_split(bs, i as int);
            lemma_boundary_after_two_ascii(rest.spec_bytes());
            encode_utf8_decode_utf8(id_str@);
            assert(bs.take(i as int) =~= bs.subrange(0, i as int));
        }
        let (_, addr_str) = rest.split_at(2);
        proof {
            encode_utf8_decode_utf8(addr_str@);
            assert(bs.skip(i + 2) =~= addr_str.spec_bytes());
            assert forall|p: PeerView|
                #![trigger peer_text(p)]
                peer_wf(p) && string@ == peer_text(p) implies id_str@ == peer_id_text(p.id) && std_socket_addr(addr_str.spec_bytes())
                == Some(p.addr) by {
                lemma_peer_text_layout(p);
                lemma_socket_text_roundtrip(p.addr);
            }
        }
        let id = match PeerId::from_str(id_str) {
            Ok(id) => id,
            Err(e) => {
                return Err(e);
            },
        };
        let addr = match parse_ipv4socket(addr_str) {
            Ok(a) => a,
            Err(e) => {
                return Err(e);
            },
        };
        Ok(Peer { id, addr, last_heartbeat: None })
    }
}

impl PartialEq for Peer {
    fn eq(&self, other: &Self) -> (r: bool) {
        self.id == other.id && self.addr == other.addr && self.last_heartbeat
            == other.last_heartbeat
    }
}

impl PartialEqSpecImpl for Peer {
    open spec fn obeys_eq_spec() -> bool {
        true
    }

    open spec fn eq_spec(&self, other: &Peer) -> bool {
        self@ == other@
    }
}

impl Eq for Peer {

}

impl core::str::FromStr for Peer {
    type Err = Error;

    fn from_str(string: &str) -> (r: Result<Peer, Error>)
        ensures
            string.spec_bytes().len() <= usize::MAX - 3 ==> result_is(r, peer_parse(string@)),
            string.spec_bytes().len() > usize::MAX - 3 ==> (r matches Err(e) && e@
                == parsing_error(string@, "Peer"@)),
            forall|p: PeerView|
                #![trigger peer_text(p)]
                peer_wf(p) && string@ == peer_text(p)
                    && string.spec_bytes().len() <= usize::MAX - 3 ==> (r matches Ok(x) && x@
                    == without_heartbeat(p)),
    {
        // No string in memory is this long; the check keeps the length
        // computations of the ID decoder from overflowing.
        if string.as_bytes().len() > usize::MAX - 3 {
            return Err(Error::Parsing { from: string.to_owned(), to: "Peer".to_owned() });
        }
        Peer::from_str(string)
    }
}

} // verus!
