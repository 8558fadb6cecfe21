//! The messages that peers exchange and their binary form.
use vstd::prelude::*;

use bytes::{Bytes, BytesMut};

use crate::buffer::{
    buffer_bytes, buffer_extend_from_slice, buffer_freeze, frozen_bytes, buffer_get_u64, buffer_get_u8, buffer_limit,
    buffer_put_u64, buffer_put_u8, buffer_remaining, buffer_to_vec, buffer_with_capacity,
    lemma_u64_be_roundtrip, u16_be_bytes, u64_be_bytes, u64_from_be,
};
use crate::error::Error;
use crate::peer::{
    lemma_peer_bytes_roundtrip, peer_bytes, peer_from_bytes, peer_wf, without_heartbeat, Peer,
    PeerView,
};

verus! {

/// The number of bytes that a peer takes in a message: its ID, the four
/// octets of its address and its port.
pub const PEER_BYTES_LEN: usize = 24;

/// The messages of the protocol.
#[derive(Debug, PartialEq, Eq, Clone)]
pub enum P2pMsg {
    /// Send heartbeat (and my own ID + addr) to signal that I am online.
    Heartbeat(Peer),
    /// Request a heartbeat from another peer, e.g. to find establish a direct
    /// connection. The first field is the sender of the message, the second
    /// a serial for this requeslt, and the third the peer whose heartbeat is
    /// requested.
    RequestHeartbeat(Peer, u64, Peer),
    /// Request a peerlist to update mine, used while building the initial
    /// network connection.
    RequestPeerlist(Peer),
    /// Answer to a peerlist request.
    Peerlist(Vec<Peer>),
    /// Sending data. First field is the peer who sent the data, second field a
    /// serial to avoid re-broadcasting the same message, third field the
    /// actual message.
    Data(Peer, u64, Vec<u8>),
}

/// The value of a message.
pub enum MsgView {
    Heartbeat(PeerView),
    RequestHeartbeat(PeerView, u64, PeerView),
    RequestPeerlist(PeerView),
    Peerlist(Seq<PeerView>),
    Data(PeerView, u64, Seq<u8>),
}

/// The values of a sequence of peers.
pub open spec fn peer_views(ps: Seq<Peer>) -> Seq<PeerView> {
    ps.map_values(|p: Peer| p@)
}

impl View for P2pMsg {
    type V = MsgView;

    open spec fn view(&self) -> MsgView {
        match self {
            P2pMsg::Heartbeat(p) => MsgView::Heartbeat(p@),
            P2pMsg::RequestHeartbeat(from, serial, to) => MsgView::RequestHeartbeat(
                from@,
                *serial,
                to@,
            ),
            P2pMsg::RequestPeerlist(p) => MsgView::RequestPeerlist(p@),
            P2pMsg::Peerlist(ps) => MsgView::Peerlist(peer_views(ps@)),
            P2pMsg::Data(p, serial, data) => MsgView::Data(p@, *serial, data@),
        }
    }
}

/// The bytes of a list of peers: the bytes of each peer, one after another.
pub open spec fn peers_bytes(ps: Seq<PeerView>) -> Seq<u8>
    decreases ps.len(),
{
    if ps.len() == 0 {
        seq![]
    } else {
        peers_bytes(ps.drop_last()) + peer_bytes(ps.last())
    }
}

/// The binary form of a message: a byte for its kind (1 to 5), then its
/// fields; serials are big-endian, and the data of a `Data` message runs to
/// the end.
pub open spec fn msg_bytes(m: MsgView) -> Seq<u8> {
    match m {
        MsgView::Heartbeat(p) => seq![1u8] + peer_bytes(p),
        MsgView::RequestHeartbeat(from, serial, to) => seq![2u8] + peer_bytes(from)
            + u64_be_bytes(serial) + peer_bytes(to),
        MsgView::RequestPeerlist(p) => seq![3u8] + peer_bytes(p),
        MsgView::Peerlist(ps) => seq![4u8] + peers_bytes(ps),
        MsgView::Data(p, serial, data) => seq![5u8] + peer_bytes(p) + u64_be_bytes(serial) + data,
    }
}

/// The number of bytes of the binary form of a message.
pub open spec fn msg_len(m: MsgView) -> int {
    match m {
        MsgView::Heartbeat(_) => 25,
        MsgView::RequestHeartbeat(_, _, _) => 57,
        MsgView::RequestPeerlist(_) => 25,
        MsgView::Peerlist(ps) => 1 + 24 * ps.len() as int,
        MsgView::Data(_, _, data) => 33 + data.len() as int,
    }
}

/// The peers that the bytes `b` stand for, 24 bytes each.
pub open spec fn peers_from_bytes(b: Seq<u8>) -> Seq<PeerView> {
    Seq::new(b.len() / 24, |i: int| peer_from_bytes(b.subrange(24 * i, 24 * i + 24)))
}

/// The message that the bytes `b` stand for, if any. Empty bytes stand for
/// none. A heartbeat and a peer-list request take exactly one peer; a
/// heartbeat request exactly a peer, a serial and a peer; a peer list a whole
/// number of peers; data more than a peer and a serial.
pub open spec fn msg_decode(b: Seq<u8>) -> Option<MsgView> {
    let kind = b[0];
    let r = b.skip(1);
    if b.len() == 0 {
        None
    } else if kind == 1 && r.len() == 24 {
        Some(MsgView::Heartbeat(peer_from_bytes(r)))
    } else if kind == 2 && r.len() == 56 {
        Some(
            MsgView::RequestHeartbeat(
                peer_from_bytes(r),
                u64_from_be(r.subrange(24, 32)),
                peer_from_bytes(r.skip(32)),
            ),
        )
    } else if kind == 3 && r.len() == 24 {
        Some(MsgView::RequestPeerlist(peer_from_bytes(r)))
    } else if kind == 4 && r.len() % 24 == 0 {
        Some(MsgView::Peerlist(peers_from_bytes(r)))
    } else if kind == 5 && r.len() > 32 {
        Some(MsgView::Data(peer_from_bytes(r), u64_from_be(r.subrange(24, 32)), r.skip(32)))
    } else {
        None
    }
}

/// Whether every peer of a message has an 18-byte ID and four octets, as
/// the values of the library's peers do.
pub open spec fn msg_wf(m: MsgView) -> bool {
    match m {
        MsgView::Heartbeat(p) => peer_wf(p),
        MsgView::RequestHeartbeat(from, _, to) => peer_wf(from) && peer_wf(to),
        MsgView::RequestPeerlist(p) => peer_wf(p),
        MsgView::Peerlist(ps) => forall|i: int| 0 <= i < ps.len() ==> peer_wf(#[trigger] ps[i]),
        MsgView::Data(p, _, _) => peer_wf(p),
    }
}

/// The bytes of `n` peers are `24 * n` bytes.
pub proof fn lemma_peers_bytes_len(ps: Seq<PeerView>)
    requires
        forall|i: int| 0 <= i < ps.len() ==> peer_wf(#[trigger] ps[i]),
    ensures
        peers_bytes(ps).len() == 24 * ps.len(),
    decreases ps.len(),
{
    if ps.len() > 0 {
        let q = ps.drop_last();
        assert forall|i: int| 0 <= i < q.len() implies peer_wf(#[trigger] q[i]) by {
            assert(q[i] == ps[i]);
        }
        lemma_peers_bytes_len(q);
        assert(peer_wf(ps[ps.len() - 1]));
    }
}

/// The binary form of a message has `msg_len` bytes.
pub proof fn lemma_msg_len(m: MsgView)
    requires
        msg_wf(m),
    ensures
        msg_bytes(m).len() == msg_len(m),
{
    if let MsgView::Peerlist(ps) = m {
        lemma_peers_bytes_len(ps);
    }
}

/// The value of a message of the library is well formed.
pub proof fn lemma_msg_view_wf(m: P2pMsg)
    ensures
        msg_wf(m@),
{
    if let P2pMsg::Peerlist(ps) = m {
        assert forall|i: int| 0 <= i < peer_views(ps@).len() implies peer_wf(
            #[trigger] peer_views(ps@)[i],
        ) by {
            assert(peer_views(ps@)[i] == ps@[i]@);
        }
    }
}

/// Reading a peer looks at its first 24 bytes only.
proof fn lemma_peer_from_prefix(a: Seq<u8>, b: Seq<u8>)
    requires
        a.len() >= 24,
        b.len() >= 24,
        a.take(24) == b.take(24),
    ensures
        peer_from_bytes(a) == peer_from_bytes(b),
{
    assert(a.take(18) =~= a.take(24).take(18));
    assert(b.take(18) =~= b.take(24).take(18));
    assert(a.subrange(18, 22) =~= a.take(24).subrange(18, 22));
    assert(b.subrange(18, 22) =~= b.take(24).subrange(18, 22));
    assert(a.subrange(22, 24) =~= a.take(24).subrange(22, 24));
    assert(b.subrange(22, 24) =~= b.take(24).subrange(22, 24));
}

/// A message as it arrives: its peers without the times of their last
/// heartbeats.
pub open spec fn without_heartbeats(m: MsgView) -> MsgView {
    match m {
        MsgView::Heartbeat(p) => MsgView::Heartbeat(without_heartbeat(p)),
        MsgView::RequestHeartbeat(from, serial, to) => MsgView::RequestHeartbeat(
            without_heartbeat(from),
            serial,
            without_heartbeat(to),
        ),
        MsgView::RequestPeerlist(p) => MsgView::RequestPeerlist(without_heartbeat(p)),
        MsgView::Peerlist(ps) => MsgView::Peerlist(ps.map_values(|p: PeerView| without_heartbeat(p))),
        MsgView::Data(p, serial, data) => MsgView::Data(without_heartbeat(p), serial, data),
    }
}

/// Whether a message survives its binary form: every message but data
/// without any bytes.
pub open spec fn roundtrips(m: MsgView) -> bool {
    match m {
        MsgView::Data(_, _, data) => data.len() > 0,
        _ => true,
    }
}

/// Reading back the bytes of a list of peers gives the peers without their
/// heartbeat times.
proof fn lemma_peers_bytes_roundtrip(ps: Seq<PeerView>)
    requires
        forall|i: int| 0 <= i < ps.len() ==> peer_wf(#[trigger] ps[i]),
    ensures
        peers_from_bytes(peers_bytes(ps)) == ps.map_values(|p: PeerView| without_heartbeat(p)),
    decreases ps.len(),
{
    lemma_peers_bytes_len(ps);
    let b = peers_bytes(ps);
    let target = ps.map_values(|p: PeerView| without_heartbeat(p));
    if ps.len() > 0 {
        let q = ps.drop_last();
        assert forall|i: int| 0 <= i < q.len() implies peer_wf(#[trigger] q[i]) by {
            assert(q[i] == ps[i]);
        }
        lemma_peers_bytes_roundtrip(q);
        lemma_peers_bytes_len(q);
        let bq = peers_bytes(q);
        let last = ps[ps.len() - 1];
        assert(peer_wf(last));
        assert(b == bq + peer_bytes(last));
        assert forall|i: int| 0 <= i < ps.len() implies #[trigger] peers_from_bytes(b)[i]
            == target[i] by {
            if i < q.len() {
                assert(b.subrange(24 * i, 24 * i + 24) =~= bq.subrange(24 * i, 24 * i + 24));
                assert(peers_from_bytes(bq)[i] == q.map_values(
                    |p: PeerView| without_heartbeat(p),
                )[i]);
            } else {
                assert(b.subrange(24 * i, 24 * i + 24) =~= peer_bytes(last) + Seq::<u8>::empty());
                lemma_peer_bytes_roundtrip(last, Seq::<u8>::empty());
            }
        }
        assert(peers_from_bytes(b) =~= target);
    } else {
        assert(peers_from_bytes(b) =~= target);
    }
}

/// A message that carries data if it is a data message is read back from its binary form as it was sent, but for
/// the heartbeat times of its peers, which are not sent.
pub proof fn lemma_msg_roundtrip(m: MsgView)
    requires
        msg_wf(m),
        roundtrips(m),
    ensures
        msg_decode(msg_bytes(m)) == Some(without_heartbeats(m)),
{
    lemma_msg_len(m);
    let b = msg_bytes(m);
    let r = b.skip(1);
    match m {
        MsgView::Heartbeat(p) => {
            assert(r =~= peer_bytes(p) + Seq::<u8>::empty());
            lemma_peer_bytes_roundtrip(p, Seq::<u8>::empty());
        },
        MsgView::RequestHeartbeat(from, serial, to) => {
            let rest = u64_be_bytes(serial) + peer_bytes(to);
            assert(r =~= peer_bytes(from) + rest);
            lemma_peer_bytes_roundtrip(from, rest);
            assert(r.subrange(24, 32) =~= u64_be_bytes(serial));
            lemma_u64_be_roundtrip(serial);
            assert(r.skip(32) =~= peer_bytes(to) + Seq::<u8>::empty());
            lemma_peer_bytes_roundtrip(to, Seq::<u8>::empty());
        },
        MsgView::RequestPeerlist(p) => {
            assert(r =~= peer_bytes(p) + Seq::<u8>::empty());
            lemma_peer_bytes_roundtrip(p, Seq::<u8>::empty());
        },
        MsgView::Peerlist(ps) => {
            assert(r =~= peers_bytes(ps));
            lemma_peers_bytes_len(ps);
            lemma_peers_bytes_roundtrip(ps);
        },
        MsgView::Data(p, serial, data) => {
            let rest = u64_be_bytes(serial) + data;
            assert(r =~= peer_bytes(p) + rest);
            lemma_peer_bytes_roundtrip(p, rest);
            assert(r.subrange(24, 32) =~= u64_be_bytes(serial));
            lemma_u64_be_roundtrip(serial);
            assert(r.skip(32) =~= data);
        },
    }
}

/// The 24 bytes of a peer on the wire: the 18 bytes of its ID, the four
/// octets of its address, then its port, high byte first.
pub open spec fn peer_wire(p: PeerView) -> Seq<u8> {
    p.id + p.addr.octets + seq![(p.addr.port as int / 256) as u8, (p.addr.port as int % 256) as u8]
}

/// The 8 bytes of a serial on the wire, most significant first.
pub open spec fn serial_wire(x: u64) -> Seq<u8> {
    seq![
        (x as int / 0x100000000000000) as u8,
        (x as int / 0x1000000000000 % 256) as u8,
        (x as int / 0x10000000000 % 256) as u8,
        (x as int / 0x100000000 % 256) as u8,
        (x as int / 0x1000000 % 256) as u8,
        (x as int / 0x10000 % 256) as u8,
        (x as int / 0x100 % 256) as u8,
        (x as int % 256) as u8,
    ]
}

/// The bytes of a peer are its wire bytes.
proof fn lemma_peer_wire(p: PeerView)
    ensures
        peer_bytes(p) == peer_wire(p),
{
    let x = p.addr.port;
    assert((x >> 8u16) as u8 == (x / 256) as u8 && x as u8 == (x % 256) as u8) by (bit_vector);
    assert(u16_be_bytes(x) =~= seq![(x as int / 256) as u8, (x as int % 256) as u8]);
}

/// The big-endian bytes of a serial are its wire bytes.
proof fn lemma_serial_wire(x: u64)
    ensures
        u64_be_bytes(x) == serial_wire(x),
{
    assert((x >> 56u64) as u8 == (x / 0x100000000000000u64) as u8) by (bit_vector);
    assert((x >> 48u64) as u8 == (x / 0x1000000000000u64 % 256) as u8) by (bit_vector);
    assert((x >> 40u64) as u8 == (x / 0x10000000000u64 % 256) as u8) by (bit_vector);
    assert((x >> 32u64) as u8 == (x / 0x100000000u64 % 256) as u8) by (bit_vector);
    assert((x >> 24u64) as u8 == (x / 0x1000000u64 % 256) as u8) by (bit_vector);
    assert((x >> 16u64) as u8 == (x / 0x10000u64 % 256) as u8) by (bit_vector);
    assert((x >> 8u64) as u8 == (x / 0x100u64 % 256) as u8) by (bit_vector);
    assert(x as u8 == (x % 256) as u8) by (bit_vector);
    assert(u64_be_bytes(x) =~= serial_wire(x));
}

/// The bytes of the `k`-th peer of a list stand at `24 * k` in the bytes of
/// the list.
proof fn lemma_peers_bytes_at(ps: Seq<PeerView>, k: int)
    requires
        forall|i: int| 0 <= i < ps.len() ==> peer_wf(#[trigger] ps[i]),
        0 <= k < ps.len(),
    ensures
        peers_bytes(ps).subrange(24 * k, 24 * k + 24) == peer_bytes(ps[k]),
    decreases ps.len(),
{
    let q = ps.drop_last();
    assert forall|i: int| 0 <= i < q.len() implies peer_wf(#[trigger] q[i]) by {
        assert(q[i] == ps[i]);
    }
    lemma_peers_bytes_len(q);
    assert(peer_wf(ps[ps.len() - 1]));
    let b = peers_bytes(ps);
    assert(b == peers_bytes(q) + peer_bytes(ps.last()));
    if k < q.len() {
        lemma_peers_bytes_at(q, k);
        assert(b.subrange(24 * k, 24 * k + 24) =~= peers_bytes(q).subrange(24 * k, 24 * k + 24));
        assert(q[k] == ps[k]);
    } else {
        assert(b.subrange(24 * k, 24 * k + 24) =~= peer_bytes(ps.last()));
    }
}

/// The wire format of the messages: a kind byte, 1 for a heartbeat, 2 for a
/// heartbeat request, 3 for a peer-list request, 4 for a peer list and 5 for
/// data, then the fields in order, peers as their 24 wire bytes, serials as
/// their 8 bytes most significant first, and data as it is. Those bytes are
/// read back as the message, without the heartbeat times of its peers.
#[verifier::spinoff_prover]
pub proof fn lemma_wire_format(m: MsgView)
    requires
        msg_wf(m),
        roundtrips(m),
    ensures
        match m {
            MsgView::Heartbeat(p) => msg_bytes(m) == seq![1u8] + peer_wire(p),
            MsgView::RequestHeartbeat(from, serial, to) => msg_bytes(m) == seq![2u8] + peer_wire(
                from,
            ) + serial_wire(serial) + peer_wire(to),
            MsgView::RequestPeerlist(p) => msg_bytes(m) == seq![3u8] + peer_wire(p),
            MsgView::Peerlist(ps) => {
                &&& msg_bytes(m).len() == 1 + 24 * ps.len()
                &&& msg_bytes(m)[0] == 4u8
                &&& forall|k: int|
                    0 <= k < ps.len() ==> msg_bytes(m).subrange(1 + 24 * k, 25 + 24 * k)
                        == peer_wire(#[trigger] ps[k])
            },
            MsgView::Data(p, serial, data) => msg_bytes(m) == seq![5u8] + peer_wire(p)
                + serial_wire(serial) + data,
        },
        msg_decode(msg_bytes(m)) == Some(without_heartbeats(m)),
{
    lemma_msg_roundtrip(m);
    match m {
        MsgView::Heartbeat(p) => {
            lemma_peer_wire(p);
        },
        MsgView::RequestHeartbeat(from, serial, to) => {
            lemma_peer_wire(from);
            lemma_peer_wire(to);
            lemma_serial_wire(serial);
        },
        MsgView::RequestPeerlist(p) => {
            lemma_peer_wire(p);
        },
        MsgView::Peerlist(ps) => {
            lemma_peers_bytes_len(ps);
            let b = msg_bytes(m);
            assert forall|k: int| 0 <= k < ps.len() implies b.subrange(1 + 24 * k, 25 + 24 * k)
                == peer_wire(#[trigger] ps[k]) by {
                lemma_peers_bytes_at(ps, k);
                lemma_peer_wire(ps[k]);
                assert(b.subrange(1 + 24 * k, 25 + 24 * k) =~= peers_bytes(ps).subrange(
                    24 * k,
                    24 * k + 24,
                ));
            }
        },
        MsgView::Data(p, serial, data) => {
            lemma_peer_wire(p);
            lemma_serial_wire(serial);
        },
    }
}

impl P2pMsg {
    /// The binary form of the message.
    pub fn into_bytes_mut(self) -> (buffer: BytesMut)
        requires
            msg_len(self@) <= buffer_limit(),
        ensures
            buffer_bytes(buffer) == msg_bytes(self@),
    {
        proof {
            lemma_msg_view_wf(self);
            lemma_msg_len(self@);
        }
        let ghost m = self@;
        let mut buffer = buffer_with_capacity(1);
        match self {
            P2pMsg::Heartbeat(peer) => {
                buffer_put_u8(&mut buffer, 1);
                peer.write_to_bytes(&mut buffer);
            },
            P2pMsg::RequestHeartbeat(from, serial, to) => {
                buffer_put_u8(&mut buffer, 2);
                from.write_to_bytes(&mut buffer);
                buffer_put_u64(&mut buffer, serial);
                to.write_to_bytes(&mut buffer);
            },
            P2pMsg::RequestPeerlist(peer) => {
                buffer_put_u8(&mut buffer, 3);
                peer.write_to_bytes(&mut buffer);
            },
            P2pMsg::Peerlist(peers) => {
                buffer_put_u8(&mut buffer, 4);
                let ghost ps = peer_views(peers@);
                let mut i: usize = 0;
                while i < peers.len()
                    invariant
                        i <= peers@.len(),
                        ps == peer_views(peers@),
                        1 + 24 * peers@.len() <= buffer_limit(),
                        forall|j: int| 0 <= j < ps.len() ==> peer_wf(#[trigger] ps[j]),
                        buffer_bytes(buffer) == seq![4u8] + peers_bytes(ps.take(i as int)),
                    decreases peers@.len() - i,
                {
                    proof {
                        let q = ps.take(i as int);
                        assert forall|j: int| 0 <= j < q.len() implies peer_wf(#[trigger] q[j]) by {
                            assert(q[j] == ps[j]);
                        }
                        lemma_peers_bytes_len(q);
                        assert(ps.take(i + 1).drop_last() =~= q);
                        assert(ps.take(i + 1).last() == peers@[i as int]@);
                    }
                    peers[i].write_to_bytes(&mut buffer);
                    i = i + 1;
                }
                assert(ps.take(peers@.len() as int) =~= ps);
            },
            P2pMsg::Data(peer, serial, data) => {
                buffer_put_u8(&mut buffer, 5);
                peer.write_to_bytes(&mut buffer);
                buffer_put_u64(&mut buffer, serial);
                buffer_extend_from_slice(&mut buffer, data.as_slice());
            },
        }
        assert(buffer_bytes(buffer) =~= msg_bytes(m));
        buffer
    }

    /// The binary form of the message, in an immutable buffer.
    pub fn into_bytes(self) -> (bytes: Bytes)
        requires
            msg_len(self@) <= buffer_limit(),
        ensures
            frozen_bytes(bytes) == msg_bytes(self@),
    {
        buffer_freeze(self.into_bytes_mut())
    }

    /// Reads a message from its binary form. Bytes that stand for no message,
    /// empty bytes among them, give `Error::Deserialization`.
    pub fn try_from(bytes: BytesMut) -> (r: Result<P2pMsg, Error>)
        ensures
            match msg_decode(buffer_bytes(bytes)) {
                Some(m) => r matches Ok(x) && x@ == m,
                None => r == Err::<P2pMsg, Error>(Error::Deserialization),
            },
    {
        let ghost b = buffer_bytes(bytes);
        let mut bytes = bytes;
        if buffer_remaining(&bytes) == 0 {
            return Err(Error::Deserialization);
        }
        let type_byte = buffer_get_u8(&mut bytes);
        let remaining = buffer_remaining(&bytes);
        let ghost r = b.skip(1);
        assert(buffer_bytes(bytes) == r);
        if type_byte == 1 && remaining == PEER_BYTES_LEN {
            match Peer::read_from_bytes(&mut bytes) {
                Ok(peer) => Ok(P2pMsg::Heartbeat(peer)),
                Err(e) => Err(e),
            }
        } else if type_byte == 2 && remaining == 2 * PEER_BYTES_LEN + 8 {
            let from = match Peer::read_from_bytes(&mut bytes) {
                Ok(p) => p,
                Err(e) => {
                    return Err(e);
                },
            };
            let serial = buffer_get_u64(&mut bytes);
            proof {
                assert(r.skip(24).skip(8) =~= r.skip(32));
                assert(r.skip(24).take(8) =~= r.subrange(24, 32));
                assert(u64_from_be(r.skip(24)) == u64_from_be(r.subrange(24, 32)));
            }
            let to = match Peer::read_from_bytes(&mut bytes) {
                Ok(p) => p,
                Err(e) => {
                    return Err(e);
                },
            };
            Ok(P2pMsg::RequestHeartbeat(from, serial, to))
        } else if type_byte == 3 && remaining == PEER_BYTES_LEN {
            match Peer::read_from_bytes(&mut bytes) {
                Ok(peer) => Ok(P2pMsg::RequestPeerlist(peer)),
                Err(e) => Err(e),
            }
        } else if type_byte == 4 && remaining % PEER_BYTES_LEN == 0 {
            let ghost n: int = r.len() as int / 24;
            let mut peers: Vec<Peer> = Vec::new();
            let ghost mut k: int = 0;
            while buffer_remaining(&bytes) > 0
                invariant
                    r.len() == 24 * n,
                    0 <= k <= n,
                    buffer_bytes(bytes) == r.skip(24 * k),
                    peer_views(peers@) == peers_from_bytes(r).take(k),
                decreases n - k,
            {
                let ghost before = buffer_bytes(bytes);
                let ghost old_peers = peers@;
                assert(k < n);
                assert(before.len() >= 24);
                let peer = match Peer::read_from_bytes(&mut bytes) {
                    Ok(p) => p,
                    Err(e) => {
                        return Err(e);
                    },
                };
                proof {
                    let chunk = r.subrange(24 * k, 24 * k + 24);
                    assert(before.take(24) =~= chunk);
                    assert(chunk.take(24) =~= chunk);
                    lemma_peer_from_prefix(before, chunk);
                    assert(peer@ == peer_from_bytes(before));
                    assert(peers_from_bytes(r)[k] == peer_from_bytes(
                        r.subrange(24 * k, 24 * k + 24),
                    ));
                }
                peers.push(peer);
                proof {
                    assert(before.skip(24) =~= r.skip(24 * (k + 1)));
                    assert(peers@ == old_peers.push(peer));
                    assert(peer_views(peers@) =~= peer_views(old_peers).push(peer@));
                    assert(peer_views(peers@) =~= peers_from_bytes(r).take(k + 1));
                    k = k + 1;
                }
            }
            assert(peers_from_bytes(r).take(n) =~= peers_from_bytes(r));
            Ok(P2pMsg::Peerlist(peers))
        } else if type_byte == 5 && remaining > PEER_BYTES_LEN + 8 {
            let peer = match Peer::read_from_bytes(&mut bytes) {
                Ok(p) => p,
                Err(e) => {
                    return Err(e);
                },
            };
            let serial = buffer_get_u64(&mut bytes);
            let data = buffer_to_vec(&bytes);
            proof {
                assert(r.skip(24).skip(8) =~= r.skip(32));
                assert(r.skip(24).take(8) =~= r.subrange(24, 32));
                assert(u64_from_be(r.skip(24)) == u64_from_be(r.subrange(24, 32)));
            }
            Ok(P2pMsg::Data(peer, serial, data))
        } else {
            Err(Error::Deserialization)
        }
    }
}

} // verus!
