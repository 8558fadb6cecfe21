use banter::socket::SocketAddrV4;
use banter::{Error, Peer, PeerId};
use bytes::BytesMut;

#[test]
fn peer_serde() {
    let peers = [
        Peer::from_socket(PeerId::random().unwrap(), [127, 0, 0, 1], 32_000),
        Peer::from_socket(PeerId::random().unwrap(), [192, 168, 0, 25], 60_000),
        Peer::from_socket(PeerId::random().unwrap(), [255, 255, 255, 0], 1),
        Peer::from_socket(PeerId::random().unwrap(), [3, 141, 59, 26], 53589),
    ];

    let mut bytes = BytesMut::new();
    for peer in peers {
        peer.write_to_bytes(&mut bytes);
        assert_eq!(peer, Peer::read_from_bytes(&mut bytes).unwrap());
    }
}

#[test]
fn peer_bytes_are_24() {
    let p = Peer::from_socket(PeerId::empty(), [1, 2, 3, 4], 0xabcd);
    let mut bytes = BytesMut::new();
    p.write_to_bytes(&mut bytes);
    assert_eq!(bytes.len(), banter::PEER_BYTES_LEN);
    assert_eq!(&bytes[18..], &[1, 2, 3, 4, 0xab, 0xcd]);
}

#[test]
fn short_buffers_are_not_peers() {
    let mut bytes = BytesMut::from(&[9u8; 10][..]);
    assert_eq!(Peer::read_from_bytes(&mut bytes), Err(Error::Deserialization));
    assert_eq!(bytes.len(), 10);
    let mut bytes = BytesMut::from(&[9u8; 20][..]);
    assert_eq!(Peer::read_from_bytes(&mut bytes), Err(Error::Deserialization));
    assert_eq!(bytes.len(), 2);
}

#[test]
fn peer_text_form() {
    let p = Peer::from_socket(PeerId::empty(), [127, 0, 0, 1], 12000);
    assert_eq!(p.to_string(), "AAAAAAAAAAAAAAAAAAAAAAAA::127.0.0.1:12000");
    assert_eq!(Peer::from_str("AAAAAAAAAAAAAAAAAAAAAAAA::127.0.0.1:12000"), Ok(p));
}

#[test]
fn peer_text_roundtrip() {
    for port in [0u16, 1, 80, 12000, 65535] {
        let mut p = Peer::from_socket(PeerId::random().unwrap(), [0, 10, 200, 255], port);
        let s = p.to_string();
        let parsed: Peer = s.parse().unwrap();
        assert_eq!(Peer::from_str(&s), Ok(parsed));
        p.last_heartbeat = Some(5);
        let mut expected = p;
        expected.last_heartbeat = None;
        assert_eq!(Peer::from_str(&p.to_string()), Ok(expected));
    }
}

#[test]
fn peer_text_errors() {
    assert_eq!(
        Peer::from_str("no separator"),
        Err(Error::Parsing { from: "no separator".to_string(), to: "Peer".to_string() })
    );
    assert_eq!(
        Peer::from_str("AAAA::127.0.0.1:1"),
        Err(Error::Parsing { from: "AAAA".to_string(), to: "PeerId".to_string() })
    );
    assert_eq!(
        Peer::from_str("AAAAAAAAAAAAAAAAAAAAAAAA::127.0.0.1"),
        Err(Error::Parsing { from: "127.0.0.1".to_string(), to: "SocketAddrV4".to_string() })
    );
    assert_eq!(
        Peer::from_str("*::1.1.1.1:1"),
        Err(Error::Base64Decode { string: "*".to_string() })
    );
}

#[test]
fn peers_from_socket_text() {
    let id = PeerId::from([1u8; 18]);
    assert_eq!(
        Peer::try_from_socket_str(id, "10.0.0.7:99"),
        Ok(Peer::new(id, SocketAddrV4::new([10, 0, 0, 7], 99)))
    );
    assert_eq!(
        Peer::try_from_socket_str_empty_id("10.0.0.7:99"),
        Ok(Peer::new(PeerId::empty(), SocketAddrV4::new([10, 0, 0, 7], 99)))
    );
    assert_eq!(
        Peer::try_from_socket_str(id, "10.0.0.7"),
        Err(Error::Parsing { from: "10.0.0.7".to_string(), to: "SocketAddrV4".to_string() })
    );
    let p = Peer::from_socket_random_id([1, 1, 1, 1], 1).unwrap();
    assert_eq!(p.addr, SocketAddrV4::new([1, 1, 1, 1], 1));
    assert_eq!(p.last_heartbeat, None);
    let q = Peer::with_random_id(SocketAddrV4::new([2, 2, 2, 2], 2)).unwrap();
    assert_eq!(q.addr.port(), 2);
}

#[test]
fn peer_from_new_buffer() {
    let p = Peer::from_socket(PeerId::from([6u8; 18]), [9, 8, 7, 6], 513);
    let mut raw = vec![6u8; 18];
    raw.extend_from_slice(&[9, 8, 7, 6, 2, 1, 0xaa]);
    let mut b = banter::buffer::new_buffer(&raw);
    assert_eq!(Peer::read_from_bytes(&mut b), Ok(p));
    assert_eq!(&b[..], &[0xaa]);
}
