use banter::message::P2pMsg;
use banter::peerlist::PeerlistState;
use banter::{Error, Peer, PeerId};
use bytes::BytesMut;

#[test]
fn p2pmsg_serde() {
    let self_peer = Peer::from_socket_random_id([127, 0, 0, 1], 12000).unwrap();
    let messages = [
        P2pMsg::Heartbeat(self_peer),
        // RequestHeartbeat(self_peer),
        P2pMsg::RequestPeerlist(self_peer),
        P2pMsg::Peerlist(vec![
            Peer::from_socket_random_id([127, 0, 0, 1], 12001).unwrap(),
            Peer::from_socket_random_id([127, 0, 0, 1], 12002).unwrap(),
            Peer::from_socket_random_id([127, 0, 0, 1], 12003).unwrap(),
        ]),
        P2pMsg::Data(self_peer, 0, b"Hello, World!".to_vec()),
    ];

    for msg in messages {
        let bytes: BytesMut = msg.clone().into_bytes_mut();
        assert_eq!(msg, P2pMsg::try_from(bytes).unwrap());
    }
}

fn id_of(last: u8) -> PeerId {
    let mut b = [7u8; 18];
    b[17] = last;
    PeerId::from(b)
}

#[test]
fn heartbeat_bytes_layout() {
    let p = Peer::from_socket(PeerId::empty(), [127, 0, 0, 1], 12000);
    let bytes = P2pMsg::Heartbeat(p).into_bytes_mut();
    let mut expected = vec![1u8];
    expected.extend_from_slice(&[0u8; 18]);
    expected.extend_from_slice(&[127, 0, 0, 1, 0x2e, 0xe0]);
    assert_eq!(&bytes[..], &expected[..]);
}

#[test]
fn data_bytes_layout() {
    let p = Peer::from_socket(id_of(3), [1, 2, 3, 4], 0x0506);
    let bytes = P2pMsg::Data(p, 0x0102030405060708, vec![9, 9]).into_bytes_mut();
    let mut expected = vec![5u8];
    expected.extend_from_slice(&[7u8; 17]);
    expected.push(3);
    expected.extend_from_slice(&[1, 2, 3, 4, 5, 6]);
    expected.extend_from_slice(&[1, 2, 3, 4, 5, 6, 7, 8]);
    expected.extend_from_slice(&[9, 9]);
    assert_eq!(&bytes[..], &expected[..]);
}

#[test]
fn request_heartbeat_bytes_layout() {
    let a = Peer::from_socket(id_of(1), [10, 0, 0, 1], 1);
    let b = Peer::from_socket(id_of(2), [10, 0, 0, 2], 2);
    let bytes = P2pMsg::RequestHeartbeat(a, 42, b).into_bytes_mut();
    assert_eq!(bytes.len(), 57);
    assert_eq!(bytes[0], 2);
    assert_eq!(&bytes[25..33], &42u64.to_be_bytes());
    // a heartbeat request is read back as it was sent
    assert!(PeerlistState::accepts(&bytes));
    assert_eq!(
        P2pMsg::try_from(bytes.clone()),
        Ok(P2pMsg::RequestHeartbeat(a, 42, b))
    );
    // one that is cut short, or has bytes to spare, is no message
    assert_eq!(
        P2pMsg::try_from(BytesMut::from(&bytes[..25])),
        Err(Error::Deserialization)
    );
    assert_eq!(
        P2pMsg::try_from(BytesMut::from(&bytes[..56])),
        Err(Error::Deserialization)
    );
    let mut longer = bytes.to_vec();
    longer.push(0);
    assert_eq!(
        P2pMsg::try_from(BytesMut::from(&longer[..])),
        Err(Error::Deserialization)
    );
}

#[test]
fn empty_peerlist_roundtrip() {
    let msg = P2pMsg::Peerlist(vec![]);
    let bytes = msg.clone().into_bytes_mut();
    assert_eq!(&bytes[..], &[4u8][..]);
    assert_eq!(P2pMsg::try_from(bytes), Ok(msg));
}

#[test]
fn heartbeat_times_are_not_sent() {
    let mut p = Peer::from_socket(id_of(5), [8, 8, 8, 8], 53);
    p.last_heartbeat = Some(1234);
    let msg = P2pMsg::Peerlist(vec![p]);
    let back = P2pMsg::try_from(msg.into_bytes_mut()).unwrap();
    let mut expected = p;
    expected.last_heartbeat = None;
    assert_eq!(back, P2pMsg::Peerlist(vec![expected]));
}

#[test]
fn data_without_payload_is_not_read() {
    let p = Peer::from_socket(id_of(5), [8, 8, 8, 8], 53);
    let bytes = P2pMsg::Data(p, 1, vec![]).into_bytes_mut();
    assert_eq!(bytes.len(), 33);
    assert_eq!(P2pMsg::try_from(bytes), Err(Error::Deserialization));
}

#[test]
fn malformed_messages_are_rejected() {
    for raw in [
        vec![0u8],
        vec![6u8, 1, 2],
        vec![1u8; 24],
        vec![1u8; 26],
        vec![3u8; 2],
        vec![4u8; 24],
        vec![2u8; 58],
    ] {
        assert!(PeerlistState::accepts(&raw));
        assert_eq!(
            P2pMsg::try_from(BytesMut::from(&raw[..])),
            Err(Error::Deserialization)
        );
    }
    assert!(PeerlistState::accepts(&[]));
    assert_eq!(P2pMsg::try_from(BytesMut::new()), Err(Error::Deserialization));
}

#[test]
fn peerlist_of_two_is_read() {
    let a = Peer::from_socket(id_of(1), [10, 0, 0, 1], 1);
    let b = Peer::from_socket(id_of(2), [10, 0, 0, 2], 2);
    let mut raw = vec![4u8];
    let mut buf = BytesMut::new();
    a.write_to_bytes(&mut buf);
    b.write_to_bytes(&mut buf);
    raw.extend_from_slice(&buf[..]);
    assert_eq!(raw.len(), 49);
    assert_eq!(
        P2pMsg::try_from(BytesMut::from(&raw[..])),
        Ok(P2pMsg::Peerlist(vec![a, b]))
    );
}

#[test]
fn immutable_binary_form() {
    let p = Peer::from_socket(id_of(3), [1, 2, 3, 4], 258);
    let frozen = P2pMsg::Data(p, 9, b"z".to_vec()).into_bytes();
    let growable = P2pMsg::Data(p, 9, b"z".to_vec()).into_bytes_mut();
    assert_eq!(&frozen[..], &growable[..]);
    assert_eq!(frozen.len(), 34);
    assert_eq!(frozen[0], 5);
    assert_eq!(frozen[33], b'z');
}
