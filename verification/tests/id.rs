use banter::{base64_decode, base64_encode, Error, PeerId};
use bytes::BytesMut;

#[test]
fn peer_id_serde() {
    let ids = [
        PeerId::random().unwrap(),
        PeerId::random().unwrap(),
        PeerId::random().unwrap(),
        PeerId::random().unwrap(),
    ];

    let mut bytes = BytesMut::new();
    for id in ids {
        id.write_to_bytes(&mut bytes);
        assert_eq!(id, PeerId::read_from_bytes(&mut bytes).unwrap());
    }
}

#[test]
fn empty_id_is_zero() {
    assert_eq!(PeerId::empty().as_ref(), &[0u8; 18]);
    let b: [u8; 18] = PeerId::empty().into();
    assert_eq!(b, [0u8; 18]);
}

#[test]
fn short_buffer_is_not_an_id() {
    let mut bytes = BytesMut::from(&[1u8; 17][..]);
    assert_eq!(PeerId::read_from_bytes(&mut bytes), Err(Error::Deserialization));
    assert_eq!(bytes.len(), 17);
}

#[test]
fn id_text_is_url_safe_base64() {
    let mut b = [0u8; 18];
    for (i, x) in b.iter_mut().enumerate() {
        *x = i as u8;
    }
    let id = PeerId::from(b);
    assert_eq!(id.to_string(), "AAECAwQFBgcICQoLDA0ODxAR");
    assert_eq!(PeerId::empty().to_string(), "AAAAAAAAAAAAAAAAAAAAAAAA");
    assert_eq!(PeerId::from_str("AAECAwQFBgcICQoLDA0ODxAR"), Ok(id));
}

#[test]
fn id_text_roundtrip() {
    for _ in 0..16 {
        let id = PeerId::random().unwrap();
        assert_eq!(PeerId::from_str(&id.to_string()), Ok(id));
        let parsed: PeerId = id.to_string().parse().unwrap();
        assert_eq!(parsed, id);
    }
}

#[test]
fn id_text_errors() {
    assert_eq!(
        PeerId::from_str("!!"),
        Err(Error::Base64Decode { string: "!!".to_string() })
    );
    assert_eq!(
        PeerId::from_str("aGk"),
        Err(Error::Parsing { from: "aGk".to_string(), to: "PeerId".to_string() })
    );
}

#[test]
fn base64_values() {
    assert_eq!(base64_encode(b"hi"), "aGk");
    assert_eq!(base64_encode(&[0xff, 0xfe, 0xfd]), "__79");
    assert_eq!(base64_decode("__79"), Ok(vec![0xff, 0xfe, 0xfd]));
    assert_eq!(base64_decode(""), Ok(vec![]));
    assert_eq!(
        base64_decode("a+b"),
        Err(Error::Base64Decode { string: "a+b".to_string() })
    );
}

#[test]
fn id_equality_is_bytewise() {
    let mut b = [3u8; 18];
    let a = PeerId::from(b);
    b[9] = 4;
    assert_ne!(a, PeerId::from(b));
    assert_eq!(a, PeerId::from([3u8; 18]));
}
