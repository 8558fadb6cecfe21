use banter::socket::SocketAddrV4;
use banter::util::parse_ipv4::parse_ipv4socket as parse_lenient;
use banter::{format_base64, parse_ipv4socket, Error};

#[test]
fn format_base64_values() {
    assert_eq!(format_base64(&[]), "");
    assert_eq!(format_base64(&[0]), "0");
    assert_eq!(format_base64(&[63]), "_");
    assert_eq!(format_base64(&[64]), "0");
    assert_eq!(format_base64(&[255]), "_");
    assert_eq!(format_base64(&[1, 2, 3]), "18M0");
    assert_eq!(format_base64(&[255, 255, 255]), "____");
    assert_eq!(format_base64(&[0, 0, 0, 0]), "00000");
    assert_eq!(format_base64(&[1, 2, 3, 4, 5]), "18M04k");
    assert_eq!(format_base64(b"Hello"), "8l6rIZ");
    let b: Vec<u8> = (0..18).collect();
    assert_eq!(format_base64(&b), "04w03gg16s029EM2cQw3f0h4");
}

const SAMPLES: &[(&str, Option<([u8; 4], u16)>)] = &[
    ("127.0.0.1:12000", Some(([127, 0, 0, 1], 12000))),
    ("0.0.0.0:0", Some(([0, 0, 0, 0], 0))),
    ("255.255.255.255:65535", Some(([255, 255, 255, 255], 65535))),
    ("256.0.0.1:1", None),
    ("1.2.3.4:65536", None),
    ("01.2.3.4:5", None),
    ("1.2.3.4:005", Some(([1, 2, 3, 4], 5))),
    ("1.2.3.4:", None),
    ("1.2.3:4", None),
    ("1.2.3.4.5:6", None),
    ("1.2.3.4:5:6", None),
    ("+1.2.3.4:5", None),
    ("1.2.3.4:+5", None),
    (" 1.2.3.4:5", None),
    ("1.2.3.4:5 ", None),
    ("1..3.4:5", None),
    ("1.2.3.4", None),
    ("", None),
    (":", None),
    ("0000.1.1.1:1", None),
    ("1.1.1.1:0000000000080", Some(([1, 1, 1, 1], 80))),
    ("1.1.1.1:99999999999999999999", None),
    ("1.1.1.-1:5", None),
    ("a.b.c.d:e", None),
    ("1.2.3.4:5\u{e9}", None),
];

#[test]
fn socket_parse_strict_samples() {
    for (s, want) in SAMPLES {
        let expected = want.map(|(ip, port)| SocketAddrV4::new(ip, port));
        match parse_ipv4socket(s) {
            Ok(a) => assert_eq!(Some(a), expected, "{}", s),
            Err(e) => {
                assert_eq!(expected, None, "{}", s);
                assert_eq!(
                    e,
                    Error::Parsing { from: s.to_string(), to: "SocketAddrV4".to_string() }
                );
            }
        }
    }
}

fn lenient_expected(s: &str) -> Option<SocketAddrV4> {
    let (ip, port) = s.split_once(':')?;
    let port: u16 = port.parse().ok()?;
    let (a, rest) = ip.split_once('.')?;
    let (b, rest) = rest.split_once('.')?;
    let (c, d) = rest.split_once('.')?;
    Some(SocketAddrV4::new(
        [a.parse().ok()?, b.parse().ok()?, c.parse().ok()?, d.parse().ok()?],
        port,
    ))
}

#[test]
fn lenient_socket_parse() {
    for (s, _) in SAMPLES {
        let expected = lenient_expected(s);
        match parse_lenient(s) {
            Ok(a) => assert_eq!(Some(a), expected, "{}", s),
            Err(e) => {
                assert_eq!(expected, None, "{}", s);
                assert_eq!(
                    e,
                    Error::Parsing { from: s.to_string(), to: "SocketAddrV4".to_string() }
                );
            }
        }
    }
    assert_eq!(
        parse_lenient("+001.2.3.4:+0080"),
        Ok(SocketAddrV4::new([1, 2, 3, 4], 80))
    );
    assert!(parse_ipv4socket("+001.2.3.4:+0080").is_err());
}

#[test]
fn socket_text_roundtrip() {
    for (ip, port, text) in [
        ([0, 0, 0, 0], 0, "0.0.0.0:0"),
        ([10, 99, 100, 255], 8080, "10.99.100.255:8080"),
        ([255, 255, 255, 255], 65535, "255.255.255.255:65535"),
    ] {
        let a = SocketAddrV4::new(ip, port);
        let s = a.to_string();
        assert_eq!(s, text);
        assert_eq!(parse_ipv4socket(&s), Ok(a));
        assert_eq!(parse_lenient(&s), Ok(a));
    }
}

#[test]
fn error_texts() {
    assert_eq!(Error::Deserialization.to_string(), "Deserialization error");
    assert_eq!(
        Error::Parsing { from: "x".to_string(), to: "Peer".to_string() }.to_string(),
        "Error while trying to parse x as Peer"
    );
    assert_eq!(
        Error::ConnectionFailed { to: "1.2.3.4:5".to_string() }.to_string(),
        "Connection failed to: 1.2.3.4:5"
    );
    assert_eq!(
        Error::SocketWriteFailed { to: "1.2.3.4:5".to_string() }.to_string(),
        "Writing to socket failed: 1.2.3.4:5"
    );
    assert_eq!(
        Error::Base64Decode { string: "?".to_string() }.to_string(),
        "Could not decode base64 string: ?"
    );
    let r: Result<u8, Error> = Error::Deserialization.into_result();
    assert_eq!(r, Err(Error::Deserialization));
}
