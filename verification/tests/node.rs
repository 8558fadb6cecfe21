use banter::node::{format_peer_list, interpret_input, render_incoming, NodeInput};
use banter::{translate_cmd, Cmd, NodeOptions, Peer, PeerId};

#[test]
fn commands() {
    assert_eq!(translate_cmd("q"), Some(Cmd::Quit));
    assert_eq!(translate_cmd("quit"), Some(Cmd::Quit));
    assert_eq!(translate_cmd("l"), Some(Cmd::ListPeers));
    assert_eq!(translate_cmd("list"), Some(Cmd::ListPeers));
    assert_eq!(translate_cmd("lis"), None);
    assert_eq!(translate_cmd(""), None);
    assert_eq!(translate_cmd("Q"), None);
}

#[test]
fn typed_lines() {
    assert_eq!(interpret_input(":q"), NodeInput::Quit);
    assert_eq!(interpret_input(":list \t"), NodeInput::ListPeers);
    assert_eq!(interpret_input(":quit\u{3000}"), NodeInput::Quit);
    assert_eq!(
        interpret_input(":what"),
        NodeInput::UnknownCommand("Unknown command `:what`".to_string())
    );
    assert_eq!(
        interpret_input(": q"),
        NodeInput::UnknownCommand("Unknown command `: q`".to_string())
    );
    assert_eq!(interpret_input("hello"), NodeInput::Broadcast(b"hello".to_vec()));
    assert_eq!(interpret_input(""), NodeInput::Broadcast(vec![]));
    assert_eq!(interpret_input("\u{e9}t\u{e9}"), NodeInput::Broadcast("\u{e9}t\u{e9}".as_bytes().to_vec()));
    assert_eq!(interpret_input(":"), NodeInput::UnknownCommand("Unknown command `:`".to_string()));
    assert_eq!(interpret_input("héllo"), NodeInput::Broadcast("héllo".as_bytes().to_vec()));
}

#[test]
fn incoming_lines() {
    let me = PeerId::from([1u8; 18]);
    let other = Peer::from_socket(PeerId::empty(), [1, 2, 3, 4], 5);
    assert_eq!(
        render_incoming(&me, &other, b"hi there"),
        Some("AAAAAAAAAAAAAAAAAAAAAAAA: hi there".to_string())
    );
    assert_eq!(render_incoming(&me, &other, &[0xff, 0xfe]), None);
    let mine = Peer::from_socket(me, [1, 2, 3, 4], 5);
    assert_eq!(render_incoming(&me, &mine, b"echo"), None);
}

#[test]
fn peer_list_lines() {
    let a = Peer::from_socket(PeerId::empty(), [1, 2, 3, 4], 5);
    let b = Peer::from_socket(PeerId::from([255u8; 18]), [10, 0, 0, 1], 12000);
    assert_eq!(format_peer_list(&vec![]), "");
    assert_eq!(
        format_peer_list(&vec![a, b]),
        format!("{}\n{}\n", a.to_string(), b.to_string())
    );
    assert_eq!(b.to_string(), "________________________::10.0.0.1:12000");
}

#[test]
fn node_options_for_peerlist() {
    let opts = NodeOptions { port: 12001, id: PeerId::empty(), init_peers: vec!["1.1.1.1:1".to_string()] };
    let p = opts.peerlist_options();
    assert_eq!(p.addr, "127.0.0.1:12001");
    assert_eq!(p.id, PeerId::empty());
    assert_eq!(p.init_peers, vec!["1.1.1.1:1".to_string()]);
    assert_eq!(p.init_serial, 0);
    assert_eq!((p.heartbeat_min, p.heartbeat_avg, p.heartbeat_max), (1800, 2000, 2200));
    assert_eq!(p.buffer_size, 16384);
}
