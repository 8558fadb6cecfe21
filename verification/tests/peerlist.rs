use banter::message::P2pMsg;
use banter::peerlist::{Action, SerialTable};
use banter::{Peer, PeerId, PeerTable, PeerlistOptions, PeerlistState};

fn id_of(first: u8, last: u8) -> PeerId {
    let mut b = [first; 18];
    b[17] = last;
    PeerId::from(b)
}

fn peer(first: u8, last: u8) -> Peer {
    Peer::from_socket(id_of(first, last), [10, 0, 0, first], 1000 + last as u16)
}

fn options() -> PeerlistOptions {
    PeerlistOptions {
        addr: "127.0.0.1:12000".to_string(),
        id: id_of(0, 0),
        init_peers: vec!["10.0.0.1:1".to_string(), "10.0.0.2:2".to_string()],
        heartbeat_min: 1800,
        heartbeat_avg: 2000,
        heartbeat_max: 2200,
        init_serial: 7,
        buffer_size: 1024,
    }
}

fn state(now: u64) -> PeerlistState {
    let me = Peer::try_from_socket_str(id_of(0, 0), "127.0.0.1:12000").unwrap();
    PeerlistState::new(me, &options(), now)
}

#[test]
fn table_slots_by_last_id_byte() {
    let mut t = PeerTable::new();
    assert!(t.peers().is_empty());
    let a = peer(1, 5);
    let b = peer(2, 133); // 133 % 128 == 5: same slot as `a`
    let c = peer(3, 4);
    t.insert(a);
    t.insert(c);
    assert_eq!(t.peers(), vec![c, a]);
    t.insert(b);
    assert_eq!(t.peers(), vec![c, b]);
    assert_eq!(PeerTable::slot(&b.id), 5);
}

#[test]
fn peers_iterator_walks_slots_in_order() {
    let mut t = PeerTable::new();
    t.insert(peer(1, 100));
    t.insert(peer(2, 3));
    t.insert(peer(3, 127));
    let mut it = t.get_peers();
    assert_eq!(it.next(), Some(peer(2, 3)));
    // later changes to the table do not reach an iterator already made
    t.insert(peer(4, 50));
    assert_eq!(it.next(), Some(peer(1, 100)));
    assert_eq!(it.next(), Some(peer(3, 127)));
    assert_eq!(it.next(), None);
    assert_eq!(it.next(), None);
}

#[test]
fn purge_drops_only_stale_peers() {
    let mut t = PeerTable::new();
    let mut old = peer(1, 1);
    old.last_heartbeat = Some(100);
    let mut fresh = peer(2, 2);
    fresh.last_heartbeat = Some(500);
    let never = peer(3, 3);
    t.insert(old);
    t.insert(fresh);
    t.insert(never);
    t.purge(500);
    assert_eq!(t.peers(), vec![fresh, never]);
}

#[test]
fn serial_table_entries() {
    let mut s = SerialTable::new();
    let a = peer(1, 1);
    assert_eq!(s.entry_or_zero(a), 0);
    s.insert(a, 9);
    assert_eq!(s.entry_or_zero(a), 9);
    let mut a2 = a;
    a2.last_heartbeat = Some(3);
    assert_eq!(s.entry_or_zero(a2), 0);
    s.insert(a, 11);
    assert_eq!(s.entry_or_zero(a), 11);
}

#[test]
fn new_state_from_options() {
    let st = state(5000);
    assert_eq!(st.serial, 7);
    assert_eq!(st.last_heartbeat, 5000);
    assert_eq!(st.next_heartbeat, 7000);
    assert_eq!(st.heartbeat_min, 1800);
    assert_eq!(st.heartbeat_max, 2200);
    let far = PeerlistState::new(st.peer, &options(), u64::MAX - 1);
    assert_eq!(far.next_heartbeat, u64::MAX);
}

#[test]
fn greetings_go_to_each_initial_peer() {
    let st = state(0);
    let actions = st.greetings(&options().init_peers).unwrap();
    let to1 = Peer::try_from_socket_str_empty_id("10.0.0.1:1").unwrap();
    let to2 = Peer::try_from_socket_str_empty_id("10.0.0.2:2").unwrap();
    assert_eq!(
        actions,
        vec![
            Action::Send(to1, P2pMsg::Heartbeat(st.peer)),
            Action::Send(to1, P2pMsg::RequestPeerlist(st.peer)),
            Action::Send(to2, P2pMsg::Heartbeat(st.peer)),
            Action::Send(to2, P2pMsg::RequestPeerlist(st.peer)),
        ]
    );
    assert!(st.greetings(&vec!["10.0.0.1:1".to_string(), "nope".to_string()]).is_err());
}

#[test]
fn data_is_taken_once() {
    let mut st = state(0);
    let mut t = PeerTable::new();
    let other = peer(1, 1);
    t.insert(peer(2, 2));
    let first = st.handle_data(&t, other, 3, b"hi".to_vec());
    assert_eq!(
        first,
        vec![
            Action::Deliver(other, b"hi".to_vec()),
            Action::Broadcast(vec![peer(2, 2)], P2pMsg::Data(other, 3, b"hi".to_vec())),
        ]
    );
    let again = st.handle_data(&t, other, 3, b"hi".to_vec());
    assert!(again.is_empty());
    let older = st.handle_data(&t, other, 2, b"old".to_vec());
    assert!(older.is_empty());
    let newer = st.handle_data(&t, other, 4, b"new".to_vec());
    assert_eq!(newer.len(), 2);
}

#[test]
fn heartbeats_are_spaced() {
    let mut st = state(0);
    let mut t = PeerTable::new();
    assert!(st.broadcast_heartbeat(&mut t, 1800).is_empty());
    let sent = st.broadcast_heartbeat(&mut t, 1801);
    assert_eq!(
        sent,
        vec![Action::Broadcast(vec![], P2pMsg::Heartbeat(st.peer)), Action::CompleteHeartbeat]
    );
    // nothing changes until the heartbeat is completed
    assert_eq!(st.last_heartbeat, 0);
    st.heartbeat_sent(&mut t, 1805, 1806);
    assert_eq!(st.last_heartbeat, 1805);
    assert_eq!(st.next_heartbeat, 3805);
    assert!(st.broadcast_heartbeat(&mut t, 3605).is_empty());
    assert_eq!(st.broadcast_heartbeat(&mut t, 3606).len(), 2);
}

#[test]
fn heartbeat_from_peer_records_it_and_purges_silent_ones() {
    let mut st = state(0);
    let mut t = PeerTable::new();
    let mut silent = peer(3, 3);
    silent.last_heartbeat = Some(100);
    t.insert(silent);
    let mut recent = peer(4, 4);
    recent.last_heartbeat = Some(400);
    t.insert(recent);
    let hb = peer(1, 1);
    let actions = st.handle_heartbeat(&mut t, hb, 2500);
    let mut stamped = hb;
    stamped.last_heartbeat = Some(2500);
    assert_eq!(
        actions,
        vec![
            Action::Broadcast(vec![stamped, silent, recent], P2pMsg::Heartbeat(st.peer)),
            Action::CompleteHeartbeat,
        ]
    );
    assert_eq!(t.peers(), vec![stamped, silent, recent]);
    // the cut-off comes from the clock read when the heartbeat is completed:
    // 100 is before 2560 - 2200, 400 is not
    st.heartbeat_sent(&mut t, 2550, 2560);
    assert_eq!(t.peers(), vec![stamped, recent]);
    assert_eq!((st.last_heartbeat, st.next_heartbeat), (2550, 4550));
}

#[test]
fn heartbeat_requests() {
    let mut st = state(0);
    let t = PeerTable::new();
    let from = peer(1, 1);
    let other = peer(2, 2);
    let me = st.peer;
    assert_eq!(
        st.handle_heartbeat_request(&t, from, 5, me),
        vec![Action::Send(from, P2pMsg::Heartbeat(me))]
    );
    assert_eq!(
        st.handle_heartbeat_request(&t, from, 5, other),
        vec![Action::Broadcast(vec![], P2pMsg::RequestHeartbeat(from, 5, other))]
    );
    assert!(st.handle_heartbeat_request(&t, from, 0, other).is_empty());
}

#[test]
fn peerlists_skip_own_id() {
    let st = state(0);
    let mut t = PeerTable::new();
    let mut me_again = peer(9, 9);
    me_again.id = st.peer.id;
    st.handle_peerlist(&mut t, vec![peer(1, 1), me_again, peer(2, 2)]);
    assert_eq!(t.peers(), vec![peer(1, 1), peer(2, 2)]);
    let asker = peer(5, 5);
    assert_eq!(
        st.handle_peerlist_request(&t, asker),
        vec![Action::Send(asker, P2pMsg::Peerlist(vec![peer(1, 1), peer(2, 2)]))]
    );
}

#[test]
fn own_data_carries_increasing_serials() {
    let mut st = state(0);
    let t = PeerTable::new();
    let me = st.peer;
    assert_eq!(
        st.broadcast_data(&t, b"a".to_vec()),
        vec![Action::Broadcast(vec![], P2pMsg::Data(me, 7, b"a".to_vec()))]
    );
    assert_eq!(
        st.broadcast_data(&t, b"b".to_vec()),
        vec![Action::Broadcast(vec![], P2pMsg::Data(me, 8, b"b".to_vec()))]
    );
    assert_eq!(st.serial, 9);
}

#[test]
fn connections_are_decoded_and_handled() {
    let mut st = state(0);
    let mut t = PeerTable::new();
    let other = peer(1, 1);
    let bytes = P2pMsg::Data(other, 0, b"yo".to_vec()).into_bytes_mut();
    assert!(PeerlistState::accepts(&bytes));
    let actions = st.handle_connection(&mut t, 10, &bytes);
    assert_eq!(actions[0], Action::Deliver(other, b"yo".to_vec()));
    assert!(st.handle_connection(&mut t, 10, &bytes).is_empty());

    let hb = P2pMsg::Heartbeat(other).into_bytes_mut();
    st.handle_connection(&mut t, 20, &hb);
    let mut stamped = other;
    stamped.last_heartbeat = Some(20);
    assert_eq!(t.peers(), vec![stamped]);

    assert!(st.handle_connection(&mut t, 30, &[9, 9, 9]).is_empty());
    let target = peer(2, 2);
    let request = P2pMsg::RequestHeartbeat(other, 3, target).into_bytes_mut();
    assert_eq!(
        st.handle_connection(&mut t, 30, &request),
        vec![Action::Broadcast(vec![stamped], P2pMsg::RequestHeartbeat(other, 3, target))]
    );
    let for_me = P2pMsg::RequestHeartbeat(other, 4, st.peer).into_bytes_mut();
    assert_eq!(
        st.handle_connection(&mut t, 30, &for_me),
        vec![Action::Send(other, P2pMsg::Heartbeat(st.peer))]
    );
    assert!(PeerlistState::accepts(&[]));
    assert!(st.handle_connection(&mut t, 30, &[]).is_empty());

    let max_serial = P2pMsg::Data(other, u64::MAX, b"x".to_vec()).into_bytes_mut();
    assert!(!PeerlistState::accepts(&max_serial));
}
