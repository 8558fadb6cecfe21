//! The peer table and the decisions of the peer-to-peer layer: which peers
//! are known, which messages to answer, forward or deliver, and when to send
//! heartbeats. Sockets, timers and channels are driven by the program.
use vstd::prelude::*;

use vstd::slice::slice_to_vec;
use vstd::string::*;
use vstd::utf8::encode_utf8;

use crate::error::{parsing_error, Error};
use crate::id::PeerId;
use crate::message::{lemma_msg_roundtrip, msg_bytes, msg_decode, peer_views, without_heartbeats, MsgView, P2pMsg};
use crate::peer::{peer_wf, without_heartbeat, Peer, PeerView};
use crate::buffer::{buffer_from_slice, lemma_u64_all_ones};
use crate::util::std_socket_addr;

verus! {

/// The number of slots of the peer table.
pub const PEER_SLOTS: usize = 128;

/// The slot of the peer table for the peer ID with the bytes `id`: its last
/// byte modulo 128.
pub open spec fn slot_of(id: Seq<u8>) -> int {
    id[17] as int % 128
}

/// The values of the slots of a table.
pub open spec fn slot_views(slots: Seq<Option<Peer>>) -> Seq<Option<PeerView>> {
    slots.map_values(
        |o: Option<Peer>|
            match o {
                Some(p) => Some(p@),
                None => None,
            },
    )
}

/// The peers in the slots, in slot order.
pub open spec fn present(slots: Seq<Option<PeerView>>) -> Seq<PeerView>
    decreases slots.len(),
{
    if slots.len() == 0 {
        seq![]
    } else {
        match slots[0] {
            Some(p) => seq![p] + present(slots.drop_first()),
            None => present(slots.drop_first()),
        }
    }
}

/// The peers of two runs of slots are those of the first, then those of the
/// second.
pub proof fn lemma_present_concat(a: Seq<Option<PeerView>>, b: Seq<Option<PeerView>>)
    ensures
        present(a + b) == present(a) + present(b),
    decreases a.len(),
{
    if a.len() == 0 {
        assert(a + b =~= b);
        assert(present(a) + present(b) =~= present(b));
    } else {
        lemma_present_concat(a.drop_first(), b);
        assert((a + b).drop_first() =~= a.drop_first() + b);
        assert((a + b)[0] == a[0]);
        match a[0] {
            Some(p) => {
                assert(seq![p] + (present(a.drop_first()) + present(b)) =~= (seq![p]
                    + present(a.drop_first())) + present(b));
            },
            None => {},
        }
    }
}

/// The peers of the first `k + 1` slots.
proof fn lemma_present_take(s: Seq<Option<PeerView>>, k: int)
    requires
        0 <= k < s.len(),
    ensures
        present(s.take(k + 1)) == present(s.take(k)) + match s[k] {
            Some(p) => seq![p],
            None => Seq::<PeerView>::empty(),
        },
{
    let one = seq![s[k]];
    assert(s.take(k + 1) =~= s.take(k) + one);
    lemma_present_concat(s.take(k), one);
    assert(one.drop_first() =~= Seq::<Option<PeerView>>::empty());
    assert(present(Seq::<Option<PeerView>>::empty()) =~= Seq::<PeerView>::empty());
    match s[k] {
        Some(p) => {
            assert(present(one) =~= seq![p]);
        },
        None => {
            assert(present(one) =~= Seq::<PeerView>::empty());
        },
    }
}

/// The table of known peers: 128 slots, each holding at most one peer. A
/// peer goes to the slot of its ID, replacing whichever peer was there.
#[derive(Debug)]
pub struct PeerTable {
    slots: [Option<Peer>; 128],
}

impl View for PeerTable {
    type V = Seq<Option<PeerView>>;

    closed spec fn view(&self) -> Seq<Option<PeerView>> {
        slot_views(self.slots@)
    }
}

impl PeerTable {
    /// The table has 128 slots.
    pub proof fn lemma_len(&self)
        ensures
            self@.len() == PEER_SLOTS,
    {
    }

    /// An empty table.
    pub fn new() -> (t: PeerTable)
        ensures
            t@ == Seq::new(PEER_SLOTS as nat, |i: int| None::<PeerView>),
            slots_consistent(t@),
    {
        let t = PeerTable { slots: [None; 128] };
        assert(t@ =~= Seq::new(PEER_SLOTS as nat, |i: int| None::<PeerView>));
        t
    }

    /// The slot of the table for a peer ID.
    pub fn slot(id: &PeerId) -> (i: usize)
        ensures
            i == slot_of(id@),
            i < PEER_SLOTS,
    {
        (id.0[17] % 128) as usize
    }

    /// Puts the peer into the slot of its ID.
    pub fn insert(&mut self, peer: Peer)
        ensures
            final(self)@ == old(self)@.update(slot_of(peer@.id), Some(peer@)),
            slots_consistent(old(self)@) ==> slots_consistent(final(self)@),
    {
        proof {
            if slots_consistent(old(self)@) {
                lemma_insert_consistent(old(self)@, peer@);
            }
        }
        let i = Self::slot(&peer.id);
        self.slots[i] = Some(peer);
        assert(self@ =~= old(self)@.update(slot_of(peer@.id), Some(peer@)));
    }

    /// The peers of the table, in slot order.
    pub fn peers(&self) -> (v: Vec<Peer>)
        ensures
            peer_views(v@) == present(self@),
    {
        let ghost s = self@;
        let mut v: Vec<Peer> = Vec::new();
        let mut i: usize = 0;
        while i < PEER_SLOTS
            invariant
                i <= PEER_SLOTS,
                s == self@,
                peer_views(v@) == present(s.take(i as int)),
            decreases PEER_SLOTS - i,
        {
            proof {
                lemma_present_take(s, i as int);
            }
            match self.slots[i] {
                Some(p) => {
                    let ghost before = v@;
                    v.push(p);
                    assert(peer_views(v@) =~= peer_views(before) + seq![p@]);
                },
                None => {},
            }
            i = i + 1;
        }
        assert(s.take(PEER_SLOTS as int) =~= s);
        v
    }

    /// An iterator over the peers of the table as they are now.
    pub fn get_peers(&self) -> (it: Peers)
        ensures
            it@ == present(self@),
    {
        let it = Peers { list: self.slots, i: 0 };
        assert(slot_views(it.list@).skip(0) =~= self@);
        it
    }
}

/// Iterator over the peers of a peer table, in slot order.
pub struct Peers {
    list: [Option<Peer>; 128],
    i: usize,
}

impl View for Peers {
    type V = Seq<PeerView>;

    /// The peers yet to come.
    closed spec fn view(&self) -> Seq<PeerView> {
        present(slot_views(self.list@).skip(self.i as int))
    }
}

impl Peers {
    #[verifier::type_invariant]
    spec fn within(self) -> bool {
        self.i <= PEER_SLOTS
    }

    /// The next peer, if there is one (see `next_step`).
    pub fn next(&mut self) -> (r: Option<Peer>)
        ensures
            old(self)@.len() == 0 ==> r is None && final(self)@.len() == 0,
            old(self)@.len() > 0 ==> (r matches Some(p) && p@ == old(self)@[0]) && final(self)@
                == old(self)@.drop_first(),
            next_step(old(self)@, final(self)@, opt_peer_view(r)),
    {
        proof {
            use_type_invariant(&*self);
        }
        let ghost s = slot_views(self.list@);
        if self.i > 127 {
            assert(s.skip(self.i as int) =~= Seq::<Option<PeerView>>::empty());
            return None;
        }
        while self.i < PEER_SLOTS
            invariant
                self.i <= PEER_SLOTS,
                s == slot_views(self.list@),
                present(s.skip(self.i as int)) == old(self)@,
            decreases PEER_SLOTS - self.i,
        {
            let k = self.i;
            let slot = self.list[k];
            self.i = self.i + 1;
            assert(s.skip(k as int).drop_first() =~= s.skip(k + 1));
            match slot {
                Some(p) => {
                    return Some(p);
                },
                None => {},
            }
        }
        assert(s.skip(self.i as int) =~= Seq::<Option<PeerView>>::empty());
        None
    }
}

/// The value of an optional peer.
pub open spec fn opt_peer_view(r: Option<Peer>) -> Option<PeerView> {
    match r {
        Some(p) => Some(p@),
        None => None,
    }
}

/// One call of `Peers::next`, from the peers yet to come `pre` to `post`: the
/// first of them is returned and leaves; with none left, the call returns
/// `None` and none come after.
pub open spec fn next_step(pre: Seq<PeerView>, post: Seq<PeerView>, r: Option<PeerView>) -> bool {
    if pre.len() == 0 {
        r is None && post.len() == 0
    } else {
        r == Some(pre[0]) && post == pre.drop_first()
    }
}

/// The peers yet to come after `k` calls of `next`, started on `ps`.
#[verifier::spinoff_prover]
proof fn lemma_walk_prefix(
    ps: Seq<PeerView>,
    views: Seq<Seq<PeerView>>,
    results: Seq<Option<PeerView>>,
    k: int,
)
    requires
        views.len() == results.len() + 1,
        views[0] == ps,
        forall|i: int|
            0 <= i < results.len() ==> next_step(#[trigger] views[i], views[i + 1], results[i]),
        0 <= k < views.len(),
    ensures
        k <= ps.len() ==> views[k] == ps.skip(k),
        k > ps.len() ==> views[k].len() == 0,
    decreases k,
{
    if k == 0 {
        assert(ps.skip(0) =~= ps);
    } else {
        lemma_walk_prefix(ps, views, results, k - 1);
        assert(next_step(views[k - 1], views[k], results[k - 1]));
        if k <= ps.len() {
            assert(ps.skip(k - 1).drop_first() =~= ps.skip(k));
        } else if k - 1 == ps.len() {
            assert(views[k - 1].len() == 0);
        }
    }
}

/// Walking the peers of a table: successive calls of `next`, started on the
/// peers of a table, give the peer of each occupied slot once, in slot order,
/// and then `None` on every further call.
pub proof fn lemma_peers_walk(
    table: Seq<Option<PeerView>>,
    views: Seq<Seq<PeerView>>,
    results: Seq<Option<PeerView>>,
)
    requires
        views.len() == results.len() + 1,
        views[0] == present(table),
        forall|i: int|
            0 <= i < results.len() ==> next_step(#[trigger] views[i], views[i + 1], results[i]),
    ensures
        forall|i: int|
            0 <= i < results.len() ==> #[trigger] results[i] == if i < present(table).len() {
                Some(present(table)[i])
            } else {
                None
            },
{
    let ps = present(table);
    assert forall|i: int| 0 <= i < results.len() implies #[trigger] results[i] == if i
        < ps.len() {
        Some(ps[i])
    } else {
        None
    } by {
        lemma_walk_prefix(ps, views, results, i);
        assert(next_step(views[i], views[i + 1], results[i]));
        if i < ps.len() {
            assert(ps.skip(i)[0] == ps[i]);
        } else if i == ps.len() {
            assert(views[i].len() == 0);
        }
    }
}

/// The map that a list of entries stands for: a later entry for a peer
/// overrides an earlier one.
pub open spec fn entries_map(s: Seq<(Peer, u64)>) -> Map<PeerView, u64>
    decreases s.len(),
{
    if s.len() == 0 {
        Map::empty()
    } else {
        entries_map(s.drop_last()).insert(s.last().0@, s.last().1)
    }
}

/// Whether `i` is the last entry for the peer `k`.
pub open spec fn is_last_entry(s: Seq<(Peer, u64)>, k: PeerView, i: int) -> bool {
    &&& 0 <= i < s.len()
    &&& s[i].0@ == k
    &&& forall|j: int| i < j < s.len() ==> (#[trigger] s[j]).0@ != k
}

/// A peer is in the map exactly when there is an entry for it.
proof fn lemma_entries_absent(s: Seq<(Peer, u64)>, k: PeerView)
    requires
        forall|j: int| 0 <= j < s.len() ==> (#[trigger] s[j]).0@ != k,
    ensures
        !entries_map(s).dom().contains(k),
    decreases s.len(),
{
    if s.len() > 0 {
        let q = s.drop_last();
        assert forall|j: int| 0 <= j < q.len() implies (#[trigger] q[j]).0@ != k by {
            assert(q[j] == s[j]);
        }
        lemma_entries_absent(q, k);
        assert(s[s.len() - 1].0@ != k);
    }
}

/// The value of a peer in the map is that of its last entry.
proof fn lemma_entries_last(s: Seq<(Peer, u64)>, k: PeerView, i: int)
    requires
        is_last_entry(s, k, i),
    ensures
        entries_map(s).dom().contains(k),
        entries_map(s)[k] == s[i].1,
    decreases s.len(),
{
    if i < s.len() - 1 {
        let q = s.drop_last();
        assert(is_last_entry(q, k, i)) by {
            assert forall|j: int| i < j < q.len() implies (#[trigger] q[j]).0@ != k by {
                assert(q[j] == s[j]);
            }
        }
        lemma_entries_last(q, k, i);
        assert(s[s.len() - 1].0@ != k);
    }
}

/// Changing the value of the last entry of a peer changes the peer's value in
/// the map and nothing else.
proof fn lemma_entries_update(s: Seq<(Peer, u64)>, k: PeerView, i: int, p: Peer, v: u64)
    requires
        is_last_entry(s, k, i),
        p@ == k,
    ensures
        entries_map(s.update(i, (p, v))) == entries_map(s).insert(k, v),
    decreases s.len(),
{
    let t = s.update(i, (p, v));
    if i == s.len() - 1 {
        assert(t.drop_last() =~= s.drop_last());
        assert(entries_map(t) =~= entries_map(s).insert(k, v));
    } else {
        let q = s.drop_last();
        assert(is_last_entry(q, k, i)) by {
            assert forall|j: int| i < j < q.len() implies (#[trigger] q[j]).0@ != k by {
                assert(q[j] == s[j]);
            }
        }
        lemma_entries_update(q, k, i, p, v);
        assert(t.drop_last() =~= q.update(i, (p, v)));
        assert(s[s.len() - 1].0@ != k);
        assert(t.last() == s.last());
        assert(entries_map(t) =~= entries_map(s).insert(k, v));
    }
}

/// The serial numbers last seen from each peer.
pub struct SerialTable {
    entries: Vec<(Peer, u64)>,
}

impl View for SerialTable {
    type V = Map<PeerView, u64>;

    closed spec fn view(&self) -> Map<PeerView, u64> {
        entries_map(self.entries@)
    }
}

impl SerialTable {
    /// An empty table.
    pub fn new() -> (t: SerialTable)
        ensures
            t@ == Map::<PeerView, u64>::empty(),
    {
        SerialTable { entries: Vec::new() }
    }

    /// The index of the last entry for the peer, if there is one.
    fn find(&self, peer: &Peer) -> (r: Option<usize>)
        ensures
            match r {
                Some(i) => is_last_entry(self.entries@, peer@, i as int),
                None => forall|j: int|
                    0 <= j < self.entries@.len() ==> (#[trigger] self.entries@[j]).0@ != peer@,
            },
    {
        let mut j: usize = self.entries.len();
        while j > 0
            invariant
                j <= self.entries@.len(),
                forall|l: int| j <= l < self.entries@.len() ==> (#[trigger] self.entries@[l]).0@
                    != peer@,
            decreases j,
        {
            j = j - 1;
            if self.entries[j].0 == *peer {
                return Some(j);
            }
        }
        None
    }

    /// The serial of the peer, after recording 0 for a peer that has none.
    pub fn entry_or_zero(&mut self, peer: Peer) -> (v: u64)
        ensures
            final(self)@ == (if old(self)@.dom().contains(peer@) {
                old(self)@
            } else {
                old(self)@.insert(peer@, 0)
            }),
            v == final(self)@[peer@],
    {
        match self.find(&peer) {
            Some(i) => {
                proof {
                    lemma_entries_last(self.entries@, peer@, i as int);
                }
                self.entries[i].1
            },
            None => {
                proof {
                    lemma_entries_absent(self.entries@, peer@);
                }
                self.entries.push((peer, 0));
                proof {
                    assert(self.entries@.drop_last() =~= old(self).entries@);
                }
                0
            },
        }
    }

    /// Records the serial of the peer.
    pub fn insert(&mut self, peer: Peer, v: u64)
        ensures
            final(self)@ == old(self)@.insert(peer@, v),
    {
        match self.find(&peer) {
            Some(i) => {
                proof {
                    lemma_entries_update(self.entries@, peer@, i as int, peer, v);
                }
                self.entries.set(i, (peer, v));
            },
            None => {
                self.entries.push((peer, v));
                proof {
                    assert(self.entries@.drop_last() =~= old(self).entries@);
                }
            },
        }
    }
}

/// Whether the slot holds a peer whose last heartbeat came before
/// `criterion`.
pub open spec fn stale(slot: Option<PeerView>, criterion: u64) -> bool {
    slot matches Some(p) && (p.last_heartbeat matches Some(t) && t < criterion)
}

/// The slots without the peers whose last heartbeat came before `criterion`.
/// Peers without a heartbeat time stay.
pub open spec fn purged(slots: Seq<Option<PeerView>>, criterion: u64) -> Seq<Option<PeerView>> {
    slots.map_values(
        |o: Option<PeerView>|
            if stale(o, criterion) {
                None
            } else {
                o
            },
    )
}

impl PeerTable {
    /// Empties the slots of the peers whose last heartbeat came before
    /// `criterion`.
    pub fn purge(&mut self, criterion: u64)
        ensures
            final(self)@ == purged(old(self)@, criterion),
            slots_consistent(old(self)@) ==> slots_consistent(final(self)@),
    {
        proof {
            if slots_consistent(old(self)@) {
                lemma_purged_consistent(old(self)@, criterion);
            }
        }
        let ghost s = old(self)@;
        let mut i: usize = 0;
        while i < PEER_SLOTS
            invariant
                i <= PEER_SLOTS,
                s.len() == PEER_SLOTS,
                forall|j: int| 0 <= j < i ==> #[trigger] self@[j] == purged(s, criterion)[j],
                forall|j: int| i <= j < PEER_SLOTS ==> #[trigger] self@[j] == s[j],
                self@.len() == PEER_SLOTS,
            decreases PEER_SLOTS - i,
        {
            let ghost before = self.slots@;
            let ghost before_view = self@;
            assert(before_view[i as int] == s[i as int]);
            assert(before_view[i as int] == match before[i as int] {
                Some(p) => Some(p@),
                None => None::<PeerView>,
            });
            let stale_peer = match self.slots[i] {
                Some(p) => match p.last_heartbeat {
                    Some(last) => last < criterion,
                    None => false,
                },
                None => false,
            };
            assert(stale_peer == stale(s[i as int], criterion));
            if stale_peer {
                self.slots[i] = None;
                assert(self.slots@ =~= before.update(i as int, None));
                assert(self@ =~= before_view.update(i as int, None));
            }
            assert(self@[i as int] == purged(s, criterion)[i as int]);
            i = i + 1;
        }
        assert(self@ =~= purged(s, criterion));
    }
}

/// Options required for creating a peerlist. Durations are in milliseconds.
#[derive(Debug)]
pub struct PeerlistOptions {
    /// The socket address (IPv4 and port) that this node should bind to.
    pub addr: String,
    /// The ID that this node will use.
    pub id: PeerId,
    /// Peers that the list will try to contact upon initialization.
    /// To connect to any network, at least one of these peers is required to
    /// respond.
    pub init_peers: Vec<String>,
    /// The minimum duration between heartbeats. If a heartbeat is triggered
    /// before the minimum duration has passed since the last heartbeat (this
    /// happens e.g. by a heartbeat received from the network), no heartbeat
    /// will be emitted. This is to prevent the network from clogging with
    /// heartbeats.
    pub heartbeat_min: u64,
    /// Used to set an internal intervalled trigger to broadcast heartbeats to
    /// the network
    pub heartbeat_avg: u64,
    /// If no heartbeat has been received in this duration, a peer will be
    /// removed form the list of current peers
    pub heartbeat_max: u64,
    /// The serial number with which this nodes data messages begin. Every node
    /// keeps track of the serials to prevent re-broadcasting messages. If you
    /// reconnect to a network, make sure that your initial serial number is
    /// higher than that of the last data you sent.
    pub init_serial: u64,
    /// Size of the internal buffer to read messages. As of now, messages that
    /// exceed this size will cause a panic.
    pub buffer_size: usize,
}

/// What the peer-to-peer layer asks to be done.
#[derive(Debug, PartialEq, Eq)]
pub enum Action {
    /// Send the message to the peer.
    Send(Peer, P2pMsg),
    /// Send the message to each of the peers, in order.
    Broadcast(Vec<Peer>, P2pMsg),
    /// Hand the data that came from the peer to the node.
    Deliver(Peer, Vec<u8>),
    /// Record this node's heartbeat as sent and forget the silent peers,
    /// reading the clock anew (see `PeerlistState::heartbeat_sent`).
    CompleteHeartbeat,
}

/// The value of an action.
pub enum ActionView {
    Send(PeerView, MsgView),
    Broadcast(Seq<PeerView>, MsgView),
    Deliver(PeerView, Seq<u8>),
    CompleteHeartbeat,
}

impl View for Action {
    type V = ActionView;

    open spec fn view(&self) -> ActionView {
        match self {
            Action::Send(p, m) => ActionView::Send(p@, m@),
            Action::Broadcast(ps, m) => ActionView::Broadcast(peer_views(ps@), m@),
            Action::Deliver(p, d) => ActionView::Deliver(p@, d@),
            Action::CompleteHeartbeat => ActionView::CompleteHeartbeat,
        }
    }
}

/// The values of a list of actions.
pub open spec fn action_views(a: Seq<Action>) -> Seq<ActionView> {
    a.map_values(|x: Action| x@)
}

/// `now + d`, or the largest time if that is beyond it.
pub open spec fn time_after(now: u64, d: u64) -> u64 {
    if now + d <= u64::MAX {
        (now + d) as u64
    } else {
        u64::MAX
    }
}

/// `now - d`, or the earliest time if that is before it.
pub open spec fn time_before(now: u64, d: u64) -> u64 {
    if now >= d {
        (now - d) as u64
    } else {
        0
    }
}

/// The serial last recorded for the peer, 0 if none is.
pub open spec fn serial_seen(m: Map<PeerView, u64>, p: PeerView) -> u64 {
    if m.dom().contains(p) {
        m[p]
    } else {
        0
    }
}

/// The map after recording 0 for the peer, if it has no serial yet.
pub open spec fn with_entry(m: Map<PeerView, u64>, p: PeerView) -> Map<PeerView, u64> {
    if m.dom().contains(p) {
        m
    } else {
        m.insert(p, 0)
    }
}

/// The peer with the time of its last heartbeat.
pub open spec fn stamped(p: PeerView, now: u64) -> PeerView {
    PeerView { id: p.id, addr: p.addr, last_heartbeat: Some(now) }
}

/// The table after a list of peers came in: each peer, in order, goes to its
/// slot, unless it has the ID `own`.
pub open spec fn insert_all(
    table: Seq<Option<PeerView>>,
    list: Seq<PeerView>,
    own: Seq<u8>,
) -> Seq<Option<PeerView>>
    decreases list.len(),
{
    if list.len() == 0 {
        table
    } else {
        let t = insert_all(table, list.drop_last(), own);
        let p = list.last();
        if p.id != own {
            t.update(slot_of(p.id), Some(p))
        } else {
            t
        }
    }
}

/// Holds the state of a node's peer-to-peer layer. Times are in
/// milliseconds.
pub struct PeerlistState {
    /// This node as a peer.
    pub peer: Peer,
    /// The serial of the next data message that this node sends.
    pub serial: u64,
    /// The serial that each peer's next data message must reach to be taken.
    pub serials: SerialTable,
    /// When this node last sent a heartbeat.
    pub last_heartbeat: u64,
    /// When this node sends its next heartbeat unasked.
    pub next_heartbeat: u64,
    pub heartbeat_min: u64,
    pub heartbeat_avg: u64,
    pub heartbeat_max: u64,
}

/// Whether the settings, serials and own peer of two states agree.
pub open spec fn same_settings(a: &PeerlistState, b: &PeerlistState) -> bool {
    &&& a.peer@ == b.peer@
    &&& a.heartbeat_min == b.heartbeat_min
    &&& a.heartbeat_avg == b.heartbeat_avg
    &&& a.heartbeat_max == b.heartbeat_max
}

/// Whether the serials and the heartbeat times of two states agree.
pub open spec fn same_counters(a: &PeerlistState, b: &PeerlistState) -> bool {
    &&& a.serial == b.serial
    &&& a.serials@ == b.serials@
    &&& a.last_heartbeat == b.last_heartbeat
    &&& a.next_heartbeat == b.next_heartbeat
}

/// A heartbeat is due at `now` when more than the minimum duration passed
/// since the last one.
pub open spec fn heartbeat_due(st: &PeerlistState, now: u64) -> bool {
    now > st.last_heartbeat + st.heartbeat_min
}

/// The step of an attempted heartbeat at `now`: if one is due, this node's
/// heartbeat goes to every peer of the table, and then the heartbeat is to be
/// completed (see `heartbeat_sent_step`); otherwise nothing happens. The state
/// and the table stay as they are either way.
pub open spec fn heartbeat_step(
    pre: &PeerlistState,
    post: &PeerlistState,
    table: Seq<Option<PeerView>>,
    new_table: Seq<Option<PeerView>>,
    now: u64,
    actions: Seq<ActionView>,
) -> bool {
    &&& same_settings(pre, post)
    &&& same_counters(pre, post)
    &&& new_table == table
    &&& actions == if heartbeat_due(pre, now) {
        seq![
            ActionView::Broadcast(present(table), MsgView::Heartbeat(pre.peer@)),
            ActionView::CompleteHeartbeat,
        ]
    } else {
        Seq::<ActionView>::empty()
    }
}

/// The step that completes a heartbeat: the last heartbeat becomes `sent`,
/// the time at which it went out, the next one is due the average duration
/// after it, and the peers whose last heartbeat came more than the maximum
/// duration before `now` leave the table.
pub open spec fn heartbeat_sent_step(
    pre: &PeerlistState,
    post: &PeerlistState,
    table: Seq<Option<PeerView>>,
    new_table: Seq<Option<PeerView>>,
    sent: u64,
    now: u64,
) -> bool {
    &&& same_settings(pre, post)
    &&& post.serial == pre.serial
    &&& post.serials@ == pre.serials@
    &&& post.last_heartbeat == sent
    &&& post.next_heartbeat == time_after(sent, pre.heartbeat_avg)
    &&& new_table == purged(table, time_before(now, pre.heartbeat_max))
}

/// The step of a heartbeat from `peer` received at `now`: the peer goes to
/// the table with that time, then a heartbeat is attempted.
pub open spec fn heartbeat_received_step(
    pre: &PeerlistState,
    post: &PeerlistState,
    table: Seq<Option<PeerView>>,
    new_table: Seq<Option<PeerView>>,
    peer: PeerView,
    now: u64,
    actions: Seq<ActionView>,
) -> bool {
    heartbeat_step(
        pre,
        post,
        table.update(slot_of(peer.id), Some(stamped(peer, now))),
        new_table,
        now,
        actions,
    )
}

/// The step of a request from `from` for the heartbeat of `to`, with
/// `serial`: a request for this node is answered with its heartbeat; another
/// is passed on to every peer if its serial is above the serial recorded for
/// `from` (0 is recorded for a sender without one).
pub open spec fn heartbeat_request_step(
    pre: &PeerlistState,
    post: &PeerlistState,
    table: Seq<Option<PeerView>>,
    from: PeerView,
    serial: u64,
    to: PeerView,
    actions: Seq<ActionView>,
) -> bool {
    &&& same_settings(pre, post)
    &&& post.serial == pre.serial
    &&& post.last_heartbeat == pre.last_heartbeat
    &&& post.next_heartbeat == pre.next_heartbeat
    &&& if to == pre.peer@ {
        &&& actions == seq![ActionView::Send(from, MsgView::Heartbeat(pre.peer@))]
        &&& post.serials@ == pre.serials@
    } else {
        &&& post.serials@ == with_entry(pre.serials@, from)
        &&& actions == if serial > serial_seen(pre.serials@, from) {
            seq![
                ActionView::Broadcast(
                    present(table),
                    MsgView::RequestHeartbeat(from, serial, to),
                ),
            ]
        } else {
            Seq::<ActionView>::empty()
        }
    }
}

/// The step of data from `peer` with `serial`: data whose serial reaches the
/// one recorded for the peer (0 if none is) is delivered and passed on to
/// every peer, and the peer's next data must then have a higher serial;
/// other data is dropped.
pub open spec fn data_step(
    pre: &PeerlistState,
    post: &PeerlistState,
    table: Seq<Option<PeerView>>,
    peer: PeerView,
    serial: u64,
    data: Seq<u8>,
    actions: Seq<ActionView>,
) -> bool {
    &&& same_settings(pre, post)
    &&& post.serial == pre.serial
    &&& post.last_heartbeat == pre.last_heartbeat
    &&& post.next_heartbeat == pre.next_heartbeat
    &&& if serial >= serial_seen(pre.serials@, peer) {
        &&& post.serials@ == pre.serials@.insert(peer, (serial + 1) as u64)
        &&& actions == seq![
            ActionView::Deliver(peer, data),
            ActionView::Broadcast(present(table), MsgView::Data(peer, serial, data)),
        ]
    } else {
        &&& post.serials@ == with_entry(pre.serials@, peer)
        &&& actions.len() == 0
    }
}

/// The step of sending this node's own data: it goes to every peer of the
/// table with the current serial, and the serial moves on by one.
pub open spec fn data_sent_step(
    pre: &PeerlistState,
    post: &PeerlistState,
    table: Seq<Option<PeerView>>,
    data: Seq<u8>,
    actions: Seq<ActionView>,
) -> bool {
    &&& pre.serial < u64::MAX
    &&& actions == seq![
        ActionView::Broadcast(present(table), MsgView::Data(pre.peer@, pre.serial, data)),
    ]
    &&& post.serial == pre.serial + 1
    &&& same_settings(pre, post)
    &&& post.serials@ == pre.serials@
    &&& post.last_heartbeat == pre.last_heartbeat
    &&& post.next_heartbeat == pre.next_heartbeat
}

/// Whether the serial recorded for each peer in `b` is at least that in `a`.
pub open spec fn serials_grow(a: Map<PeerView, u64>, b: Map<PeerView, u64>) -> bool {
    forall|p: PeerView| #[trigger] serial_seen(a, p) <= serial_seen(b, p)
}

/// Whether the node can take the bytes of a connection: data must not carry
/// the largest serial, after which no serial could follow.
pub open spec fn connection_accepted(b: Seq<u8>) -> bool {
    !(msg_decode(b) matches Some(MsgView::Data(_, serial, _)) && serial == u64::MAX)
}

/// The step for the bytes of a connection, received at `now`: the message
/// they form is handled; bytes that form no message are ignored.
pub open spec fn connection_step(
    pre: &PeerlistState,
    post: &PeerlistState,
    table: Seq<Option<PeerView>>,
    new_table: Seq<Option<PeerView>>,
    now: u64,
    b: Seq<u8>,
    actions: Seq<ActionView>,
) -> bool {
    match msg_decode(b) {
        Some(MsgView::Heartbeat(p)) => heartbeat_received_step(
            pre,
            post,
            table,
            new_table,
            p,
            now,
            actions,
        ),
        Some(MsgView::RequestHeartbeat(from, serial, to)) => new_table == table
            && heartbeat_request_step(pre, post, table, from, serial, to, actions),
        Some(MsgView::RequestPeerlist(p)) => {
            &&& same_settings(pre, post) && same_counters(pre, post)
            &&& new_table == table
            &&& actions == seq![ActionView::Send(p, MsgView::Peerlist(present(table)))]
        },
        Some(MsgView::Peerlist(ps)) => {
            &&& same_settings(pre, post) && same_counters(pre, post)
            &&& new_table == insert_all(table, ps, pre.peer@.id)
            &&& actions.len() == 0
        },
        Some(MsgView::Data(p, serial, data)) => new_table == table && data_step(
            pre,
            post,
            table,
            p,
            serial,
            data,
            actions,
        ),
        None => {
            &&& same_settings(pre, post) && same_counters(pre, post)
            &&& new_table == table
            &&& actions.len() == 0
        },
    }
}

impl PeerlistState {
    /// The state of a node that starts at `now` as `peer`.
    pub fn new(peer: Peer, opts: &PeerlistOptions, now: u64) -> (st: PeerlistState)
        ensures
            st.peer@ == peer@,
            st.serial == opts.init_serial,
            st.serials@ == Map::<PeerView, u64>::empty(),
            st.last_heartbeat == now,
            st.next_heartbeat == time_after(now, opts.heartbeat_avg),
            st.heartbeat_min == opts.heartbeat_min,
            st.heartbeat_avg == opts.heartbeat_avg,
            st.heartbeat_max == opts.heartbeat_max,
    {
        PeerlistState {
            peer,
            serial: opts.init_serial,
            serials: SerialTable::new(),
            last_heartbeat: now,
            next_heartbeat: now.saturating_add(opts.heartbeat_avg),
            heartbeat_min: opts.heartbeat_min,
            heartbeat_avg: opts.heartbeat_avg,
            heartbeat_max: opts.heartbeat_max,
        }
    }

    /// The first messages to the peers that the node is told to contact: to
    /// each, in order, this node's heartbeat and a request for its peers. The
    /// first address that cannot be read gives its error.
    pub fn greetings(&self, init_peers: &Vec<String>) -> (r: Result<Vec<Action>, Error>)
        ensures
            match r {
                Ok(actions) => {
                    &&& actions@.len() == 2 * init_peers@.len()
                    &&& forall|i: int|
                        0 <= i < init_peers@.len() ==> std_socket_addr(
                            encode_utf8((#[trigger] init_peers@[i])@),
                        ) is Some
                    &&& forall|i: int|
                        #![trigger init_peers@[i]]
                        0 <= i < init_peers@.len() ==> {
                            let to = PeerView {
                                id: Seq::new(18, |j: int| 0u8),
                                addr: std_socket_addr(encode_utf8(init_peers@[i]@))->0,
                                last_heartbeat: None,
                            };
                            &&& actions@[2 * i]@ == ActionView::Send(
                                to,
                                MsgView::Heartbeat(self.peer@),
                            )
                            &&& actions@[2 * i + 1]@ == ActionView::Send(
                                to,
                                MsgView::RequestPeerlist(self.peer@),
                            )
                        }
                },
                Err(e) => exists|i: int|
                    #![trigger init_peers@[i]]
                    {
                        &&& 0 <= i < init_peers@.len()
                        &&& std_socket_addr(encode_utf8(init_peers@[i]@)) is None
                        &&& e@ == parsing_error(init_peers@[i]@, "SocketAddrV4"@)
                        &&& forall|k: int|
                            0 <= k < i ==> std_socket_addr(
                                encode_utf8((#[trigger] init_peers@[k])@),
                            ) is Some
                    },
            },
    {
        let mut actions: Vec<Action> = Vec::new();
        let mut i: usize = 0;
        while i < init_peers.len()
            invariant
                i <= init_peers@.len(),
                actions@.len() == 2 * i,
                forall|k: int|
                    0 <= k < i ==> std_socket_addr(encode_utf8((#[trigger] init_peers@[k])@)) is Some,
                forall|k: int|
                    #![trigger init_peers@[k]]
                    0 <= k < i ==> {
                        let to = PeerView {
                            id: Seq::new(18, |j: int| 0u8),
                            addr: std_socket_addr(encode_utf8(init_peers@[k]@))->0,
                            last_heartbeat: None,
                        };
                        &&& actions@[2 * k]@ == ActionView::Send(
                            to,
                            MsgView::Heartbeat(self.peer@),
                        )
                        &&& actions@[2 * k + 1]@ == ActionView::Send(
                            to,
                            MsgView::RequestPeerlist(self.peer@),
                        )
                    },
            decreases init_peers@.len() - i,
        {
            let to = match Peer::try_from_socket_str_empty_id(init_peers[i].as_str()) {
                Ok(p) => p,
                Err(e) => {
                    return Err(e);
                },
            };
            actions.push(Action::Send(to, P2pMsg::Heartbeat(self.peer)));
            actions.push(Action::Send(to, P2pMsg::RequestPeerlist(self.peer)));
            i = i + 1;
        }
        Ok(actions)
    }

    /// Attempts a heartbeat at `now` (see `heartbeat_step`).
    pub fn broadcast_heartbeat(&mut self, peers: &mut PeerTable, now: u64) -> (actions: Vec<
        Action,
    >)
        ensures
            heartbeat_step(
                old(self),
                final(self),
                old(peers)@,
                final(peers)@,
                now,
                action_views(actions@),
            ),
    {
        let mut actions: Vec<Action> = Vec::new();
        // To prevent clogging the network, we do not send  heartbeats unless
        // at least heartbeat_min has elapsed since the last heartbeat
        if now > self.last_heartbeat && now - self.last_heartbeat > self.heartbeat_min {
            actions.push(Action::Broadcast(peers.peers(), P2pMsg::Heartbeat(self.peer)));
            actions.push(Action::CompleteHeartbeat);
            assert(action_views(actions@) =~= seq![
                ActionView::Broadcast(present(old(peers)@), MsgView::Heartbeat(self.peer@)),
                ActionView::CompleteHeartbeat,
            ]);
        } else {
            assert(action_views(actions@) =~= Seq::<ActionView>::empty());
        }
        actions
    }

    /// Completes a heartbeat that went out at `sent`, with `now` read after
    /// it (see `heartbeat_sent_step`).
    pub fn heartbeat_sent(&mut self, peers: &mut PeerTable, sent: u64, now: u64)
        ensures
            heartbeat_sent_step(old(self), final(self), old(peers)@, final(peers)@, sent, now),
    {
        self.last_heartbeat = sent;
        self.next_heartbeat = sent.saturating_add(self.heartbeat_avg);
        // Purge peers that went offline
        peers.purge(now.saturating_sub(self.heartbeat_max));
    }

    /// Handles a heartbeat from `peer` received at `now` (see
    /// `heartbeat_received_step`).
    pub fn handle_heartbeat(&mut self, peers: &mut PeerTable, peer: Peer, now: u64) -> (actions:
        Vec<Action>)
        ensures
            heartbeat_received_step(
                old(self),
                final(self),
                old(peers)@,
                final(peers)@,
                peer@,
                now,
                action_views(actions@),
            ),
    {
        let mut peer = peer;
        peer.last_heartbeat = Some(now);
        peers.insert(peer);
        self.broadcast_heartbeat(peers, now)
    }

    /// Handles a request from `from` for the heartbeat of `to` (see
    /// `heartbeat_request_step`).
    pub fn handle_heartbeat_request(
        &mut self,
        peers: &PeerTable,
        from: Peer,
        serial: u64,
        to: Peer,
    ) -> (actions: Vec<Action>)
        ensures
            heartbeat_request_step(
                old(self),
                final(self),
                peers@,
                from@,
                serial,
                to@,
                action_views(actions@),
            ),
    {
        let mut actions: Vec<Action> = Vec::new();
        if to == self.peer {
            actions.push(Action::Send(from, P2pMsg::Heartbeat(self.peer)));
            assert(action_views(actions@) =~= seq![
                ActionView::Send(from@, MsgView::Heartbeat(self.peer@)),
            ]);
        } else {
            let seen = self.serials.entry_or_zero(from);
            if serial > seen {
                actions.push(
                    Action::Broadcast(peers.peers(), P2pMsg::RequestHeartbeat(from, serial, to)),
                );
                assert(action_views(actions@) =~= seq![
                    ActionView::Broadcast(
                        present(peers@),
                        MsgView::RequestHeartbeat(from@, serial, to@),
                    ),
                ]);
            } else {
                assert(action_views(actions@) =~= Seq::<ActionView>::empty());
            }
        }
        actions
    }

    /// Answers a request for the peers of this node: the peers of the table
    /// go to the peer that asked.
    pub fn handle_peerlist_request(&self, peers: &PeerTable, peer: Peer) -> (actions: Vec<Action>)
        ensures
            action_views(actions@) == seq![
                ActionView::Send(peer@, MsgView::Peerlist(present(peers@))),
            ],
    {
        let mut actions: Vec<Action> = Vec::new();
        actions.push(Action::Send(peer, P2pMsg::Peerlist(peers.peers())));
        assert(action_views(actions@) =~= seq![
            ActionView::Send(peer@, MsgView::Peerlist(present(peers@))),
        ]);
        actions
    }

    /// Takes the peers of a peer list into the table, all but those with this
    /// node's ID.
    pub fn handle_peerlist(&self, peers: &mut PeerTable, list: Vec<Peer>)
        ensures
            final(peers)@ == insert_all(old(peers)@, peer_views(list@), self.peer@.id),
    {
        let ghost l = peer_views(list@);
        let mut i: usize = 0;
        while i < list.len()
            invariant
                i <= list@.len(),
                l == peer_views(list@),
                peers@ == insert_all(old(peers)@, l.take(i as int), self.peer@.id),
            decreases list@.len() - i,
        {
            let p = list[i];
            proof {
                assert(l.take(i + 1).drop_last() =~= l.take(i as int));
                assert(l.take(i + 1).last() == p@);
            }
            if p.id != self.peer.id {
                peers.insert(p);
            }
            i = i + 1;
        }
        assert(l.take(list@.len() as int) =~= l);
    }

    /// Handles data from `peer` with `serial` (see `data_step`).
    pub fn handle_data(&mut self, peers: &PeerTable, peer: Peer, serial: u64, data: Vec<u8>) -> (actions:
        Vec<Action>)
        requires
            serial < u64::MAX,
        ensures
            data_step(old(self), final(self), peers@, peer@, serial, data@, action_views(actions@)),
    {
        let mut actions: Vec<Action> = Vec::new();
        let seen = self.serials.entry_or_zero(peer);
        if serial >= seen {
            self.serials.insert(peer, serial + 1);
            proof {
                assert(with_entry(old(self).serials@, peer@).insert(peer@, (serial + 1) as u64)
                    =~= old(self).serials@.insert(peer@, (serial + 1) as u64));
            }
            let copy = slice_to_vec(data.as_slice());
            actions.push(Action::Deliver(peer, copy));
            actions.push(Action::Broadcast(peers.peers(), P2pMsg::Data(peer, serial, data)));
            assert(action_views(actions@) =~= seq![
                ActionView::Deliver(peer@, data@),
                ActionView::Broadcast(present(peers@), MsgView::Data(peer@, serial, data@)),
            ]);
        } else {
            assert(action_views(actions@) =~= Seq::<ActionView>::empty());
        }
        actions
    }

    /// Sends data of this node to every peer, with the next serial.
    pub fn broadcast_data(&mut self, peers: &PeerTable, data: Vec<u8>) -> (actions: Vec<Action>)
        requires
            old(self).serial < u64::MAX,
        ensures
            data_sent_step(old(self), final(self), peers@, data@, action_views(actions@)),
    {
        let mut actions: Vec<Action> = Vec::new();
        actions.push(Action::Broadcast(peers.peers(), P2pMsg::Data(self.peer, self.serial, data)));
        self.serial = self.serial + 1;
        assert(action_views(actions@) =~= seq![
            ActionView::Broadcast(
                present(peers@),
                MsgView::Data(old(self).peer@, old(self).serial, data@),
            ),
        ]);
        actions
    }

    /// Whether the node can take the bytes of a connection (see
    /// `connection_accepted`).
    pub fn accepts(bytes: &[u8]) -> (b: bool)
        ensures
            b == connection_accepted(bytes@),
    {
        let n = bytes.len();
        if n == 0 {
            return true;
        }
        if bytes[0] == 5 && n > 33 {
            let mut i: usize = 25;
            let mut all_ones = true;
            while i < 33
                invariant
                    25 <= i <= 33,
                    n == bytes@.len(),
                    n > 33,
                    all_ones == forall|j: int| 25 <= j < i ==> bytes@[j] == 255,
                decreases 33 - i,
            {
                if bytes[i] != 255 {
                    all_ones = false;
                }
                i = i + 1;
            }
            proof {
                let r = bytes@.skip(1);
                let s = r.subrange(24, 32);
                assert forall|j: int| 0 <= j < 8 implies s[j] == bytes@[25 + j] by {}
                lemma_u64_all_ones(s);
            }
            !all_ones
        } else {
            true
        }
    }

    /// Handles the bytes of a connection received at `now` (see
    /// `connection_step`).
    pub fn handle_connection(&mut self, peers: &mut PeerTable, now: u64, bytes: &[u8]) -> (actions:
        Vec<Action>)
        requires
            connection_accepted(bytes@),
        ensures
            connection_step(
                old(self),
                final(self),
                old(peers)@,
                final(peers)@,
                now,
                bytes@,
                action_views(actions@),
            ),
    {
        let buffer = buffer_from_slice(bytes);
        match P2pMsg::try_from(buffer) {
            Ok(msg) => match msg {
                P2pMsg::Heartbeat(peer) => self.handle_heartbeat(peers, peer, now),
                P2pMsg::RequestHeartbeat(from, serial, to) => {
                    self.handle_heartbeat_request(peers, from, serial, to)
                },
                P2pMsg::RequestPeerlist(peer) => self.handle_peerlist_request(peers, peer),
                P2pMsg::Peerlist(list) => {
                    self.handle_peerlist(peers, list);
                    let actions: Vec<Action> = Vec::new();
                    assert(action_views(actions@) =~= Seq::<ActionView>::empty());
                    actions
                },
                P2pMsg::Data(peer, serial, data) => self.handle_data(peers, peer, serial, data),
            },
            Err(_) => {
                // Nothing, we don't bother ourselves with rubbish
                let actions: Vec<Action> = Vec::new();
                assert(action_views(actions@) =~= Seq::<ActionView>::empty());
                actions
            },
        }
    }
}

/// Whether every peer of the table sits in the slot of its ID.
pub open spec fn slots_consistent(t: Seq<Option<PeerView>>) -> bool {
    forall|i: int|
        0 <= i < t.len() ==> (#[trigger] t[i] matches Some(p) ==> peer_wf(p) && slot_of(p.id) == i)
}

/// Inserting a well-formed peer keeps every peer in the slot of its ID.
pub proof fn lemma_insert_consistent(t: Seq<Option<PeerView>>, p: PeerView)
    requires
        slots_consistent(t),
        t.len() == PEER_SLOTS,
        peer_wf(p),
    ensures
        slots_consistent(t.update(slot_of(p.id), Some(p))),
{
    let u = t.update(slot_of(p.id), Some(p));
    assert forall|i: int| 0 <= i < u.len() implies (#[trigger] u[i] matches Some(q) ==> peer_wf(q)
        && slot_of(q.id) == i) by {
        if i != slot_of(p.id) {
            assert(u[i] == t[i]);
        }
    }
}

/// Removing stale peers keeps every other peer in the slot of its ID.
pub proof fn lemma_purged_consistent(t: Seq<Option<PeerView>>, criterion: u64)
    requires
        slots_consistent(t),
    ensures
        slots_consistent(purged(t, criterion)),
        purged(t, criterion).len() == t.len(),
{
    let u = purged(t, criterion);
    assert forall|i: int| 0 <= i < u.len() implies (#[trigger] u[i] matches Some(q) ==> peer_wf(q)
        && slot_of(q.id) == i) by {
        assert(u[i] == (if stale(t[i], criterion) {
            None
        } else {
            t[i]
        }));
    }
}

/// Taking in a list of well-formed peers keeps every peer in the slot of its
/// ID; and a slot that then holds a peer with the ID `own` held that same
/// peer before: a peer list never brings a peer with the node's own ID in.
pub proof fn lemma_insert_all(t: Seq<Option<PeerView>>, list: Seq<PeerView>, own: Seq<u8>)
    requires
        slots_consistent(t),
        t.len() == PEER_SLOTS,
        forall|k: int| 0 <= k < list.len() ==> peer_wf(#[trigger] list[k]),
    ensures
        slots_consistent(insert_all(t, list, own)),
        insert_all(t, list, own).len() == PEER_SLOTS,
        forall|i: int|
            0 <= i < PEER_SLOTS ==> (#[trigger] insert_all(t, list, own)[i] matches Some(q)
                ==> q.id == own ==> insert_all(t, list, own)[i] == t[i]),
    decreases list.len(),
{
    if list.len() > 0 {
        let l = list.drop_last();
        assert forall|k: int| 0 <= k < l.len() implies peer_wf(#[trigger] l[k]) by {
            assert(l[k] == list[k]);
        }
        lemma_insert_all(t, l, own);
        let prev = insert_all(t, l, own);
        let p = list.last();
        assert(peer_wf(list[list.len() - 1]));
        if p.id != own {
            lemma_insert_consistent(prev, p);
        }
    }
}

/// A data message is taken at most once: handling the same data from the
/// same peer with the same serial a second time does nothing; the first time
/// it is delivered exactly when its serial reaches the one recorded for the
/// peer.
pub proof fn lemma_data_once(
    s0: &PeerlistState,
    s1: &PeerlistState,
    s2: &PeerlistState,
    table: Seq<Option<PeerView>>,
    peer: PeerView,
    serial: u64,
    data: Seq<u8>,
    first: Seq<ActionView>,
    second: Seq<ActionView>,
)
    requires
        serial < u64::MAX,
        data_step(s0, s1, table, peer, serial, data, first),
        data_step(s1, s2, table, peer, serial, data, second),
    ensures
        (first.len() > 0) == (serial >= serial_seen(s0.serials@, peer)),
        second.len() == 0,
        s2.serials@ == s1.serials@,
{
    if serial >= serial_seen(s0.serials@, peer) {
        assert(s1.serials@.dom().contains(peer));
        assert(serial_seen(s1.serials@, peer) == serial + 1);
        assert(with_entry(s1.serials@, peer) == s1.serials@);
    } else {
        assert(with_entry(s1.serials@, peer) =~= s1.serials@);
    }
}

/// The table after a list came in has 128 slots.
proof fn lemma_insert_all_len(t: Seq<Option<PeerView>>, list: Seq<PeerView>, own: Seq<u8>)
    requires
        t.len() == PEER_SLOTS,
        forall|k: int| 0 <= k < list.len() ==> peer_wf(#[trigger] list[k]),
    ensures
        insert_all(t, list, own).len() == PEER_SLOTS,
    decreases list.len(),
{
    if list.len() > 0 {
        let l = list.drop_last();
        assert forall|k: int| 0 <= k < l.len() implies peer_wf(#[trigger] l[k]) by {
            assert(l[k] == list[k]);
        }
        lemma_insert_all_len(t, l, own);
        assert(peer_wf(list[list.len() - 1]));
    }
}

/// The slot of a listed peer with a foreign ID that no later listed peer
/// with a foreign ID shares holds that peer.
#[verifier::spinoff_prover]
proof fn lemma_insert_all_last(
    t: Seq<Option<PeerView>>,
    list: Seq<PeerView>,
    own: Seq<u8>,
    k: int,
)
    requires
        t.len() == PEER_SLOTS,
        forall|x: int| 0 <= x < list.len() ==> peer_wf(#[trigger] list[x]),
        0 <= k < list.len(),
        list[k].id != own,
        forall|j: int|
            k < j < list.len() ==> slot_of((#[trigger] list[j]).id) != slot_of(list[k].id)
                || list[j].id == own,
    ensures
        insert_all(t, list, own)[slot_of(list[k].id)] == Some(list[k]),
    decreases list.len(),
{
    let l = list.drop_last();
    let n = list.len() - 1;
    assert forall|x: int| 0 <= x < l.len() implies peer_wf(#[trigger] l[x]) by {
        assert(l[x] == list[x]);
    }
    lemma_insert_all_len(t, l, own);
    assert(peer_wf(list[n]));
    if k < n {
        assert(l[k] == list[k]);
        assert forall|j: int| k < j < l.len() implies slot_of((#[trigger] l[j]).id) != slot_of(
            l[k].id,
        ) || l[j].id == own by {
            assert(l[j] == list[j]);
        }
        lemma_insert_all_last(t, l, own, k);
        assert(slot_of(list[n].id) != slot_of(list[k].id) || list[n].id == own);
    }
}

/// A slot into which no listed peer with a foreign ID falls keeps what it
/// held.
#[verifier::spinoff_prover]
proof fn lemma_insert_all_untouched(
    t: Seq<Option<PeerView>>,
    list: Seq<PeerView>,
    own: Seq<u8>,
    i: int,
)
    requires
        t.len() == PEER_SLOTS,
        forall|x: int| 0 <= x < list.len() ==> peer_wf(#[trigger] list[x]),
        0 <= i < PEER_SLOTS,
        forall|k: int|
            0 <= k < list.len() ==> slot_of((#[trigger] list[k]).id) != i || list[k].id == own,
    ensures
        insert_all(t, list, own)[i] == t[i],
    decreases list.len(),
{
    if list.len() > 0 {
        let l = list.drop_last();
        let n = list.len() - 1;
        assert forall|x: int| 0 <= x < l.len() implies peer_wf(#[trigger] l[x]) by {
            assert(l[x] == list[x]);
        }
        assert forall|k: int| 0 <= k < l.len() implies slot_of((#[trigger] l[k]).id) != i
            || l[k].id == own by {
            assert(l[k] == list[k]);
        }
        lemma_insert_all_len(t, l, own);
        lemma_insert_all_untouched(t, l, own, i);
        assert(peer_wf(list[n]));
        assert(slot_of(list[n].id) != i || list[n].id == own);
    }
}

/// Where each peer of a list goes: the slot of a listed peer whose ID is not
/// `own`, and which no later listed peer with a foreign ID shares, holds that
/// peer; a slot that no listed peer with a foreign ID falls into keeps what it
/// held.
pub proof fn lemma_insert_all_slots(t: Seq<Option<PeerView>>, list: Seq<PeerView>, own: Seq<u8>)
    requires
        t.len() == PEER_SLOTS,
        forall|k: int| 0 <= k < list.len() ==> peer_wf(#[trigger] list[k]),
    ensures
        insert_all(t, list, own).len() == PEER_SLOTS,
        forall|k: int|
            0 <= k < list.len() && (#[trigger] list[k]).id != own && (forall|j: int|
                k < j < list.len() ==> slot_of((#[trigger] list[j]).id) != slot_of(list[k].id)
                    || list[j].id == own) ==> insert_all(t, list, own)[slot_of(list[k].id)]
                == Some(list[k]),
        forall|i: int|
            0 <= i < PEER_SLOTS && (forall|k: int|
                0 <= k < list.len() ==> slot_of((#[trigger] list[k]).id) != i || list[k].id
                    == own) ==> #[trigger] insert_all(t, list, own)[i] == t[i],
{
    lemma_insert_all_len(t, list, own);
    assert forall|k: int|
        0 <= k < list.len() && (#[trigger] list[k]).id != own && (forall|j: int|
            k < j < list.len() ==> slot_of((#[trigger] list[j]).id) != slot_of(list[k].id)
                || list[j].id == own) implies insert_all(t, list, own)[slot_of(list[k].id)]
        == Some(list[k]) by {
        lemma_insert_all_last(t, list, own, k);
    }
    assert forall|i: int|
        0 <= i < PEER_SLOTS && (forall|k: int|
            0 <= k < list.len() ==> slot_of((#[trigger] list[k]).id) != i || list[k].id == own)
            implies #[trigger] insert_all(t, list, own)[i] == t[i] by {
        lemma_insert_all_untouched(t, list, own, i);
    }
}

/// Taking in a peer list that came over a connection: no answer goes out,
/// and the slot of each listed peer with a foreign ID that no later such peer
/// shares holds that peer (without a heartbeat time), while a slot into which
/// no listed peer with a foreign ID falls keeps what it held.
#[verifier::spinoff_prover]
pub proof fn lemma_peerlist_connection(
    pre: &PeerlistState,
    post: &PeerlistState,
    t: Seq<Option<PeerView>>,
    nt: Seq<Option<PeerView>>,
    now: u64,
    ps: Seq<PeerView>,
    actions: Seq<ActionView>,
)
    requires
        t.len() == PEER_SLOTS,
        forall|k: int| 0 <= k < ps.len() ==> peer_wf(#[trigger] ps[k]),
        connection_step(pre, post, t, nt, now, msg_bytes(MsgView::Peerlist(ps)), actions),
    ensures
        actions.len() == 0,
        nt.len() == PEER_SLOTS,
        forall|k: int|
            0 <= k < ps.len() && ps[k].id != pre.peer@.id && (forall|j: int|
                k < j < ps.len() ==> #[trigger] slot_of(ps[j].id) != slot_of(ps[k].id) || ps[j].id
                    == pre.peer@.id) ==> nt[slot_of(#[trigger] ps[k].id)] == Some(
                without_heartbeat(ps[k]),
            ),
        forall|i: int|
            0 <= i < PEER_SLOTS && (forall|k: int|
                0 <= k < ps.len() ==> slot_of(#[trigger] ps[k].id) != i || ps[k].id
                    == pre.peer@.id) ==> #[trigger] nt[i] == t[i],
{
    let m = MsgView::Peerlist(ps);
    lemma_msg_roundtrip(m);
    let own = pre.peer@.id;
    let qs = ps.map_values(|p: PeerView| without_heartbeat(p));
    assert(msg_decode(msg_bytes(m)) == Some(MsgView::Peerlist(qs)));
    assert(nt == insert_all(t, qs, own));
    assert forall|k: int| 0 <= k < qs.len() implies peer_wf(#[trigger] qs[k]) by {
        assert(qs[k] == without_heartbeat(ps[k]));
    }
    lemma_insert_all_slots(t, qs, own);
    assert forall|k: int|
        0 <= k < ps.len() && ps[k].id != own && (forall|j: int|
            k < j < ps.len() ==> #[trigger] slot_of(ps[j].id) != slot_of(ps[k].id) || ps[j].id
                == own) implies nt[slot_of(#[trigger] ps[k].id)] == Some(without_heartbeat(ps[k])) by {
        assert(qs[k] == without_heartbeat(ps[k]));
        assert forall|j: int| k < j < qs.len() implies #[trigger] slot_of(qs[j].id) != slot_of(
            qs[k].id,
        ) || qs[j].id == own by {
            assert(qs[j] == without_heartbeat(ps[j]));
            assert(slot_of(ps[j].id) != slot_of(ps[k].id) || ps[j].id == own);
        }
    }
    assert forall|i: int|
        0 <= i < PEER_SLOTS && (forall|k: int|
            0 <= k < ps.len() ==> slot_of(#[trigger] ps[k].id) != i || ps[k].id == own) implies #[trigger] nt[i]
        == t[i] by {
        assert forall|k: int| 0 <= k < qs.len() implies slot_of(#[trigger] qs[k].id) != i
            || qs[k].id == own by {
            assert(qs[k] == without_heartbeat(ps[k]));
        }
    }
}

/// Answering a heartbeat request that came over a connection for a peer
/// other than this node: it is passed on to every peer of the table exactly
/// when its serial is above the serial recorded for its sender (0 where none
/// is); the serials recorded for other peers, the target among them, play no
/// part. No recorded serial changes, only the sender may gain an entry, and
/// the table stays as it is.
pub proof fn lemma_request_connection(
    pre: &PeerlistState,
    post: &PeerlistState,
    t: Seq<Option<PeerView>>,
    nt: Seq<Option<PeerView>>,
    now: u64,
    from: PeerView,
    serial: u64,
    to: PeerView,
    actions: Seq<ActionView>,
)
    requires
        peer_wf(from),
        peer_wf(to),
        without_heartbeat(to) != pre.peer@,
        connection_step(
            pre,
            post,
            t,
            nt,
            now,
            msg_bytes(MsgView::RequestHeartbeat(from, serial, to)),
            actions,
        ),
    ensures
        nt == t,
        (actions.len() > 0) == (serial > serial_seen(pre.serials@, without_heartbeat(from))),
        actions.len() > 0 ==> actions == seq![
            ActionView::Broadcast(
                present(t),
                MsgView::RequestHeartbeat(without_heartbeat(from), serial, without_heartbeat(to)),
            ),
        ],
        forall|q: PeerView| #[trigger] serial_seen(post.serials@, q) == serial_seen(pre.serials@, q),
        forall|q: PeerView|
            #[trigger] post.serials@.dom().contains(q) ==> pre.serials@.dom().contains(q) || q
                == without_heartbeat(from),
{
    let m = MsgView::RequestHeartbeat(from, serial, to);
    lemma_msg_roundtrip(m);
    assert(msg_decode(msg_bytes(m)) == Some(without_heartbeats(m)));
    let f = without_heartbeat(from);
    assert forall|q: PeerView| #[trigger] serial_seen(post.serials@, q) == serial_seen(
        pre.serials@,
        q,
    ) by {
        if q == f {
        }
    }
}

/// Taking a heartbeat that came over a connection at `now`: its sender goes
/// into the slot of its ID with `now` as the time of its last heartbeat,
/// every other slot keeps what it held, and this node answers with its own
/// heartbeat to every peer exactly when one is due.
pub proof fn lemma_heartbeat_connection(
    pre: &PeerlistState,
    post: &PeerlistState,
    t: Seq<Option<PeerView>>,
    nt: Seq<Option<PeerView>>,
    now: u64,
    p: PeerView,
    actions: Seq<ActionView>,
)
    requires
        t.len() == PEER_SLOTS,
        peer_wf(p),
        connection_step(pre, post, t, nt, now, msg_bytes(MsgView::Heartbeat(p)), actions),
    ensures
        nt.len() == PEER_SLOTS,
        nt[slot_of(p.id)] == Some(PeerView { id: p.id, addr: p.addr, last_heartbeat: Some(now) }),
        forall|i: int| 0 <= i < PEER_SLOTS && i != slot_of(p.id) ==> #[trigger] nt[i] == t[i],
        (actions.len() > 0) == (now > pre.last_heartbeat + pre.heartbeat_min),
        actions.len() > 0 ==> actions[0] == ActionView::Broadcast(
            present(nt),
            MsgView::Heartbeat(pre.peer@),
        ),
{
    lemma_msg_roundtrip(MsgView::Heartbeat(p));
}

/// Taking data that came over a connection from `from` with `serial`: it is
/// handed to the node and passed on to every peer exactly when its serial is
/// at least the serial recorded for `from` (0 where none is), and then the
/// next data from `from` must carry a higher serial. The table stays as it
/// is.
pub proof fn lemma_data_connection(
    pre: &PeerlistState,
    post: &PeerlistState,
    t: Seq<Option<PeerView>>,
    nt: Seq<Option<PeerView>>,
    now: u64,
    from: PeerView,
    serial: u64,
    data: Seq<u8>,
    actions: Seq<ActionView>,
)
    requires
        peer_wf(from),
        data.len() > 0,
        serial < u64::MAX,
        connection_step(pre, post, t, nt, now, msg_bytes(MsgView::Data(from, serial, data)), actions),
    ensures
        nt == t,
        (actions.len() > 0) == (serial >= serial_seen(pre.serials@, without_heartbeat(from))),
        actions.len() > 0 ==> actions == seq![
            ActionView::Deliver(without_heartbeat(from), data),
            ActionView::Broadcast(present(t), MsgView::Data(without_heartbeat(from), serial, data)),
        ] && serial_seen(post.serials@, without_heartbeat(from)) == serial + 1,
{
    lemma_msg_roundtrip(MsgView::Data(from, serial, data));
}

/// Answering a request for this node's peers that came over a connection:
/// the peers of the table, in slot order, go to the peer that asked, and
/// nothing else changes.
pub proof fn lemma_peerlist_request_connection(
    pre: &PeerlistState,
    post: &PeerlistState,
    t: Seq<Option<PeerView>>,
    nt: Seq<Option<PeerView>>,
    now: u64,
    p: PeerView,
    actions: Seq<ActionView>,
)
    requires
        peer_wf(p),
        connection_step(pre, post, t, nt, now, msg_bytes(MsgView::RequestPeerlist(p)), actions),
    ensures
        nt == t,
        actions == seq![ActionView::Send(without_heartbeat(p), MsgView::Peerlist(present(t)))],
        post.serials@ == pre.serials@,
        post.last_heartbeat == pre.last_heartbeat,
{
    lemma_msg_roundtrip(MsgView::RequestPeerlist(p));
}

/// Own data carries rising serials: over a run of this node's data sent, the
/// `i`-th item carries the first state's serial plus `i`, so that no serial is
/// used twice.
pub proof fn lemma_serials_rise(
    states: Seq<PeerlistState>,
    tables: Seq<Seq<Option<PeerView>>>,
    datas: Seq<Seq<u8>>,
    actions: Seq<Seq<ActionView>>,
)
    requires
        states.len() == datas.len() + 1,
        tables.len() == datas.len(),
        actions.len() == datas.len(),
        forall|i: int|
            0 <= i < datas.len() ==> data_sent_step(
                &#[trigger] states[i],
                &states[i + 1],
                tables[i],
                datas[i],
                actions[i],
            ),
    ensures
        forall|i: int|
            0 <= i <= datas.len() ==> #[trigger] states[i].serial == states[0].serial + i
                && states[i].peer@ == states[0].peer@,
        forall|i: int|
            0 <= i < datas.len() ==> #[trigger] actions[i] == seq![
                ActionView::Broadcast(
                    present(tables[i]),
                    MsgView::Data(states[0].peer@, (states[0].serial + i) as u64, datas[i]),
                ),
            ],
    decreases datas.len(),
{
    if datas.len() > 0 {
        let n = datas.len() - 1;
        lemma_serials_rise(states.drop_last(), tables.drop_last(), datas.drop_last(), actions.drop_last());
        assert(data_sent_step(&states[n], &states[n + 1], tables[n], datas[n], actions[n]));
        assert(states.drop_last()[n] == states[n]);
        assert forall|i: int| 0 <= i <= datas.len() implies #[trigger] states[i].serial
            == states[0].serial + i && states[i].peer@ == states[0].peer@ by {
            if i <= n {
                assert(states.drop_last()[i] == states[i]);
            }
        }
        assert forall|i: int| 0 <= i < datas.len() implies #[trigger] actions[i] == seq![
            ActionView::Broadcast(
                present(tables[i]),
                MsgView::Data(states[0].peer@, (states[0].serial + i) as u64, datas[i]),
            ),
        ] by {
            if i < n {
                assert(actions.drop_last()[i] == actions[i]);
                assert(tables.drop_last()[i] == tables[i]);
                assert(datas.drop_last()[i] == datas[i]);
            }
        }
    }
}

/// Handling data never lowers the serial recorded for a peer.
pub proof fn lemma_data_serials_grow(
    pre: &PeerlistState,
    post: &PeerlistState,
    table: Seq<Option<PeerView>>,
    peer: PeerView,
    serial: u64,
    data: Seq<u8>,
    actions: Seq<ActionView>,
)
    requires
        serial < u64::MAX,
        data_step(pre, post, table, peer, serial, data, actions),
    ensures
        serials_grow(pre.serials@, post.serials@),
{
    assert forall|p: PeerView| #[trigger] serial_seen(pre.serials@, p) <= serial_seen(
        post.serials@,
        p,
    ) by {
        if p == peer {
        }
    }
}

/// Handling a heartbeat request never lowers the serial recorded for a peer.
pub proof fn lemma_request_serials_grow(
    pre: &PeerlistState,
    post: &PeerlistState,
    table: Seq<Option<PeerView>>,
    from: PeerView,
    serial: u64,
    to: PeerView,
    actions: Seq<ActionView>,
)
    requires
        heartbeat_request_step(pre, post, table, from, serial, to, actions),
    ensures
        serials_grow(pre.serials@, post.serials@),
{
    assert forall|p: PeerView| #[trigger] serial_seen(pre.serials@, p) <= serial_seen(
        post.serials@,
        p,
    ) by {
        if p == from {
        }
    }
}

/// Handling the bytes of a connection never lowers the serial recorded for a
/// peer.
pub proof fn lemma_connection_serials_grow(
    pre: &PeerlistState,
    post: &PeerlistState,
    table: Seq<Option<PeerView>>,
    new_table: Seq<Option<PeerView>>,
    now: u64,
    b: Seq<u8>,
    actions: Seq<ActionView>,
)
    requires
        connection_accepted(b),
        connection_step(pre, post, table, new_table, now, b, actions),
    ensures
        serials_grow(pre.serials@, post.serials@),
{
    match msg_decode(b) {
        Some(MsgView::RequestHeartbeat(from, serial, to)) => {
            lemma_request_serials_grow(pre, post, table, from, serial, to, actions);
        },
        Some(MsgView::Data(p, serial, data)) => {
            lemma_data_serials_grow(pre, post, table, p, serial, data, actions);
        },
        _ => {},
    }
}

/// The recorded serials only grow over a run of steps.
pub proof fn lemma_serials_grow_trans(
    a: Map<PeerView, u64>,
    b: Map<PeerView, u64>,
    c: Map<PeerView, u64>,
)
    requires
        serials_grow(a, b),
        serials_grow(b, c),
    ensures
        serials_grow(a, c),
{
    assert forall|p: PeerView| #[trigger] serial_seen(a, p) <= serial_seen(c, p) by {
        assert(serial_seen(a, p) <= serial_seen(b, p));
        assert(serial_seen(b, p) <= serial_seen(c, p));
    }
}

/// Data from a peer is delivered and passed on at most once: after data from
/// `peer` with `serial` was taken, data from that peer with a serial not above
/// it, whatever it carries, is dropped in any later state whose recorded
/// serials grew from those after the first.
pub proof fn lemma_old_data_dropped(
    s0: &PeerlistState,
    s1: &PeerlistState,
    sk: &PeerlistState,
    sk1: &PeerlistState,
    table0: Seq<Option<PeerView>>,
    tablek: Seq<Option<PeerView>>,
    peer: PeerView,
    serial: u64,
    data: Seq<u8>,
    first: Seq<ActionView>,
    serial2: u64,
    data2: Seq<u8>,
    later: Seq<ActionView>,
)
    requires
        serial < u64::MAX,
        data_step(s0, s1, table0, peer, serial, data, first),
        first.len() > 0,
        serials_grow(s1.serials@, sk.serials@),
        serial2 <= serial,
        data_step(sk, sk1, tablek, peer, serial2, data2, later),
    ensures
        later.len() == 0,
{
    assert(serial_seen(s1.serials@, peer) == serial + 1);
    assert(serial_seen(s1.serials@, peer) <= serial_seen(sk.serials@, peer));
}

/// Heartbeats are spaced: after a heartbeat that went out at `sent`, an
/// attempt at `now2` within the minimum duration sends nothing.
pub proof fn lemma_heartbeat_spacing(
    s0: &PeerlistState,
    s1: &PeerlistState,
    s2: &PeerlistState,
    t0: Seq<Option<PeerView>>,
    t1: Seq<Option<PeerView>>,
    t2: Seq<Option<PeerView>>,
    sent: u64,
    now1: u64,
    now2: u64,
    second: Seq<ActionView>,
)
    requires
        heartbeat_sent_step(s0, s1, t0, t1, sent, now1),
        heartbeat_step(s1, s2, t1, t2, now2, second),
        now2 <= sent + s0.heartbeat_min,
    ensures
        second.len() == 0,
{
}

/// After a heartbeat is completed with the time `now`, the table holds no
/// peer whose last heartbeat came more than the maximum duration before
/// `now`.
pub proof fn lemma_heartbeat_purges(
    s0: &PeerlistState,
    s1: &PeerlistState,
    t0: Seq<Option<PeerView>>,
    t1: Seq<Option<PeerView>>,
    sent: u64,
    now: u64,
)
    requires
        heartbeat_sent_step(s0, s1, t0, t1, sent, now),
    ensures
        forall|i: int|
            0 <= i < t1.len() ==> !stale(#[trigger] t1[i], time_before(now, s0.heartbeat_max)),
{
    assert forall|i: int| 0 <= i < t1.len() implies !stale(
        #[trigger] t1[i],
        time_before(now, s0.heartbeat_max),
    ) by {
        let c = time_before(now, s0.heartbeat_max);
        assert(t1[i] == (if stale(t0[i], c) {
            None
        } else {
            t0[i]
        }));
    }
}

} // verus!
