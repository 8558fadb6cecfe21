//! The decisions of a chat node: its options, the commands typed into it,
//! and the text it shows for what arrives from the network.
use vstd::prelude::*;
use vstd::string::*;
use vstd::slice::slice_to_vec;
use vstd::utf8::{decode_utf8, valid_utf8};

use crate::id::{peer_id_text, PeerId};
use crate::message::peer_views;
use crate::peer::{peer_text, Peer, PeerView};
use crate::peerlist::PeerlistOptions;
use crate::text::{decimal, push_char, push_decimal};

verus! {

/// `std::string::FromUtf8Error`, the error of a failed conversion of bytes
/// to a `String`.
#[verifier::external_type_specification]
#[verifier::external_body]
pub struct ExFromUtf8Error(std::string::FromUtf8Error);

/// `String::from_utf8`: the text that the bytes encode in UTF-8. Claimed of
/// it: it succeeds exactly when the bytes are valid UTF-8, and then holds the
/// characters they encode.
#[verifier::external_body]
fn string_from_utf8(bytes: Vec<u8>) -> (r: Result<String, std::string::FromUtf8Error>)
    ensures
        (r is Ok) == valid_utf8(bytes@),
        r matches Ok(s) ==> s@ == decode_utf8(bytes@),
{
    String::from_utf8(bytes)
}

/// Options required to run a Banter node
pub struct NodeOptions {
    /// Port to use
    pub port: u16,
    /// The ID that this node will use.
    pub id: PeerId,
    /// Peers that the node will try to contact upon initialization.
    /// To connect to any network, at least one of these peers is required to
    /// respond.
    pub init_peers: Vec<String>,
}

impl NodeOptions {
    /// The options of the node's peer-to-peer layer: it listens on the port
    /// at 127.0.0.1, starts its serials at 0, sends heartbeats every 2000 ms
    /// but not within 1800 ms of the last one, forgets peers silent for
    /// 2200 ms, and reads messages of up to 16384 bytes.
    pub fn peerlist_options(self) -> (opts: PeerlistOptions)
        ensures
            opts.addr@ == "127.0.0.1:"@ + decimal(self.port as nat),
            opts.id@ == self.id@,
            opts.init_peers@ == self.init_peers@,
            opts.init_serial == 0,
            opts.heartbeat_min == 1800,
            opts.heartbeat_avg == 2000,
            opts.heartbeat_max == 2200,
            opts.buffer_size == 16384,
    {
        let mut addr = String::from_str("127.0.0.1:");
        push_decimal(&mut addr, self.port as u64);
        PeerlistOptions {
            addr,
            id: self.id,
            init_peers: self.init_peers,
            init_serial: 0,
            heartbeat_min: 1800,
            heartbeat_avg: 2000,
            heartbeat_max: 2200,
            buffer_size: 16384,
        }
    }
}

/// The commands of the node.
#[derive(Debug, Clone, Copy, PartialEq, Eq, Structural)]
pub enum Cmd {
    ListPeers,
    Quit,
}

/// The command that a command word names: `q` or `quit`, `l` or `list`.
pub open spec fn command_of(cmd: Seq<char>) -> Option<Cmd> {
    if cmd == "q"@ || cmd == "quit"@ {
        Some(Cmd::Quit)
    } else if cmd == "l"@ || cmd == "list"@ {
        Some(Cmd::ListPeers)
    } else {
        None
    }
}

/// The command that the word names, if any.
pub fn translate_cmd(cmd: &str) -> (r: Option<Cmd>)
    ensures
        r == command_of(cmd@),
{
    proof {
        reveal_strlit("q");
        reveal_strlit("quit");
        reveal_strlit("l");
        reveal_strlit("list");
    }
    let n = cmd.unicode_len();
    if n == 1 {
        let c = cmd.get_char(0);
        if c == 'q' {
            assert(cmd@ =~= "q"@);
            return Some(Cmd::Quit);
        } else if c == 'l' {
            assert(cmd@ =~= "l"@);
            return Some(Cmd::ListPeers);
        }
    } else if n == 4 {
        let c0 = cmd.get_char(0);
        let c1 = cmd.get_char(1);
        let c2 = cmd.get_char(2);
        let c3 = cmd.get_char(3);
        if c0 == 'q' && c1 == 'u' && c2 == 'i' && c3 == 't' {
            assert(cmd@ =~= "quit"@);
            return Some(Cmd::Quit);
        } else if c0 == 'l' && c1 == 'i' && c2 == 's' && c3 == 't' {
            assert(cmd@ =~= "list"@);
            return Some(Cmd::ListPeers);
        }
    }
    None
}

/// Whether `c` is white space, as `char::is_whitespace` has it: the
/// characters with the Unicode property `White_Space`.
pub open spec fn is_whitespace(c: char) -> bool {
    ||| '\t' <= c <= '\r'
    ||| c == ' '
    ||| c == '\u{85}'
    ||| c == '\u{a0}'
    ||| c == '\u{1680}'
    ||| '\u{2000}' <= c <= '\u{200a}'
    ||| c == '\u{2028}'
    ||| c == '\u{2029}'
    ||| c == '\u{202f}'
    ||| c == '\u{205f}'
    ||| c == '\u{3000}'
}

/// The text without its trailing white space, as `str::trim_end` gives it.
pub open spec fn trim_end(s: Seq<char>) -> Seq<char>
    decreases s.len(),
{
    if s.len() == 0 {
        s
    } else if is_whitespace(s.last()) {
        trim_end(s.drop_last())
    } else {
        s
    }
}

/// Whether `c` is white space.
fn char_is_whitespace(c: char) -> (b: bool)
    ensures
        b == is_whitespace(c),
{
    ('\t' <= c && c <= '\r') || c == ' ' || c == '\u{85}' || c == '\u{a0}' || c == '\u{1680}' || (
    '\u{2000}' <= c && c <= '\u{200a}') || c == '\u{2028}' || c == '\u{2029}' || c == '\u{202f}'
        || c == '\u{205f}' || c == '\u{3000}'
}

/// What the node does with a line typed into it.
#[derive(Debug, PartialEq, Eq)]
pub enum NodeInput {
    /// Stop the node.
    Quit,
    /// Show the known peers.
    ListPeers,
    /// Show this complaint about an unknown command.
    UnknownCommand(String),
    /// Send these bytes to the network.
    Broadcast(Vec<u8>),
}

/// The command word of a line that starts with `:`: the rest of the line
/// without its trailing white space.
pub open spec fn command_word(line: Seq<char>) -> Seq<char> {
    trim_end(line.drop_first())
}

/// Decides what to do with a line typed into the node. A line that starts
/// with `:` holds a command; any other line, the empty line too, is a
/// message for the network.
pub fn interpret_input(line: &str) -> (r: NodeInput)
    ensures
        (line@.len() >= 1 && line@[0] == ':') ==> match command_of(command_word(line@)) {
            Some(Cmd::Quit) => r is Quit,
            Some(Cmd::ListPeers) => r is ListPeers,
            None => r matches NodeInput::UnknownCommand(msg) && msg@ == "Unknown command `"@
                + line@ + "`"@,
        },
        !(line@.len() >= 1 && line@[0] == ':') ==> (r matches NodeInput::Broadcast(bytes)
            && bytes@ == line.spec_bytes()),
{
    let n = line.unicode_len();
    if n == 0 {
        return NodeInput::Broadcast(line.as_bytes_vec());
    }
    let first = line.get_char(0);
    if first == ':' {
        // find where the trailing white space begins
        let mut end: usize = n;
        while end > 1 && char_is_whitespace(line.get_char(end - 1))
            invariant
                1 <= end <= n,
                n == line@.len(),
                trim_end(line@.subrange(1, end as int)) == command_word(line@),
            decreases end,
        {
            assert(line@.subrange(1, end as int).drop_last() =~= line@.subrange(1, end - 1));
            end = end - 1;
        }
        proof {
            if end > 1 {
                assert(!is_whitespace(line@.subrange(1, end as int).last()));
            } else {
                assert(line@.subrange(1, end as int).len() == 0);
            }
        }
        let mut cmd = String::new();
        let mut i: usize = 1;
        while i < end
            invariant
                1 <= i <= end <= n,
                n == line@.len(),
                cmd@ == line@.subrange(1, i as int),
            decreases end - i,
        {
            push_char(&mut cmd, line.get_char(i));
            i = i + 1;
            assert(cmd@ =~= line@.subrange(1, i as int));
        }
        match translate_cmd(cmd.as_str()) {
            Some(Cmd::Quit) => NodeInput::Quit,
            Some(Cmd::ListPeers) => NodeInput::ListPeers,
            None => {
                let mut msg = String::from_str("Unknown command `");
                msg.append(line);
                msg.append("`");
                NodeInput::UnknownCommand(msg)
            },
        }
    } else {
        NodeInput::Broadcast(line.as_bytes_vec())
    }
}

/// The line that the node shows for a message from a peer: the peer's ID
/// text, a colon and a space, then the message.
pub open spec fn message_line(id: Seq<u8>, text: Seq<char>) -> Seq<char> {
    peer_id_text(id) + ": "@ + text
}

/// What the node shows for data that came from `peer`: nothing for its own
/// data or data that is not UTF-8 text, else the message line.
pub fn render_incoming(self_id: &PeerId, peer: &Peer, data: &[u8]) -> (r: Option<String>)
    ensures
        (peer@.id != self_id@ && valid_utf8(data@)) ==> (r matches Some(s) && s@ == message_line(
            peer@.id,
            decode_utf8(data@),
        )),
        !(peer@.id != self_id@ && valid_utf8(data@)) ==> r is None,
{
    if peer.id != *self_id {
        match string_from_utf8(slice_to_vec(data)) {
            Ok(msg) => {
                let mut line = peer.id.to_string();
                line.append(": ");
                line.append(msg.as_str());
                Some(line)
            },
            // Nothing, we don't bother ourselves with rubbish
            Err(_) => None,
        }
    } else {
        None
    }
}

/// The text of a list of peers: each peer's text on a line of its own.
pub open spec fn peer_list_text(ps: Seq<PeerView>) -> Seq<char>
    decreases ps.len(),
{
    if ps.len() == 0 {
        seq![]
    } else {
        peer_list_text(ps.drop_last()) + peer_text(ps.last()) + seq!['\n']
    }
}

/// Formats peers for display, one per line.
pub fn format_peer_list(peers: &Vec<Peer>) -> (s: String)
    ensures
        s@ == peer_list_text(peer_views(peers@)),
{
    let ghost ps = peer_views(peers@);
    let mut string = String::new();
    let mut i: usize = 0;
    while i < peers.len()
        invariant
            i <= peers@.len(),
            ps == peer_views(peers@),
            string@ == peer_list_text(ps.take(i as int)),
        decreases peers@.len() - i,
    {
        let t = peers[i].to_string();
        string.append(t.as_str());
        push_char(&mut string, '\n');
        proof {
            assert(ps.take(i + 1).drop_last() =~= ps.take(i as int));
            assert(ps.take(i + 1).last() == peers@[i as int]@);
        }
        i = i + 1;
    }
    assert(ps.take(peers@.len() as int) =~= ps);
    string
}

} // verus!
