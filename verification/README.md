# banter

A small peer-to-peer chat protocol. Nodes find each other by heartbeats and
peer lists, and pass chat messages on to every peer they know, each message
once.

- `src/` is the library, verified with Verus: the binary message codec
  (`message`, `peer`, `id`, `buffer`), the text forms of peer IDs, peers and
  socket addresses (`util`, `socket`, `text`), the peer table and the
  decisions of the peer-to-peer layer (`peerlist`), and the decisions of the
  chat node (`node`).
- `app/` is the program around it: sockets, timers, channels and the
  terminal. Run it plainly for a chat node, or with `--explore` for a node
  that only prints the peers it knows.
- `tests/` runs the library on concrete values.
