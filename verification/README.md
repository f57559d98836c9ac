# Torrentina

A lightweight BitTorrent client whose core is verified with [Verus](https://github.com/verus-lang/verus).

* `src/`: the library. Everything in it is synchronous, free of I/O and verified: bencode and
  `.torrent` parsing with the faithful info hash, tracker requests and replies over HTTP(S) and
  UDP, the peer wire protocol, piece selection and the per-peer download state machine, the layout
  of the content on disk, and the list of torrents behind a desktop frontend.
* `tests/`: tests of the library.
* `app/`: the programs around it: sockets, files, clocks, the command line, JSON.

| Module | What it holds |
|--------|---------------|
| `metainfo`, `outline`, `decode`, `span`, `keys`, `canonical` | the torrent file and its info hash |
| `bencode`, `text`, `bigendian`, `keyed` | encodings and small containers |
| `tracker` | announce URLs and packets, replies, the search for peers |
| `peer` | handshake and messages |
| `download` | bitfields, pieces, the shared piece tracker, sessions, statistics |
| `disk` | where each byte of a piece goes |
| `registry` | the torrents of a desktop frontend |
| `buffer`, `digest` | the byte buffers and the SHA-1 that come from other crates |

The state machines (`download::session::Session`, `tracker::udp::Exchange`,
`tracker::search::PeerSearch`, `registry::Registry`) decide what to do; `app/` performs it and hands
back what happened. Functions whose names begin with `law_` state what holds of the library as a
whole.

Calls into other crates stand behind declarations whose contracts are believed, not proved. Each of
them says in its comment which function it stands for and what it claims of it.
