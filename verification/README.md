# The Matey Ship

A BitTorrent client. The library under `src/` is its logic, verified with Verus; the program under
`app/` adds the network, the disk and the progress bar.

- `bencode_parser`, `dict`, `fields`, `bencode_laws`: bencode, the encoding of torrent files.
- `torrent_parser`: torrent files.
- `tracker`, `url_query`: announcements to a tracker, peer IDs, and the peers in the answer.
- `types`, `bits`, `tcp_peer_communicator`: messages, and the peer protocol on the wire.
- `worker_queue`, `worker_laws`: the blocks that are left to download.
- `peer_connection`, `peer_laws`: what a peer's messages change, and what is written in return.
- `swarm`, `swarm_laws`, `request_laws`, `client_laws`: all connections of a client over time, and
  what holds of the blocks they take and the requests they write.
- `download`: when a piece, and when the torrent, is complete.
- `fixed_length_chain`: two streams one behind the other.
- `chance`: draws with given odds.
- `text`, `debug_text`: decimal and hexadecimal texts, and the texts that `{:?}` shows.

What is believed without proof of SHA-1, of bit vectors, of URLs and percent-encoding, of random
numbers, of formatters and of UTF-8 stands in the contracts of the items marked `external_body` and
`assume_specification`, each with a comment that names the outside function.
