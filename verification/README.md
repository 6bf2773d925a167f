# mesh_share

A LAN file-sharing service: the sharer picks files, the library hashes them
into torrent pieces and keeps a descriptor beside each file, and an HTTPS
server hands download pages a metadata document, the `.torrent` files, byte
ranges of the files (a fallback for peer-to-peer transfer) and a built-in
WebSocket tracker.

`src/` is the library, verified with Verus:

- `text`, `bencode`, `codec`: character and byte helpers, bencoding, and the
  digests and encodings (SHA-1, hex, Base64, percent-encoding) used for
  torrent metadata.
- `torrent`, `paths`, `batch`: piece layout and piece hashing, the `.torrent` file, info hash,
  magnet link, the reusable seed descriptor, and the collection of the files
  of a share.
- `trackers`, `swarm`: tracker lists, and the built-in tracker's swarms.
- `serve`, `routes`, `host`, `assets`: rate limiting, byte-range planning,
  throttling, the answers of the HTTP routes, the advertised address and
  certificate names, and the served script and page.
- `session`, `runtime`: the running share and everything the sharer's window
  shows.

`app/` holds what the library leaves to its caller: file and network I/O, the
clocks, the environment, JSON, and the HTTPS server and WebSocket plumbing.
