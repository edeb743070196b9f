# retorrent

A BitTorrent client whose logic is verified with Verus.

- `src/` is the library. It holds the bencoding, torrent files and magnet links,
  the peer protocol with its extensions, the pieces and the state of a torrent,
  the tracker and DHT protocols, the DHT's routing table and lookups, the layout
  of files, the queue, and the texts and lists that the user sees. Everything in
  it is stated in contracts and proved. Laws that relate several functions are
  public proof functions whose names start with `law_`.
- `tests/` runs the library on concrete values.
- `app/` is the program around the library: sockets, files, timers, and the
  window. The window needs the feature `desktop-bin`; without it the program
  reports to its log.

What the library takes from other crates (digests, byte order, URLs,
hexadecimal text, random numbers, caches and maps) is called through the items
marked `external_body` and through `assume_specification`, in `text.rs`,
`outside.rs`, `storage/cache.rs`, `dht/peer_store.rs` and `dht/limits.rs`. Each
says what is believed of the call.

Times are nanoseconds from a fixed start, unless a name says otherwise.
