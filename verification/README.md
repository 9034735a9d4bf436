# librespot (verified core)

The bookkeeping of a Spotify client's audio downloads and credentials, written in Verus and
proved against its contracts.

- `src/range.rs`, `src/range_set.rs`: byte ranges and sets of them, kept as a sorted list of
  disjoint, non-touching ranges. Every operation is specified over the set of positions it
  holds; the canonical form is proved unique.
- `src/download.rs`: what to request from the server (download windows, pre-fetching), what
  has arrived, and the request packet.
- `src/receiver.rs`: the state of the task that receives one request's data, and the
  response-time estimate.
- `src/stream.rs`: the bounds of reads and of blocking fetches.
- `src/authentication.rs`: credentials, including the decryption and parsing of stored
  credential blobs.
- `src/audio.rs`: audio packets and decoding errors.
- `src/bytes_be.rs`, `src/crypto.rs`, `src/text.rs`: the calls into `byteorder`, the
  RustCrypto crates, `base64` and `std` formatting, each with the contract the library relies
  on.

`app/` holds what Verus does not check: serde forms of the credentials, and the locks,
channels, tasks and files that move the audio data.
