# rust-im

A verified library for instant messaging, and the programs around it.

- `src/protocol`: frames on a byte stream, numbers of variable length, checksums,
  and the bodies of frames.
- `src/mount`: contacts and messages as a file tree, with a bounded cache of
  listings.
- `src/crypto`: key agreement with someone who is offline, keys that change with
  every message, and the certificates of the transport.
- `src/client`: the client as a state machine, its outbox, its conversations, and
  its terminal interface short of the terminal.
- `src/sdk`: the client as other languages see it.
- `src/bench`: measurements and their books.
- `src/octets.rs`, `src/text.rs`, `src/textmap.rs`: bytes, texts, and a map keyed by
  texts.

`app` holds what does input and output: sockets, the terminal, the command line.
`tests` runs the library.
