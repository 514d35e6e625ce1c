# anyst

A port tunnel that listens on TCP and UDP at once. TCP connections are relayed
as streams of TLS sessions whose first writes are padded; UDP datagrams are
relayed as packets over QUIC. Both sides authenticate with a pre-shared
password, and on a server the password decides which backend a client reaches.

- `src/`: the protocol core, verified with Verus. It computes on plain values
  and never touches a socket, a file or the clock.
  - `text`, `wire`, `addr`, `digest`, `random`: building blocks
  - `padding`, `default_scheme`: padding schemes and how they shape writes
  - `config`: completing and checking a configuration
  - `anytls`: frames, sessions and the pool of idle sessions, for TCP
  - `tuic`: packets, reassembly, associations and local peers, for UDP
- `app/`: the program around it, with the sockets, tasks and files
- `tests/`: runs the library on concrete values

Functions named `law_..` state what holds of several functions together, such
as that a frame reads back as what was written, or that a fragmented datagram
arrives whole in whatever order its fragments do.
