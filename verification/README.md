# proxy_rs

A TCP proxy and file-transfer tool over iroh: the client runs a local SOCKS5 or HTTP
proxy and forwards each connection to a server node, which dials the requested target;
the client can also send a file to the server, and checks that the server answers pings.

The crate has two parts.

- `src/` is the library, verified with Verus. It holds the tool's wire formats, handshake
  decisions, checks and saved-file formats, each with a contract and the laws that relate
  the functions:
  - `wire`, `bits`, `codec`, `record`: big-endian integers, length-prefixed UTF-8
    strings, flag bytes, the field-by-field codec, and the layout the `StreamCodec`
    derive gives a struct (with the law that what is encoded is decoded back, and that
    decoding never reads past a message);
  - `proxy_header`, `file_send`, `ack`, `ping`: the messages of the three iroh
    protocols, the file server's checks and its answers;
  - `socks5`, `http`: the local proxy handshakes, as decisions on the bytes received
    so far;
  - `client`, `node_ids`, `keys`: the listen URL, the file of saved server node ids, and
    the server's keys (parsed by iroh).
- `app/` is the program around it: command line, tokio runtime, iroh endpoints and
  router, sockets and files. It reads and writes bytes and asks the library what to do
  with them.

The tests under `tests/` run the library on concrete values.
