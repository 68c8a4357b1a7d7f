# rsoup

Client driver for the SoupDB server: it speaks the binary protocol v1
(magic `SP`, version, opcode, big-endian payload length, payload) over TCP.

- `src/` is the library, verified with Verus:
  - `protocol` — the codec of frames and of the QUERY, OK, ERROR and RESULT
    payloads, with the round-trip properties proved;
  - `connection_manager` — the requests a connection sends and how each reply
    is read (result, affected rows, server error), with the count of active
    transactions;
  - `transaction_manager` — the transaction manager and the transaction guard;
  - `tcp_server` — the check of an incoming frame header;
  - `scenarios` — the built-in scenarios as a state machine (what to send,
    how to judge the replies);
  - `text` — decimal rendering, string comparison and UTF-8 decoding.
- `app/` is the program around it: sockets and the async runtime (tokio), the
  terminal interface (ratatui, crossterm), argument handling and the demo.
- `tests/` exercises the library, including a simulated server.
