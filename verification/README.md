# mdswp

MDSWP is a sliding window protocol on top of UDP. Its messages are called
segments: `ESTABLISH` and `RESET` open and refuse or break a connection,
`ACCEPT`, `DATA` and `FINISH` are sequential segments that the peer
acknowledges with `ACKNOWLEDGE`.

The protocol logic is a Verus library in `src/`, proved against its
contracts:

- `segment`: segments and their wire format, with the laws that reading back
  a written segment gives the segment and the other way round;
- `stream::send`, `stream::recv`: the sending window (at most `WINDOW_SIZE`
  segments in flight, sent again after half the connection timeout) and the
  receiving window (segments handed out for reading in order, each once);
- `stream::inner`: the state of one connection, with writing, flushing,
  finishing, resetting and reading;
- `listener`: where a datagram that a listener receives goes, and the
  handshake;
- `storage`: simpler storages of a stream's data;
- `laws`: properties that span several operations;
- `clock`: the monotonic clock, behind trusted wrappers.

`app/` holds the sockets, locks and threads around it: `MdswpListener` and
`MdswpStream`, used like `TcpListener` and `TcpStream`.
