# broker

A message broker. Clients create queues, put messages into them and take them out
over TCP. A message that is handed out is locked until the client acknowledges it,
gives it back, or lets its time run out.

`src/` is the library, verified with Verus:

- `net::protocol` cuts the bytes that arrive into requests and writes the answers;
- `net::queue` and `net::queue_config` are the queues, over the model in `net::model`;
- `net::server` does what requests ask for;
- `net::net_stats` counts what the queues hold, `net::pool` picks a worker;
- `net::laws` and `net::guarantees` state what holds across operations;
- `memory` keeps the books of the arena that all memory comes from;
- `config` and `shutdown` read the settings and the command line;
- `wire` and `tally` are the numbers on the wire and the sums over maps;
- `outside` lists what is believed of other crates and of std.

`app/` is the program around it: sockets, threads, signals, files and raw memory.
`tests/` runs the library.

## Protocol

A request is `[1 command][16 client id][8 payload size][64 queue name][payload]`, a
response `[1 status][8 payload size][payload]`; numbers are big-endian and the name is
padded with zeroes. Status 1 is success; status 2 is failure, and the payload is then
a 2-byte error code.

| Command | Byte | Payload |
| --- | --- | --- |
| Enqueue | 1 | the message |
| Dequeue | 2 | |
| CreateQ | 3 | |
| DeleteQ | 4 | |
| ListM | 5 | |
| DeleteM | 6 | message id (16) |
| Succeeded | 7 | |
| Failed | 8 | |
| Requeue | 9 | message id (16) |
| UpdateM | 10 | message id (16), new message |
| UpdateQ | 11 | flags (1), auto-fail (1) if flag 1, timeout in ms (8) if flag 2 |

A message is delivered behind 56 bytes: `[16 id][16 publisher][8 timestamp][16 holder]`.

## Settings

`.settings` in the working directory, or in the one given by `--config=`:
`THREADS_LIMIT`, `PROC_LIMIT`, `WAIT_LIMIT`, `SERVER_ADDR`, `SERVER_PORT`, and
optionally `QUEUE_NAMES` (separated by commas) and `MEMORY_LIMIT` (bytes).
`--shutdown_timeout=` gives the seconds to wait for open connections.
