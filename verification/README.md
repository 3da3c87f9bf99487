# secure_transfer

File transfer over UDP with a TCP control stream. A file is cut into chunks;
each chunk is encrypted with AES-256 in counter mode, guarded by a 64-bit
xxHash and framed into one datagram. Chunks are grouped into blocks. The sender
keeps a bounded number of blocks open, the receiver says per block which packets
are missing, and a reorder buffer writes the file from front to back.

`src/` is the logic of the transfer, proved with Verus. `app/` is the program
around it: sockets, files, threads, clocks and messages to the user. `tests/`
runs the library on concrete values.

| Module | What it holds |
|---|---|
| `codec` | big-endian integers in byte strings |
| `config` | tunables |
| `protocol` | wire formats of data packets, block ends and acknowledgements |
| `transport` | block arithmetic, packet cache, per-block receive state |
| `pipeline` | what the stages hand to each other |
| `fileio` | files as sequences of chunks |
| `checksum`, `crypto` | hashing and encryption of chunks |
| `worker` | sealing a chunk, opening and verifying a packet |
| `sender` | the scheduler that owns every block's lifecycle |
| `receiver` | datagrams in, acknowledgements out |
| `writer` | the reorder buffer |
| `session`, `handshake` | frames, secrets, the exchange of the session key |
| `buffer_pool` | reusable buffers |
| `sender_laws`, `sender_totals`, `receiver_laws`, `transfer_laws` | what holds of all histories |

Decisions are functions from a state and an event to a state and a list of
actions; the program performs the actions and hands back the events. Times are
nanoseconds that the program passes in.

What is not proved are the contracts of the outside functions that the library
calls: the AES-CTR keystream (`ctr`, `aes`), xxHash (`xxhash-rust`), RSA-OAEP and
the PEM encoding of keys (`rsa`, `sha2`), random numbers (`rand`), the bounded
queue (`crossbeam-queue`), and `Vec::capacity` and `str::from_utf8` of the
standard library. Each stands behind a small function whose contract says what
is taken for granted.
