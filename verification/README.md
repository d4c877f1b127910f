# hanzo-zap

The ZAP wire protocol: building messages, reading them in place, and framing
them on a stream. The library in `src/` is verified with Verus.

| module      | what it holds                                                      |
|-------------|--------------------------------------------------------------------|
| `protocol`  | the header and the protocol's numbers                              |
| `endian`    | little-endian words, overwriting and zero-extending a buffer       |
| `layout`    | what a message's bytes mean, and the laws of writing and reading   |
| `message`   | `Message` and `Object`: checking a header, reading fields in place |
| `builder`   | `Builder` and `ObjectBuilder`                                      |
| `text`      | the two standard library conversions from bytes to text            |
| `handshake` | the message in which a node gives its name                         |
| `cloud`     | cloud requests and responses                                       |
| `frame`     | the length before each message on a stream                         |

Contracts are stated over sequences of bytes. A builder function says which
bytes come out; a reader function says what it makes of any bytes, sound or not.
That a reader gets back what a builder was given is proved in
`handshake::law_handshake_reads_back`, `cloud::law_request_reads_back`,
`cloud::law_response_reads_back`, `frame::law_frame_reads_back` and, for objects
of any shape, `layout::law_payload_reads_back` and `layout::law_scalars_read_back`.

`app/` sends and receives frames over tokio's asynchronous streams.
