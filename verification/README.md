# mailboxqtt

A small MQTT 3.1.1 broker, written as a verified library with a thin program
around it.

- `src/` is the library, with its specifications and proofs:
  - `protocol/`: the packet formats (remaining length, big-endian integers,
    length-prefixed UTF-8 strings; CONNECT, CONNACK, PUBLISH, PUBACK,
    SUBSCRIBE, SUBACK). Each reader is specified by a spec function over the
    input bytes, each encoder by the bytes it produces, and decoding an
    encoding gives the value back.
  - `message_queue.rs`: the subscription tree. Its contents are modelled as a
    sequence of (filter, client) subscriptions; `get_subscribers` returns
    exactly the clients whose filter matches a topic (`+` one level, `#` the
    rest), `subscribe` adds one subscription, and `handle_publish` lists the
    deliveries of a published message.
  - `client/`: the decisions of a client's task: what a packet from the client
    asks for, which QoS 1 packets wait for an acknowledgement, and when they
    are sent again or dropped.
- `app/` is the program: the TCP listener, the tokio tasks and channels, and
  the loops that read from sockets and carry out what the library decides.
- `tests/` runs the library on concrete packets and topics.

The broker listens on `127.0.0.1:1883` unless `SOCKET_ADDR` (or its first
argument) names another address; `RUST_LOG=info` turns on its log.
