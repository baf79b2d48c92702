# cord

Cord is a publish/subscribe broker for namespaced data streams. Publishers
provide namespaces such as `/users`; subscribers ask for a namespace and
receive the events published under every namespace it contains.

The library (`src/`) is written in Verus and verified:

- `pattern`: namespace patterns and the containment relation (`/a` contains
  `/a/b` but not `/ab`), proved reflexive, antisymmetric and transitive.
- `message`: the messages between clients and brokers.
- `codec` and `buffer`: the wire framing
  `[u8 kind][u16 length][namespace][u32 length][data]` (the last two for
  events only) on `bytes::BytesMut` buffers, with a decoder that resumes
  where the bytes ran out and refuses an unknown kind byte; proved to give
  back every message it frames and, however the bytes are cut into chunks,
  to complete the same messages in the same order and end in the same
  state as if they had all come at once.
- `subscriptions`: a publisher's subscription table and its routing.
- `broker`: the tables of all publishers and the subscriptions that link
  them, proved to deliver a linked client's events to a subscriber and to
  stop after it unsubscribes.
- `receivers`: the client's table of local receiver channels.
- `generators` and `streams`: the bookkeeping of the load generator, with
  durations in whole nanoseconds.

`app/` holds the broker binary, the client connection and the load
generator's runtime, which do the network and timer work around the
library. `tests/` exercises the library.
