# topiq

A lightweight publish/subscribe message broker. The library in `src/` is
written in Verus: its functions carry `requires`/`ensures` contracts and are
proved against them.

- `topic.rs`: subjects (`.`-separated tokens, `*` and `>` wildcards) and the
  validation grammar, with the exact error text for each refusal.
- `trie.rs`: the topic trie; its contracts count registrations per pattern,
  and `matches` returns each subscription id as often as its patterns match.
- `queue_group.rs`, `router.rs`: round-robin selection (one counter per
  queue group) and routing: each message is handed to every direct
  subscriber, then to one member per queue group, as a ghost record of the
  sends attempted shows.
- `registry.rs`: the subscription registry over the trie and a `DashMap` of
  entries.
- `session.rs`, `client.rs`, `listener.rs`: the decisions of the broker
  session, the client and the accept loop, as functions from state and event
  to next state and action.
- `codec.rs`: the length-prefixed, versioned wire framing.

`app/` holds the unverified runtime around the library: the tokio server and
client loops, the msgpack (de)serialization of frames, the CLI and the
configuration.
