# eth_watch

An Ethereum watcher: it polls an Ethereum node for the events that matter to the network and hands them to
event processors, once they have enough confirmations.

- `src/` is the verified library: which blocks are fetched next and for whom (`chunk`), in which order logs
  are handed out (`logs`), a pass over the sources as a state machine (`iteration`), the watcher's own loop,
  what it starts from, which event processors it serves and which clients they work with (`watch`), retries
  and backoff (`retry`, `pause`), and the headers of the node's client (`client_layer`). `guarantees` states
  what holds of every pass, whatever comes of its actions, and `passes` how successive passes fit together.
- `app/` performs the actions: it talks to nodes and to the storage, and waits. What an event processor does
  with its logs, which errors are fatal, and the tree of batch roots are left to those who implement its
  traits.
- `tests/` runs the library.
