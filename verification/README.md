# connectivity

Decides which peers a peer-to-peer node is connected to. The library is verified with Verus: the
functions in `src/` carry contracts that Verus proves, but for the three trusted functions named
below.

- `node_id`, `peer`: node ids with their distance, and what is known of peers and connections.
- `connection_pool`: the peers that are kept track of, with the status of each.
- `selection`: which connections a caller is handed, by distance or at random.
- `requester`: the requests, events and errors of the connectivity manager.
- `manager`: the connectivity manager. `manager::model` says what it does as functions from one
  state to the next; `manager::laws` and `manager::order` hold what follows over several steps.
- `dht`: the neighbours and random nodes that a node of the distributed hash table keeps, with its
  own `model` and `laws`. `dht::query` selects neighbours among the known peers, `dht::stats` notes
  when the node last joined the network.
- `wallet`: the settings of the wallet server.

But for the clock and for random numbers, the library does not reach outside itself. Where a decision
needs the outside world in the middle, it hands out an action and is resumed with what came of it. `app/` runs these loops, and holds the
wallet server.

What is taken on trust is marked `external_body`: the random sampling of the `rand` crate
(`selection::choose_multiple`), of which the contract says what its documentation promises, and the
clock of the standard library (`dht::stats::instant_now` and `dht::stats::nanos_since`), of which
nothing is claimed.
