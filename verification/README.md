# grpc

A gRPC client library written in Verus: the logic of the client is verified
against contracts, and the runtime glue (attribute maps over `dyn Any`,
request contexts, configuration parsed from JSON, the drivers that run the
policies, the subchannels and the DNS resolver against a channel) stands in
`app/`.

Layout of `src/`:

- `attributes/`: a persistent AVL tree and a persistent linked list,
  the maps behind attribute sets.
- `client/load_balancing/`: the pick-first policy as a state machine from
  events to actions (`pick_first`) and the properties every step keeps
  (`pick_first_properties`); round robin, graceful switch, the child
  manager's matching of children, the lazy wrapper.
- `client/name_resolution/`: channel targets (parsed with the `url` crate),
  the DNS resolver's reading of them, Unix socket targets.
- `client/subchannel`: the phases of a subchannel's connection.
- `client/stream_util`: validation of response streams.
- `client/channel`: channel options and authority parsing.
- `codec/`: gzip, deflate and zstd compression (`flate2`, `zstd`), and the
  bytes codecs.
- `metadata`, `core_types`, `status`: headers, trailers and outcomes of calls.
- `registry`: name-indexed registries.

