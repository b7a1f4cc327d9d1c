# ton_client_util

Liteserver configuration and discovery for TON clients, verified with Verus.

- `src/ton_config.rs`: the global network configuration (`TonConfig`) and its
  liteserver entries: the textual identifier of an entry, and narrowing a
  configuration to one liteserver.
- `src/discover/`: discovery of liteservers.
  - `server.rs`: the liteserver record, and the choice of its address among the
    records that a DNS lookup of its host returned.
  - `changes.rs`: the insertions and removals a configuration tick announces, as
    spec functions over sequences.
  - `state.rs`: `DiscoveryState`, the known set kept between ticks, and the tick.
  - `laws.rs`: what the announcements promise to a consumer that follows them.
- `app/`: the runtime around the library: HTTP loading and JSON encoding of the
  configuration, DNS lookups, and the discovery task that sends the changes down a
  channel exposed as a stream of `tower::discover::Change`.
