# error-forest-hub

A distributed error-correction hub network modelled on a mycorrhizal mesh:
hub and leaf nodes joined by hyphae links, with routing, error-correcting
relay through hubs, resilience analysis and multi-path ("spore") broadcast.
The library in `src/` is written in Verus and every function in it is
verified against its contract.

## Units

All quantities are fixed-point integers:

- error rates, reliabilities and correction factors: units of 10^-18
  (`UNIT`, `1_000_000_000_000_000_000`, is certainty), so that products of
  rates given to six or nine decimals are computed exactly;
- latencies: microseconds;
- positions and distances: millionths of a unit.

A product of rates is rounded down to a whole unit after each factor, so a
route's reliability is exact unless it falls below 10^-18 at some step, and
walks whose reliabilities differ by less than that may rank equal.  The
most-reliable search crosses every link of reliability above zero, and
finds a route exactly when such links lead to the target, however small its
reliability.  Rates are probabilities: a value above `UNIT` is read as certainty.

## Layout

- `src/ident.rs` – identifier comparison and the undirected link keys.
- `src/walk.rs` – walks over links, reachability, breadth-first exploration.
- `src/flow.rs` – unit flows, residual walks and cuts: edge connectivity.
- `src/mesh.rs` – nodes, meshes, neighbours, connectivity, components.
- `src/hyphae_link.rs` – links and their reliability.
- `src/mesh_routing.rs` – shortest, most-reliable and widest paths
  (Dijkstra), and depth-first enumeration of simple paths.
- `src/hub_relay.rs` – error compounding along links and correction at hubs.
- `src/resilience.rs` – k-resilience, bridges, bottleneck node, failures.
- `src/spore_broadcast.rs` – multi-path broadcast planning and delivery.
- `app/lib.rs` – serde forms of the types, whose JSON keeps fractional
  rates, latencies in milliseconds and positions in units; Shannon capacity
  (floating point); unit conversions.
- `tests/` – behaviour on concrete meshes.
