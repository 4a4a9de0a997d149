# sparkling_router

A routing engine for OpenStreetMap data whose core is verified with Verus.

`src/` is the verified library:

- `osmxml` reads OSM XML into nodes, ways and relations;
- `indexer` filters a map graph by a profile and indexes its turn restrictions;
- `builder` compiles a map graph into a compressed routing graph and rewires
  turn restrictions through clones of their via nodes; its proofs settle
  each restriction's final turn as it is applied, and `build` states the
  shape of the finished graph (`edges`, `interner`, `restriction`,
  `turns` hold its parts, and `verdict` says on the strings themselves which
  ways a profile lets through);
- `astar` routes on that graph through waypoints;
- `routegraph` builds the adjacency-list graph of a map graph, `routing`
  searches it with A* led by distances and bearings from its caller,
  `shortest` finds least-cost distances on it, and `landmarks` chooses
  landmarks and caches the distances between them;
- `pqueue` is the binary heap behind the searches, with the entry types and
  orders of `heap` and `costheap`;
- `queue` schedules route requests; `server` holds the decisions of the HTTP
  server (eviction, route outcomes and answers);
- `text`, `types`, `osm`, `graph` and `errors` hold shared types and string
  helpers.

`app/` is the unverified shell: the HTTP server, the C interface over routx
(whose searches run on floating-point coordinates and costs), file and
network access, and the floating-point geometry (distances, bearings, shape
simplification and offsets, spatial search, the estimates and pruning that
guide the searches).

`tests/` runs the library on concrete inputs.
