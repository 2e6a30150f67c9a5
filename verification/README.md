# aster

A replicated SQL database with snapshot isolation, as a library whose behaviour
is stated in contracts and proved by Verus.

- `types`, `codec`, `order`, `ordmap`, `wire`, `text`, `sorting`, `digest`, `checks`: values,
  schemas, their encodings, and the ordered collections underneath.
- `engine`: multi-version storage, transactions, expressions, queries, snapshots.
- `raft`: a deterministic consensus core, and a simulator of clusters.
- `db`: statements, plans, requests, the database and the tree that it is kept in.
- `runtime`: what a node stores, and what it decides between its log, its
  database, its peers and its clients.
- `protocol`, `server`, `handler`, `client`, `input`: frames, and the two ends of a
  connection.

The proofs of what holds across functions stand in `engine::laws`, `raft::laws`,
`raft::elections`, `db::laws` and beside the functions that they speak of.
`engine::indexes` proves that index lookups are filtered scans, `engine::scans` that
scans list what point reads find, `engine::upkeep` what vacuums keep and what the
counters count, and `engine::canonical` that the records of a snapshot are canonical.
`stream` speaks of frames that come in pieces, and `raft::runs` says what a simulated
cluster can do in many steps. What holds of a whole cluster, whatever its network
does, stands in `raft::safety` (a term has one leader), `raft::agreement` (the logs of
all nodes match) and `raft::commits` (all nodes commit the same, and a read that a
quorum confirms misses nothing), which rest on what `raft::steps` and `raft::replies`
say of a single step.

Outside services are closures: the SQL front end binds and evaluates statements,
the storage keeps states, and their contracts say what is done with whatever they
answer. `app/` holds the programs around the library: files, sockets, timers and
JSON.
