# zawgl

The core of a small graph database, written in Verus.

- `store`: a record file held in memory (`RecordsManager`) and the dynamic
  store built on it, which keeps values of any length as chains of
  129-byte records. `sync` hands out the bytes still to be written, `open`
  reads a store back from its file's bytes.
- `model`: property graphs (nodes, relationships, labels, properties).
- `matcher`: a VF2-style sub-graph matcher. Every match that
  `Matcher::process` hands to its callback is proved to be a sub-graph
  isomorphism; where the target nodes are listed once each (as
  `sub_graph_isomorphism` lists them) no match is handed out twice; unless
  the callback stops the search, every sub-graph isomorphism that the
  comparisons cannot turn down is handed out; and, where each comparison
  gives one answer for each pair, the matches come in the order of the
  search (`search_matches`).
- `repository`: lists of properties stored under keys; a repository
  reopened from what its syncs handed out holds what it held.
- `gremlin`: the Gremlin traversal state that matches the vertex an edge
  leads to.
- `parser`: the token cursor of the Cypher parser and the syntax-tree walk.
- `server`: the framing of openCypher requests (a header, then a BSON
  document) and the database settings; `bson_nesting` walks the BSON
  elements to measure how deep the documents nest before they are decoded.

`app/` holds what touches the outside world: reading the configuration
file, writing stores to their files and reading them back, and the
websocket server.
