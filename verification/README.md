# evefrontier_lib

Route planning for EVE Frontier star maps, with its core verified by Verus.

- `src/` is the verified library: route searches (breadth-first, Dijkstra,
  A*) over an integer-cost routing graph and the planning around them, the
  gate adjacency of a star map, database layout detection and its query
  text, the `fmap` route token format, the spatial index file format,
  release-marker and dataset-cache decisions, download retry policy and the
  ship data column mapping. Every public function carries a contract, and
  the laws that relate functions are proof functions.
- `tests/` exercises the library on concrete values.
- `app/` is the code around the library: SQLite loading, GitHub downloads
  and the file cache, the k-d tree spatial index, the floating-point ship
  fuel, heat and temperature models, and text rendering of routes.
