# fleet_suggest

Fleet suggestions for a space idle game, with the logic verified by Verus.

`src/` is the verified library:

- `api` – the hazard orderings tried for a suggestion request and what each reply means;
- `parser`, `types`, `db`, `keyed` – fleet suggestion lines, the game tables built from the
  database rows, and the keyed tables they are held in;
- `ui`, `sprites` – what the page shows: HTML of ship and mod pictures, grid cells, status
  lines, key handling, number grouping;
- `fleet_cli`, `fleet_data`, `decryptor` – the console client, the CSV export and the save
  decryptor;
- `boost_map`, `tiles`, `search` – the base layout tools: boards, adjacency, combinations and
  the size of a search;
- `text` – strings as character sequences: trimming, splitting, joining, integers.

`app/` holds the page (Dioxus), the SQLite access, the network requests, file I/O and the
floating-point scoring, all calling into the library. `tests/` exercises the library.
