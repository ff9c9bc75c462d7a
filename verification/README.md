# vmstat_valkey

Two small daemons around `vmstat` and a Valkey server, with their logic verified by Verus.

- `vmstat-60-to-valkey` runs `vmstat -y -n -t 1` and keeps the last sixty rows of the host in a list
  on the server, one element for each second of the minute.
- `vmstat-free-score` reads that list once a second, rates how free the host is and publishes the
  rating. Near a maintenance window it publishes zero.

## Layout

- `src/` is the library: rows and their JSON documents (`vmstat`, `json`), the protocol of the
  server (`resp`), connections and commands (`client`), the list of sixty rows (`rolling`, `store`),
  ceilings and what a rating rests on (`tuning`, `score`, `double`), the maintenance window
  (`window`), the host (`host`), one round of the scorer (`cycle`), and text (`text`, `encoding`).
- `app/` is the two programs: processes, sockets, clocks and floating point.
- `tests/` runs the library.

The proof functions whose names start with `law_` state what holds of the library as a whole.
