# balrs

An HTTP load balancer whose balancing logic is verified with Verus.

- `src/` — the verified library: the server model (`server`), the balancing
  rules (`algos`: round robin, weighted round robin, least connections, least
  response time and their weighted forms, static and IP-hash selection), the
  configuration-file reader (`config`, `text`), request dispatch, failure
  reporting, health checks and rate counting (`dispatch`), the shell command
  reader (`command`), the CSV lists of ports and backends (`csv_input`), port
  rotation (`port_rotation`) and the fractional-weight balancer
  (`weighted_load_balancer`). `arith` holds the gcd facts the weighted
  rules rest on.
- `app/` — the program around it: command line, files, sockets, HTTP, timers.
- `tests/` — tests of the library on concrete inputs.
