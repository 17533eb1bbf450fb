# raptor

The core of a reverse proxy and API gateway: routing, authentication, rate
limiting, load balancing, health checks, circuit breaking, retries, metrics and
the admin API. Its behaviour is stated in contracts and proved with Verus.

## Layout

- `src/` holds the logic. No function in it reads a socket or a file.
  - `config` is the configuration and its rules; `router` finds the route of a
    path; `auth` checks API keys and tokens; `ratelimit` keeps a token bucket
    for each client.
  - `balancer` chooses among the backends of an upstream, with `circuit` for
    their circuit breakers and `weighted` for smooth weighted round-robin;
    `health` decides about probes.
  - `proxy` holds the steps of a request, and `exchange` takes a request through
    them from its head to the answer.
  - `metrics` and `counts` count what happens and write it for Prometheus;
    `admin` answers the questions of the admin API.
  - `headers`, `json`, `tls` and `clock` stand at the border to other crates;
    `text` and `sorted_map` are used by all others.
- `app/` is the program: listeners, files, time-outs, and the loops that ask the
  library what to do next.
- `tests/` runs the library.

## What is trusted

Calls into other crates stand behind small functions whose contracts are
believed, not proved. Each says so above its declaration. They are about header
maps and URIs (`axum`), JSON texts (`serde_json`), base64, HMAC, PEM files,
UUIDs and the clock.

Where a decision depends on the time, the function that reads the clock has a
sibling, called `..._at`, that takes the time as an argument and whose contract
is exact.
