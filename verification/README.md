# speedtest_rs

A network link auditor: it picks the speed-test server with the least
latency, measures ping, jitter, download and upload rates, and appends each
run to a JSON or CSV audit file.

- `src/` is the library, verified with Verus: text formats (`text`), latency
  statistics and ping addresses (`ping`), server list and server choice
  (`server`), upload payload, transfer addresses, worker count and rate
  figures (`speedtest`), timestamps and audit records (`audit`), options
  (`cli`).
- `app/` is the program around it: command line, HTTP requests, threads,
  progress bar, terminal screen and file access.
- `tests/` exercises the library on concrete values.
