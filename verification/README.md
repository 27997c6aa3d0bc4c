# gitcode-jupyter-tool

Tools that keep a GitCode notebook available and run commands on it: the
`jud` daemon and the `jush`, `jucp` and `juctl` clients.

The rules these tools follow are a library verified with Verus; the programs
around it do the I/O.

- `src/`: the verified library.
  - `text`, `shell`: character and byte strings; quoting and the scripts sent
    to a remote shell.
  - `config`: environment lookups, account names and files, port pools.
  - `cookies`, `http`: the GitCode login's cookies and the requests made
    with them.
  - `notebook`, `client`, `browser`: notebook addresses and replies, daemon
    and DevTools addresses, the browser's command line.
  - `api`, `jobs`, `session`, `terminal`, `transfer`, `cli`: the daemon's
    requests, job queue and table, sessions and heavy marks, terminal
    output, file copies, and the clients' decisions.
  - `foreign`: the calls into `url`, `urlencoding`, `regex`, `httpdate`,
    `rand`, `base64` and the clock, each with the contract it is trusted
    to meet.
- `tests/`: tests of the library on concrete values.
- `app/`: the daemon and the clients: processes, files, sockets, HTTP,
  websockets and terminals.
