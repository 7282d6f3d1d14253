# pingmu

Pings many IPv4/IPv6 addresses at once — CIDR blocks, dotted ranges such
as `10.1.3.1-10.1.3.240` or `192.168.1.1-2`, single addresses — and
summarises loss and delay per address and for the whole run.

## Layout

- `src/` — the library, verified with Verus:
  - `text`, `ipv4`, `targets`: reading target texts (ranges, blocks,
    addresses) into address lists;
  - `packet`: ICMP echo request encoding and echo reply reading;
  - `ping`, `pinger`: the target table and the decisions of each round
    (order, what is sent, how replies match, when a round ends, which
    targets stayed silent);
  - `fixed`, `save`: delay texts and the per-address and run totals;
  - `cli`: log level patterns, output file names, the positional command
    line and the result counter.
- `app/` — the `pingmu` command: argument parsing, raw sockets, threads,
  Ctrl-C, CSV output and the summary table.
- `tests/` — tests of the library.

`sudo pingmu -c 4 -o out.csv 192.168.1.0/24 10.1.3.1-240`
