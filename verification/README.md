# net_tools

The logic of a network-diagnostics panel, verified with Verus: what `ping` and
`traceroute` reported, and what DNS blocklists say of an address.

- `src/` is the library.
  - `text`, `number`: text as characters, and numbers as printed.
  - `value`, `zero`, `share`: the questions about the values of numbers that
    integers answer exactly.
  - `address`: IP literals and host names, and the labels of a reversed address.
  - `card`: the cards of the panel and the phrases on them.
  - `tool`: what the run of a system tool came to.
  - `ping`, `traceroute`: the command of each tool, the reading of its output,
    and its cards.
  - `rbl`: the blocklist zones, which lookup comes next, and the report.
- `app/` runs the processes, makes the DNS lookups and prints floating-point
  numbers.
- `tests/` holds the tests.
