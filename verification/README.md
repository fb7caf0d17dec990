# portspy

Which processes listen on which TCP ports. The library in `src/` holds the
parsing, the join, the formats and the decisions of each step, with
contracts proved by Verus; the program in `app/` reads `/proc` and the
sockets, asks the C library for user names, and moves text across the wasm
boundary.

- `text`: characters, decimal numbers, splitting, lines, words, trimming.
- `record`: the `Record` row and its kill command.
- `wire`: the tab-separated format; decoding what was encoded gives the
  records back, fields cleaned of separators and cut to at most 512 bytes.
- `view`: stable sorting by column and case-insensitive filtering.
- `net_tcp`, `pid_map`, `agent`: parsing the kernel's socket tables, the
  bounded walk over `/proc`, owners of socket inodes, and the join into
  records.
- `table`, `cli`: the terminal table and the command line.
- `http`, `dashboard`: routing and headers; the browser's decode, filter,
  sort, encode pipeline.
