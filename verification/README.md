# frinet_db

An index of execution traces, and the queries that read it, written in Verus.

A trace lists, instruction by instruction, the registers written and the memory read and
written. Indexing turns it into one file of R-Trees: memory writes (address x time, with
their bytes), memory reads, and one tree per register (value x time). The queries answer
what a debugger asks: the bytes of a range of memory at a time, the value of a register at
a time, the previous or next time a register held a value or an address was accessed.

## Layout

- `src/` is the verified library.
  - `irange`, `flat`, `rtree`, `query`, `nearest_neighbor`, `matcher`: ranges, the records
    of the file and their encoding, R-Trees, their traversal by query and by nearest time.
  - `memory`, `register`, `snapshot`: the memory and register trees and their queries, and
    the law that a register tree holding the leaves of a register's writes answers them.
  - `db`: loading a file, checking that its trees are well formed, and reading memory bytes
    back.
  - `search`, `search_laws`: searching the memory writes for the byte strings an automaton
    accepts, the law that every result is such a string held in memory, and the law that
    every such string inside one write is found.
  - `index`: indexing. `parser` and `tenet` read traces, `pass` and `disjoint` normalize
    their events, `scout`, `hilbert_partition` and `fill` are the three passes over the
    trace, `layout`, `nodes` and `image` lay out and write the file, and `drive` runs the
    passes.
- `app/` is the command line program: it maps files, shows progress, writes the index, and
  builds the automaton of a search pattern with the regular expression engine.
- `tests/` run the library on concrete traces.
