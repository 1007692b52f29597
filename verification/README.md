# ikigai-log

The line grammar, the hash chain, the RDF vocabulary and the graph of the ikigai log, written
in Rust and verified with Verus.

A log entry is one line:

```
2026-08-23T09:14:22.031Z log:Resolution urn:calendar:today worker=ikigai-sched-2 span=7 dur=12
```

A segment is a header and then entries and seals. Each entry advances a hash chain, each
`#seal` line states it, and `@prev` in a header carries it across rotations and restarts.

## Layout

* `src/` is the library. Every item in it is verified.
  * `time`, `token`, `entry`, `line`, `header`: the grammar, with the laws that what is
    written reads back (`header_law`, `line_law`).
  * `vocabulary`, `lineage`: the term table, which is data (`vocabulary_source`), and the
    level dial (`vocabulary_law`, `lineage_law`).
  * `chain`, `verify`, `finding`: the hash chain and its verification, with what a chain
    commits to and what a verified one shows (`chain_law`, `verify_law`).
  * `writer`, `rotation`, `handle`: segments being written, with the laws that what the
    writer puts down verifies and is flushed (`writer_law`).
  * `triple`, `window`, `graph`: a segment as a graph, which states each fact once
    (`graph_law`), what reading its Turtle gives back (`turtle_law`), and what a window
    leaves of it (`window_law`).
  * `config`, `layer`, `load`: the layered configuration.
  * `segments`, `request`, `tracer`: what the endpoints answer and what the kernel's events
    become (`segments_law`).
* `app/` is the host side: files, locks, the process, and the endpoints of the kernel.
* `tests/` runs the library with the crates it calls.

## What is trusted

The library calls `sha2` for the digest, `oxrdfio` and `oxrdf` to read and write Turtle,
`ikigai-sign` and `ikigai-core` for names that both sides must spell alike and for the places
of the config files, and std for a string's debug form. Each call stands in one small function
with a contract of its own, which says what is claimed of it.
