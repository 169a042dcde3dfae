# glidefs

The logic of a block device that keeps recent writes on a local disk and everything
else in object storage. The library in `src/` is written in Verus: each function
states what it does in its contract, and Verus proves it.

- `write_cache`: the write cache. Block states, writes and their log entries, reads,
  flushing to packs, rotation of the data file, promotion, compaction, crash
  recovery and the metadata file.
- `circuit_breaker`: a circuit breaker in one machine word.
- `write_trace`: the format of write traces.
- `gc`: which packs and layers in object storage are garbage.
- `cli`: what the commands compute and decide.
- `text`, `time`, `checksum`: what these share.

The library moves no bytes. It decides, and says what to read, write or upload next;
`app/` does that, on files, sockets and an object store. Functions whose names start
with `law_` state what holds of several functions together. `write_cache::volume` shows
that a read gives back what was written last, after any history of writes, flushes,
restarts and compactions; `write_cache::crash` shows what survives a crash, and
`write_cache::fetch` that blocks fetched together are those fetched one by one.
