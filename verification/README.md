## What is proved

Functions state what they return and how they change what they are given, and on which inputs they
fail. What holds across functions is stated as proof functions: in `vault/laws.rs` that a vault and
its file go together and that contents are read back as they were written, whole, streamed or taken
in chunk by chunk; in `vault/io_laws.rs` what a write and the read or the write after it make
together, and that only a quota refuses content; in `vault/write.rs` that known content is not
written again and that a quota is kept; in `vault/commit.rs` that an interrupted commit leaves the
old vault and a finished one opens as it was; in `vault/rewrite_laws.rs` that compaction and a new
password change no content and that the new file opens; in `vault/repair.rs` that a repaired vault
verifies clean; in `vault/rename_laws.rs` that moving back undoes moving; in `vault/snapshots.rs`
that a snapshot outlives other calls and keeps its contents; in `header.rs` which passwords open a vault; in
`mount/laws.rs` what requests on a mounted vault do to each other.

What the ciphers, the digest, the compressor and the chunker compute is not proved. Their results
have names, and the few facts that the library relies on stand at the functions that call them.
Running out of memory is left aside.
