# crust

Small systems building blocks with machine-checked contracts.

- `src/cursor.rs` — the `Cursor` trait (a double-ended cursor over a finite
  sequence), cursors over vectors, integer ranges and mapped cursors.
- `src/flatten.rs` — `Flatten`, which walks every inner value of an outer
  cursor in order, from either end, reading the outer cursor only as far as a
  step needs; `flatten` and `IteratorExt::our_flatten`.
- `src/str_split.rs`, `src/char_search.rs` — `StrSplit`, splitting a string at
  each occurrence of a `&str` or `char` delimiter, at the UTF-8 byte level, and
  `until_char`; the split/join and piece-count laws, stated of a whole run
  of `next` (`collect_vec`), and the character-level meaning of a character
  search.
- `src/channel.rs` — the state a channel's senders and receiver share and the
  receiver's buffer, with the first-in-first-out law.
- `src/mutex.rs`, `src/rc.rs` — a lock and a reference-counted pointer.
- `src/avec.rs`, `src/error.rs`, `src/fns.rs` — vector builders, an error type,
  function-item helpers.

`app/` holds the parts that need threads, blocking, I/O, serde and async:
the thread-shared `Sender`/`Receiver`/`channel`, demos, and the error type's
serde impls.
