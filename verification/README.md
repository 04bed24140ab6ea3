# r_vlr_util

General-purpose utilities — string splitting and comparison, Levenshtein
distance, caches, CRC-32, MULTI_SZ buffers, UTF-16 conversion, application
options, size formatting, retry decisions — and the pure logic behind a set of
Windows adaptors (HRESULTs, registry value layouts, service settings, file
times, access-control snapshots, captured console output).

## Layout

- `src/` — the library, written in Verus. Its functions carry contracts
  over mathematical models (`Seq`, `Map`, spec functions); the one exception
  is `RevertGuard::keep`, whose effect on the borrowed target Verus cannot
  see once the guard is consumed. The laws that
  relate functions (round trips, cache behaviour, name matching) are proved
  as public proof functions beside the code they speak of.
- `tests/` — tests that run the compiled library on concrete values.
- `app/` — ordinary Rust around the library: native Windows calls, files,
  threads and thread-local state (among them the lock that lets threads
  share the regex cache), console redirection, the C ABI, the guard
  that runs a closure on drop, the type-keyed shared registry, and the
  conversions that need floating point.

Calls into the `regex` crate and a few standard-library functions go through
small trusted wrappers whose contracts are stated in their doc comments.
