# sqpack

Reads SqPack archives: an `.index` file maps a folder hash and a file hash to a
data offset, which names a `.dat` file and a place in it; there an entry header
and frame tables describe the blocks of the stored file (plain, model or image),
and each block is stored as is or as a deflate stream.

- `src/` is the verified library (Verus): `index` (lookups, listings and writes
  of the index tables), `index_laws` (what writes keep and change), `data` (reading
  a stored file out of a `.dat` file), `raw_file` (decoding blocks), `archive`
  (index and `.dat` files together), `codec` (little-endian fields), `buffer` and
  `inflate` (the `bytes` and `miniz_oxide` calls the library makes).
- `app/` opens archives on disk with `async-std` and hands their bytes to the library.
- `tests/` holds tests on archives built in memory.
