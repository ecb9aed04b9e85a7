# sqlx_squash

Verified text processing behind squashed migrations:

- `squash` reads and writes the `-- SQUASH EPOCH <hex>,<hex>,...` header that
  records the checksums of the migrations a baseline replaces;
- `hex` encodes and decodes the checksums;
- `roundtrip` proves that a header read back gives the checksums written;
- `schema_dump` shapes schema dumps (dropping every statement that names
  `_sqlx_migrations`) and renders SQLite dumps;
- `dump_args` chooses the dump tool for a backend and builds its command line;
- `sql_scan` follows quotes and `BEGIN`/`CASE` ... `END` blocks so that the
  filter finds where a statement ends;
- `text` holds the character-level helpers (trimming, line search, UTF-8).

`app/` runs the dump tools and the database queries around the library.
