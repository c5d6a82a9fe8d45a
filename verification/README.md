# cascette

Verified parsers for Blizzard CASC metadata, checked with Verus.

- `src/header.rs`, `src/manifest.rs`: the TVFS file manifest (header, path table
  of name fragments and folder nodes, VFS span records, container file table).
  `TvfsManifest::parse` is proved equal to the format's specification
  `spec_parse_manifest`, including which error is reported. A container file
  table record holds the truncated encoding key, a 4-byte encoded size, the
  encoding-spec index (flag 0x02) and, with flag 0x01, a 16-byte content key;
  an entry whose path is not a WoW generic name takes its content key from there.
- `src/generic.rs`, `src/keys.rs`: WoW generic path names (file data ID, flags and
  content key in hexadecimal) and 16-byte content/encoding keys.
- `src/bytes.rs`, `src/text.rs`: bounds-checked big-endian reads and UTF-8 checks.
- `src/product_db.rs`: selection of one installed product's active version and
  keys from a decoded `.product.db`.
- `app/`: reading `.product.db` from disk and decoding it with prost.
