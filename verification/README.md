# xray_rs

A Verus-verified library for two parts of a proxy toolkit:

- `salamander`: Salamander packet obfuscation. A packet is an 8-byte salt
  followed by the payload XOR-ed with the BLAKE2b-256 digest of the
  pre-shared key and the salt. Deobfuscation is proved to invert
  obfuscation for every salt.
- subscription handling: `extra` (the `extra=` parameters of share links,
  parsed by `lexer` and `xlex`, built as `json` values and written back
  percent-encoded), `lines` (re-splitting of links by schema), `norm`
  (a whole subscription text) and `load` (base64 decoding, the short
  SHA-256 name of a download, and the set of downloads kept by name).

`app/` holds the network side (HTTP downloads with `reqwest` and `tokio`),
which calls the verified functions on the bytes it fetched.
Tests are under `tests/`.
