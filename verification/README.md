# shannon

The sentinel-token layer of a local redaction proxy, with machine-checked proofs of its contracts.

Secrets and PII are swapped for reversible tokens `⟦TYPE·id⟧` (for example
`⟦API_KEY·0⟧`, `⟦SSN·4f2a⟧`) before a request leaves the machine, and swapped
back when the response streams in. This crate holds what both directions rely
on:

- `Sentinel::render`: the surface form of a token;
- `find_complete`: every complete token in a string, left to right;
- `safe_flush_boundary`: how much of a chunk of a streamed response can be
  released without cutting a token that later bytes could still complete, or
  a UTF-8 character.

Layout:

- `src/sentinel/grammar.rs`: the grammar as a model over characters and over
  UTF-8 bytes, with the lemmas that connect the two (a token is fixed by its
  bytes; no token starts inside another);
- `src/sentinel/scan.rs`: the byte-level classifier the two scanners share;
- `src/sentinel/utf8_prefix.rs`: the longest valid UTF-8 prefix of a buffer;
- `src/sentinel/mod.rs`: the public types and functions;
- `src/sentinel/laws.rs`: what holds of the functions together (rendering
  then finding gives the token back, a scan is unique, tokens never overlap,
  matches fall on character boundaries, the flush boundary never releases
  part of a token that completes later, and cutting a text where nothing is
  held changes nothing that is found);
- `tests/`: the test suite; `app/`: a placeholder entry point.
