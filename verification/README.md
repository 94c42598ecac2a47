# yaskkserv2

An SKK server and its dictionary maker. SKK jisyo files (EUC-JIS-2004 or UTF-8) are merged
into one dictionary with an index of their entries. The server looks midashi up in that
dictionary, and where the dictionary has no candidates it falls back to Google Japanese Input
(optionally Google Suggest) through a cache.

The library in `src/` is verified with Verus. The protocol, the dictionary format, the EUC
conversion tables, the jisyo reader and writer, the config and command-line settings, the
Google answer handling and the Google cache all carry contracts that Verus proves. Their main
laws are proved as public proof functions:

- `dictionary_lookup::lemma_lookup_after_create`: looking up a midashi of the jisyo entries in
  a dictionary made of them finds its candidates.
- `dictionary_roundtrip::lemma_jisyo_after_create`: writing a jisyo back from a dictionary
  gives back the entries it was made of.
- `jisyo_line_ends::lemma_line_ends`: LF, CRLF and CR line ends read alike.

The cache's own laws (read after write, file round trip) are stated in the contracts of
`GoogleCache::write_candidates` and `GoogleCache::write_bytes`.

Calls into other crates (rustc-hash, twoway, sha1, json, url, bincode, and std's UTF-8 check)
go through the small trusted wrappers in `src/outside.rs`, each with the contract its source
supports.

`app/` holds what Verus does not check: the two programs' `main`, argument parsing with clap,
sockets and the mio event loop, HTTP requests, files, logging and daemonizing. It calls the
library for every decision.

`tests/` holds the tests, run against the compiled library.

The dictionary maker reads the EUC-JIS-2004 mapping (`euc-jis-2004-std.txt`) from
`/usr/share/yaskkserv2/` to build its convert table.
