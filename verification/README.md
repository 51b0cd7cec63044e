# srs_parser

Readers for sing-box rule-set files (`.srs`): the general rule-set format,
GeoIP rule sets (IP ranges) and GeoSite rule sets (a succinct trie of
domains), and the list of rule sets that names their download URLs.

The library in `src/` is written in Verus. Each public function states what it
returns in its `ensures` clause, over spec functions that describe the file
format byte by byte; Verus proves the code against them.

- `src/parser/srs.rs`: rule sets of format versions 1 to 4, the rule items
  (all but the two interface-address items, whose payloads are not read),
  logical rules, IP sets (sorted by first address) and domain matchers.
- `src/parser/geoip.rs`: GeoIP rule sets and address lookup.
- `src/parser/geosite.rs`: GeoSite rule sets, domain lookup, the keys of the
  trie and the lists of exact domains and domain suffixes.
- `src/utils.rs`: the entries `{"name", "url"}` of a rule-set list.
- `src/wire.rs`, `src/bitmap.rs`, `src/order.rs`, `src/text.rs`,
  `src/zlib.rs`: LEB128 and big-endian integers, bit counting for rank and
  select, byte-string order, UTF-8 text, and zlib inflation.

`app/` is the command-line program: it downloads the list and the rule sets
and prints what they hold.
