# internet_access_control

A router service that allows or blocks internet access per device (by MAC
address or alias) through an nftables set, while leaving the local network
reachable.

- `src/` is the verified library: MAC address validation and alias resolution
  (`config`), the nftables table, rules and denied-device record (`nftables`),
  routing, query parsing, percent-decoding and the replies of the HTTP interface
  (`api`), the request and response values (`types`), and character helpers
  (`text`). It performs no I/O: it says which `nft` invocation runs next and
  takes its outcome back.
- `app/` is the program around it: command line, reading the YAML alias file,
  running `nft`, writing the ECM teardown trigger, and the HTTP server.
- `tests/` exercises the library on concrete values.

The alias table and the record of denied addresses are vectors kept free of
duplicates (a type invariant each), not `HashMap<String, String>` and
`HashSet<String>`: vstd specifies those std collections only for key types with
its key model (integers, `bool`, boxes of them), which `String` lacks, so
nothing about their contents could be proved. The vectors give the same lookups
and are viewed as a `Map` and a `Set`.
