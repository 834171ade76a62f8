# es_license_consumption

Computes Elasticsearch license consumption from the data of one or more
clusters and builds the YAML report of it. The rules are proved in Verus;
two calls are trusted rather than proved: URL parsing through the `url`
crate (`config::parse_url_port`, whose result is named `url_port_split`) and
`std::path::Path::extension` (`cli::lacks_extension`).

- `src/` is the verified library:
  - `calculation`: Enterprise ERUs, Platinum quantity and reason, fallback
    metrics, from node roles and node memory in bytes (exact integer
    arithmetic: ERUs rounded to two decimals are hundredths).
  - `config`: checking a cluster entry (host and port sanitizing, port
    conflicts, authentication priority, CA file), ordering by alias.
  - `client`: the endpoints asked of a cluster, how its answers become
    `ClusterData`, failures, TLS mode, result order.
  - `report`: grouping the clusters by license uid, totals, errors.
  - `merge`: update candidates and the merge of a fresh report into an
    existing one.
  - `cli`: default paths, file-name extension, the plan for an existing
    output file, and the answers read at the prompts.
- `app/` is the command-line program: argument parsing, HTTP, files, YAML,
  terminal prompts.
- `tests/` exercises the library.
