# summdb

An embedded index of OCI container registry metadata (manifests, tags,
layers), with a REST API and a bulk importer that walks a registry over the
OCI Distribution protocol.

The library under `src/` is verified with Verus:

- `keys`: the binary key schema (`T`, `M`, `B`, `L`, `RI`, `IR` families),
  with laws on layout, injectivity, disjointness and sort order.
- `types`, `codec`: the stored records, the digest type and its text form,
  and their postcard encodings.
- `engine`: the key-value store abstraction, specified over a map.
- `interner`: repository names interned to dense `u32` ids, persisted before
  they are handed out.
- `ops`: tag reconciliation (`set_tag`) and the layer back-reference index.
- `api`, `views`, `layers`: the operations behind the REST endpoints,
  including the per-repository layer report.
- `registry`, `link`, `import`: the decisions of the registry client and of
  an import run (challenge parsing, pagination, tag selection, storing a
  fetched manifest).

`app/` holds what runs around the library: the redb storage engine, the axum
server, the reqwest registry client, the import driver and the JSON forms of
the library's types.
