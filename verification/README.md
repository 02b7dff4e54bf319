# sf_winmd_gen

A verified library for checking generated Service Fabric Windows metadata
(`.winmd`) files, and the command line tool around it.

## Layout

- `src/` — the library, verified with Verus.
  - `validation` — snapshots of a metadata file compared with a baseline:
    the strict comparison (every structural difference, and the agility
    marker rule for `IFabric` interfaces) and the migration comparison
    (`IFabric` interfaces, GUIDs and method names only).
  - `snapshot` — the snapshot type: type records by qualified name, kept in
    name order.
  - `records` — the records compared for each type, field, method and
    parameter, with their models and equality tests.
  - `canonical` — metadata rows (type definitions, signatures, attributes)
    and their canonical text; the construction of a snapshot from rows.
  - `names`, `order`, `text` — type names, lexicographic order and sorting,
    number and `Debug` text.
  - `agility`, `rewrite` — the rewrites of scraped RDL text: scoped
    enumerations, normalized aliases, and agility attributes on `IFabric`
    interfaces.
  - `pipeline` — the generators' own decisions: the clang system include
    arguments from the `INCLUDE` list, and the routes that give each scraped
    item the namespace of the one partition that owns it.
  - `sdk` — the choice of the newest Windows SDK directory, by version
    number.
  - `laws` — properties of the comparisons as a whole.
- `app/` — the command line tool: reading winmd files with
  `windows-metadata`, and the generator pipelines that drive MIDL,
  `windows-clang` and `windows-rdl`.
- `tests/` — tests of the library.

## Run

```
validate_winmd [--migration-baseline] <baseline.winmd> <candidate.winmd>
validate_winmd generate              # flat scrape and namespace remap
validate_winmd generate-partitions   # one namespace per scraped header
```

The generators run from the repository root, inside a Visual Studio
developer environment.
