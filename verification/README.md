# skillleaf

A local router for agent skills and commands: it indexes Markdown skill
packages and command files into a hash-sealed catalogue, selects the few
entries a task needs together with their dependency closure, hydrates their
bodies after checking their digests, keeps usage counts, separates libraries
into domains, migrates existing libraries, and shares catalogues as chunked,
content-addressed snapshots.

## Layout

- `src/` is the library, verified with Verus. It holds the decisions of
  indexing of walked roots (`index`, `builder`, `frontmatter`), the catalogue
  digest (`integrity`, `json`, `digest`), routing and resolution (`routing`,
  `resolve`), hydration and the doctor (`hydrate`), trust and policy
  (`security`), domains (`domain`), usage (`usage`), evaluation (`eval`),
  migration (`migrate`) and sharing (`sync`, `snapshot`).
- `app/` is the `skillleaf` command. It walks directories, reads and writes
  files, locks the usage ledger, converts JSON to and from the library's
  types, and hands the library plain values. It also orchestrates the steps
  that touch the disk: falling back to the local catalogue when a remote
  snapshot cannot be pulled, and removing staged or half-written output when
  an apply or a rollback fails.
- `tests/` exercises the library on in-memory listings of source roots.
