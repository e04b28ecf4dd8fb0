# arch-toolkit

A toolkit for Arch Linux package management: AUR requests (search, package details,
comments, PKGBUILDs), official package details and mirror health, dependency parsing and
resolution, reverse-dependency analysis, version comparison, caching and retry pacing.

## Layout

- `src/` is the library, written in Verus, with its contracts proved: parsing of `pacman`
  output, PKGBUILD and `.SRCINFO` files, version comparison, dependency resolution and the
  dependency graph, reverse-dependency analysis, validation of names and queries, request
  addresses, reading of AUR and Arch Packages JSON answers (through `serde_json`) and of AUR
  comment pages (through `scraper`), comment assembly and ordering, cache keys and the
  in-memory LRU cache, retry and pacing delays. Calls into outside crates sit behind small
  trusted wrappers whose contracts name what the crate returns. `src/properties.rs` states
  the properties that span several calls.
- `app/` is the I/O around it: HTTP requests with `reqwest`, commands (`pacman`, `paru`,
  `yay`), the disk cache, the clock, the local time zone and the environment, and the
  floating-point popularity of AUR rows. It hands the library plain values and acts on what
  it answers.
- `tests/` exercises the library on concrete values.
