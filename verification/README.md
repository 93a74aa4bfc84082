# nix-freedesktop-icons (verified core)

Lookup of freedesktop icon themes, with its logic verified by Verus.

- `src/bytes.rs`: ASCII trimming, byte comparison, first-byte search
  (through `memchr`) and signed decimal parsing (through `btoi`).
- `src/theme/parse.rs`: lines, headers and properties of `index.theme`
  files; the section events, the directories a file declares, the
  `[Icon Theme]` table and the parent themes (`Inherits`).
- `src/theme/directories.rs`: directory types, exact size match and size
  distance.
- `src/theme/mod.rs`: themes, the directories that serve a size, the order
  in which icon files are probed, and the collection of installed themes.
- `src/probe.rs`: the search for the first existing file among candidates;
  the caller answers, for each candidate, whether it exists.
- `src/paths.rs`: the `std::path` operations used to form paths.
- `src/cache.rs`: the lookup cache.
- `app/`: file-system access (reading index files, listing theme
  directories, probing files) and the process-wide theme list and cache.
