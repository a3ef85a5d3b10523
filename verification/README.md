# filkoll

Filkoll finds the Arch Linux package that owns a command, with fuzzy
matching, fast enough to serve as a shell's command-not-found handler.

The library in `src/` is verified with Verus:

- `interner`: the compact string arena of the cache files and its builder.
- `types`: the cache file header and root object.
- `lookup`: exact and fuzzy search of the cache, and the selection of results.
- `arch`: reading a package's `desc` file and pacman.conf.
- `update`: the PATH filters and the scan of a files database into an index;
  `update::archive` decompresses and unpacks the database and folds its
  entries into the scan.

`app/` is the command-line program around it: argument parsing, reading
pacman's databases and the cache files, serialisation, and output.
