# rnpm

A Node package manager. The decisions it makes are in the library under
`src/`, written in Verus and proved against their contracts; the binary under
`app/` does the terminal, file and network work and calls into the library.

- `strmap` – an insertion-ordered string-keyed map (the model of every map).
- `text` – `lines`, `trim`, `split`, `split_whitespace`, `find`, `replace`, … on characters.
- `value` – JSON and YAML documents as plain data, with `get` / `as_str` / `as_mapping`.
- `registry` – package metadata and the choice of a version for a range or tag (uses `semver`).
- `fetch` – the metadata cache and the retry policy (three retries, exponential backoff).
- `resolver` – the resolution queue: which package to fetch next and what a fetched package queues.
- `lockfile`, `lockfile_import` – rnpm's lock file; readers for npm, Yarn, pnpm and Bun lock files.
- `manifest` – `package.json`: what to resolve, scripts, adding and removing dependencies.
- `install` – which packages to download, unpacked-tarball layout, command links.
- `config`, `commands` – configuration and the command-line decisions.
