# updater

Keeps a set of Chocolatey packages up to date. For each package it reads the
version in the package's nuspec file, asks the upstream project for its newest
release, downloads and checks the new installers (SHA-256 digests, published
checksums, PGP signatures), then rewrites the install script and the nuspec
file and commits and pushes the result.

## Layout

- `src/` is the library, verified with Verus. Each module states its
  behaviour as `requires`/`ensures` contracts over spec functions:
  - `version`: package versions, their text form and their order;
  - `download`: checksums, their hex form, and the check of a download
    against an expected checksum and a signature;
  - `nuspec`: finding and replacing the version and description of a
    nuspec file;
  - `script`: rewriting the `$url32`, `$url64`, `$checksum32` and
    `$checksum64` assignments of an install script;
  - `github`: release data and the matching of release assets to the
    downloads a package needs;
  - `packages`: the table of packages and how each one decides whether an
    upstream release is an update;
  - `command`: the arguments handed to `git` and `choco`;
  - `report`: the summary written at the end of a run;
  - `bytes`, `error`: byte helpers and the error type.
- `app/` is the program: HTTP requests, files, threads and child processes,
  and the JSON decoding of release data. It hands plain values to the
  library and acts on what comes back.
- `tests/` runs the library on concrete inputs.
