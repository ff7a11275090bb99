# fejdit

Querying and editing Valheim (Fejd) world saves: the `.fwl` + `.db` pair of
builds up to 0.221 and the world directory of game 1.0.

The library in `src/` is written in Verus. Each function states in its
contract what it returns or changes, and Verus proves it:

- `hash`: the string hashes the game keys objects by.
- `wire`, `seqcodec`, `primitives`, `zdo`: the binary layout of save files
  and of a ZDO (networked object), with read-back laws.
- `world_db`, `fwl`, `world`, `db2`, `chunk_files`, `chunked`, `chunked_db`:
  the single-file world, the 1.0 chunked directory, and the conversion from
  the first to the second.
- `schema`, `names`, `clean`: which keys a prefab may carry, and the removal
  of corrupt ones.
- `inventory`, `container`, `migrate`, `repair`: item records, and the repair
  of armor stands that a 1.0 conversion emptied.
- `survey`, `search`: what `world info`, `world keys` and `world find` report.
- `paths`: file names, save numbers, backup names, and where a world named
  on the command line is.
- `fch`: the envelope of a `.fch` character file (payload and SHA-512) and
  the names of the player statistics.
- `compress`: gzip sections, through flate2.

Calls into outside crates (flate2, base64, globset, sha2) sit behind small trusted
wrappers whose contracts say what the crate's source or documentation shows.

`app/` is the command-line program around the library: argument parsing,
file I/O, the data tables, JSON output and the float arithmetic of positions.
`tests/` runs the library on concrete inputs.
