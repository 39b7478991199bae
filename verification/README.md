# addonforge

An addon manager for World of Warcraft: Forever, as a verified library and a
command line around it.

- `src/` is the library, written and proved with Verus. It holds everything
  the manager decides: reading TOC files and grouping addon folders into
  packages, picking update sources and release files on GitHub, Wago,
  WoWInterface and TukUI, the catalogue, the installed-package records, which
  folders of a zip to install and which names to refuse, README excerpts and
  preview pictures, the log's time stamps, the addon list file, self-update
  checks, the command line's grammar, which TOC file describes a folder, and
  the order of the moves that install a release and undo them on failure.
  Each public function states its result in its contract. Decoding,
  scaling and encoding pictures are the `image` crate's work and depend on
  their inputs alone: the contracts name what each of those calls makes
  and state, beside the name, what its source shows (sizes, file headers,
  when it succeeds). The clock's reading is the one thing nothing can be
  said of: `now_secs` reads it and states nothing, and the fallback it
  applies to the reading is the verified `secs_or_zero`. The
  `law_*` proof functions state what holds across
  calls (reading back what was written, the list file's round trip, every
  folder in exactly one package, only allowed image hosts, ...).
- `app/` is the program: files, the network, threads and JSON.
- `tests/` runs the library on concrete inputs.
