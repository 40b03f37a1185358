# linkmm

A verified library for managing mods of Bethesda games on Linux, written in
[Verus](https://github.com/verus-lang/verus): what is decided and computed is
proved to meet its contract; what touches the machine stands around it.

## The library, `src/`

- `games`, `config`, `mods`: games, settings, mods and the database of mods.
- `plugins`: the load order of plugins and `plugins.txt`.
- `deployment`: the links that put mods into a game and take them out.
- `generated_outputs`, `runtime_scan`: what tools generate, and what is found
  in the data directory of a game.
- `installer`: archives of mods.  `heuristics` and `scored` find the data root,
  `xml`, `decode`, `parser` and `fomod` read FOMOD configurations, `install`,
  `extract` and `archive` plan what is extracted and where it goes,
  `lowercasing` says what becomes of a directory whose names are turned into
  lowercase, and `registration` ends with a registered mod.
- `archive`: archives as trees of paths.
- `steam`, `vdf`, `launch`: where Steam, its games and Proton are, and the
  commands that launch games and tools.
- `runtime`: sessions of games and tools.
- `nexus`, `nxm`, `download`, `download_state`: Nexus Mods and downloads.
- `logger`: the messages that are kept.
- `text`, `number`, `paths`, `table`: strings, numbers, paths and tables.

Strings are modelled as sequences of characters, and each data type has a view
of mathematical values.  Calls into other crates, and into parts of the standard
library that Verus does not know, stand behind small functions whose doc
comments say what is taken for granted about them.

Each module ends with the laws that hold of it as a whole, as public proof
functions: that nothing is installed outside the directory that is installed
into, that taking links away undoes making them, that `plugins.txt`, NXM links
and recorded numbers are read back as they were written, and others.

## Around it, `app/`

Files, archives, the network, processes and the logger: `app/` hands the library
plain values and does what it answers.

## Tests, `tests/`

Ordinary Rust tests of the library, with real archives where they matter.
