# nixbench

Benchmarks how long several nix (and lix) versions take to evaluate nixpkgs.

- `src/` is the verified library: choosing and ordering the nix installations
  (`nix`), reading their store-path list (`json`), splitting attribute paths
  into chunks, summarizing run times (`stats`), and describing the host from
  `/proc/cpuinfo`, sysfs and udev properties (`cpu`, `memory`, `props`), on top
  of character-level text handling (`text`).
- `app/` is the program: command line, file and process I/O, the interactive
  selection, progress display, and the JSON report.
- `tests/` runs the library on concrete inputs.
