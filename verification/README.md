# config_king

Declarative management of an Arch system from a Lua configuration file:
the packages of the official repositories, of the AUR (or of other git
repositories with a PKGBUILD) and of Flatpak that should be installed, and
the symlinks that should exist.

## Layout

- `src/` is the verified library. It decides what a run does and proves it:
  - `package_list`, `entries`, `plan`: which installed packages are removed
    (those that no list declares), which declared packages are installed,
    what happens to AUR entries;
  - `official`, `flatpak`, `aur`: the command lines for pacman, flatpak,
    git and makepkg, and the reading of their output (dependency blockers,
    group listings, built package archives);
  - `save`, `symlinks`: the save file that records the symlinks between runs
    (with the proof that what is written reads back), and which saved
    symlinks are stale;
  - `globals`, `utilities`, `string_table`, `text`, `command`: settings from
    `KEY=VALUE` arguments, y/n answers, a string table, character-level
    helpers, and command lines as values.
- `app/` is the program: it evaluates the Lua configuration, runs the
  commands, reads and writes files, and asks the user. Where a run
  alternates commands and decisions (making one symlink, retrying a removal
  that others' dependencies block, removing a path after a question), the
  decisions are step functions of the library (`symlinks::next_link_step`,
  `official::removal_after`, `utilities::remove_path_after_answer`) and
  `app/` only performs each step and hands back its outcome.
- `tests/` runs the library on concrete values.

## Symlink paths and the save file

The save file (`save.king` in the `Base` install location) records the
symlinks as `symlinks=["LINK=TARGET",...];`. It is cut at `;` and at `,`,
and a saved item is cut at every `=`, so the paths of the `Symlinks` table
should hold none of `;`, `,` and `=`. For such paths the library proves
that what a run writes reads back as the items it was written from
(`save::lemma_save_roundtrip`, `save::lemma_written_file_reads_back`), and
that a later run with the same table removes none of the symlinks it made
(`symlinks::lemma_unchanged_table_keeps_links`).
