# wow_ripper

A World of Warcraft data inspector whose core is verified with Verus.

- `src/` is the library: `.build.info` tables (`build_info`), community
  ListFiles and their search (`listfile`), BLP2 and DBC/DB2 headers (`blp`,
  `db2`), asset identification (`inspector`), the virtual file tree of a CASC
  storage (`casc`), and the text, number and ordering helpers they share
  (`text`, `number`, `order`, `bytes`). Every function there carries a
  contract that Verus proves; the few calls into `casc-lib` and std that
  Verus cannot read sit behind small trusted wrappers whose doc comments say
  what is assumed.
- `tests/` runs the library on concrete inputs.
- `app/` is the desktop shell: Tauri commands, the folder picker, and the
  file-system and CASC archive reads and writes that feed the library.
