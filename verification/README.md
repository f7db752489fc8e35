# sharezed

direnv for everything a shell knows: capture what a startup script does to a
zsh, publish the difference as a generation of an append-only log, and let
long-lived shells converge on it at their next prompt.

`src/` is the library, verified with Verus. What it does is stated in the
contracts; what holds of it as a whole stands in the `*_laws` modules and in the
laws at the end of the other modules. `app/` is the command line around it:
files, locks, environment and zsh itself. `tests/` runs the library.

| modules | what they hold |
|---|---|
| `text`, `table`, `paths`, `globs` | strings, ordered tables, paths, patterns |
| `lists`, `merge` | search paths and their three-way merge |
| `state`, `wire`, `capture` | the state of a shell, its records, a clean-room capture |
| `payload`, `delivery` | the code that brings a shell up to date |
| `prints`, `tracking` | digests of what a capture went through |
| `store`, `revert`, `reload` | the log, and what moves it |
| `settings`, `report`, `doctor` | what is read from and said to the user |
