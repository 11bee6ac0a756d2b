# git-varro

Search the commit messages on `main` of the current Git repository with the
Varro search engine: `git-varro search "your phrase"`. The index is brought up
to date first; then the hits are listed in a terminal interface or, with
`--no-tui` (`-n`), printed one per line, best match first.

- `src/` is the library, verified with Verus: the query, the update of the
  index, the order of the hits, the state of the terminal interface and what it
  draws. It reads no file, no repository and no terminal.
- `app/` is the program around it: the command line, git, the engine and the
  terminal. Varro comes from its own repository and is not among the
  dependencies here.
- `tests/` runs the library.

In the terminal interface, `t` toggles between the order of `main` and that of
the score, Enter opens `git show` in the pager, and `Q` quits. Where git has no
pager, the commit is shown in the interface itself.
