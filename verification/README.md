# lazyinstall

A terminal UI that tracks folders holding update scripts (`update-*.sh`),
runs a script on demand inside a pseudo-terminal, follows its output line by
line, and answers a `sudo` password prompt with a password typed once per
session.

## Layout

- `src/` — the library, verified with Verus.
  - `text.rs`: trimming, ASCII lowercasing, substring search, decimal writing.
  - `install/target.rs`: install targets, update messages, the `LineReader`
    that cuts raw output into lines and notices password prompts.
  - `install/discover.rs`: which scripts of a folder become targets, their
    byte order and their names.
  - `install/tracking.rs`: a tracked target's state, bounded log and pending
    password prompt.
  - `install/store.rs`: the remembered folders, each once.
  - `ui/keys.rs`, `ui/view.rs`: key bindings and what the panels show.
  - `ui/layout.rs`: the three rows of the screen, from ratatui's layout
    solver.
  - `ui/app.rs`: the application state; every decision returns the outside
    work to do next (start a script, write a password, stop a script, save
    the folders, look into a folder).
- `app/` — the program: terminal, event loop, processes, files and drawing.
- `tests/` — tests of the library.
