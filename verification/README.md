# Codex Process Guardian

Watches the helper processes that a ChatGPT or Codex host starts on Windows: browsers driven by
automation, tool servers, and the host's own helpers. It tells which of them belong to a running
host, which have lost theirs, and which only look like helpers, and it can end what a host was
seen to start.

What the guardian decides is a library, written in Verus and proved:

- A process may be ended only if it was seen below a host, and an active one only by the user's
  explicit wish.
- Before anything is opened, the PID and the creation time are compared with those of the entry;
  before a process is killed, its handle must show the creation time of the snapshot.
- What is ended for a process is the process and everything below it, from below.
- By default nothing is ended without the user. With `action=terminate` the guardian ends what
  has been without its host for the grace period, and idle helpers only where a setting says so.
- The state file never holds a command line, and reads back as it was written.

## Layout

- `src/` is the library.
  - `text`, `decimal`, `wide`: characters, numerals, UTF-16.
  - `model`: processes, entries, categories, statuses.
  - `classify`, `tree`: what a process is, and what is above and below it.
  - `config`, `state`: the two files.
  - `guardian`, `scan`, `terminate`, `watch`: what the guardian does.
  - `sample`: what the system says about a process.
  - `listing`, `selection`, `dialog`, `board`, `window`, `terminal`: what the user sees and does.
- `tests/` runs the library on values.
- `app/` holds the window, the terminal and the calls into the system. An executable whose name
  ends in `cli` is the terminal; any other is the window, or with `--watch` the watch.

## Configuration

`guardian.conf` beside the executable:

- `interval_seconds=30`: the pause between two scans, at least 5 seconds.
- `grace_minutes=5`: how long a helper is left alone after its host has gone.
- `owned_browser_idle_minutes=20`: when a browser below a running host counts as idle.
- `owned_tool_idle_minutes=30`: when a tool server below a running host counts as idle.
- `action=report`: `terminate` lets the guardian end processes by itself.
- `terminate_owned_idle_browser=false`: whether that includes idle browsers.
- `terminate_owned_idle_tool=false`: whether that includes idle tool servers.

The state and the log are in `%LOCALAPPDATA%\CodexProcessGuardian`.
