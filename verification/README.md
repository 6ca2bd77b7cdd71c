# bnklaunch

A small application launcher for Wayland. It reads the installed `.desktop`
files, shows a layer-shell window with one input field, narrows the list as the
user types, and runs what is picked. `s:` searches the web and `u:` opens a URL.

Everything the launcher decides is in the library under `src/`, written in Verus
with its contracts proved. What touches the system is in `app/`.

## Layout

- `src/desktop.rs`, `src/denylist.rs`, `src/cache.rs`, `src/config.rs`: the
  applications, the names hidden from them, the cache file and the config file.
- `src/action.rs`, `src/launch.rs`: what the typed text asks for and the command
  that runs.
- `src/editor.rs`, `src/keys.rs`: the input field and the keyboard.
- `src/theme.rs`, `src/font.rs`, `src/shm.rs`, `src/ui.rs`: colours, glyphs,
  pixels and the frame.
- `src/client/`, `src/present.rs`, `src/clipboard.rs`, `src/app.rs`: the session
  with the compositor, the window's buffers, the clipboard and the event loop's
  decisions.
- `src/wire.rs`, `src/socket.rs`, `src/protocol/`: the Wayland wire format and
  its requests.
- `src/platform/`: strings, fixed-capacity containers, byte cursors, connection state,
  the io_uring queues, and what a system call's result means.
- `src/dev/`: measuring a drawn frame against a recorded one.
- `app/`: the program itself: system calls, FreeType and libxkbcommon, fork and
  exec, and the loop that feeds events to the library.
- `tests/`: the library's tests.

## What is taken on trust

Three functions of the standard library, each behind a wrapper that states what
is claimed of it: `core::str::from_utf8` and `char::to_lowercase` in
`src/platform/text.rs`, and `char::is_alphanumeric` in `src/editor.rs`. Times, file
contents, descriptors and read results come in as arguments, so the contracts
hold whatever the system returns.
