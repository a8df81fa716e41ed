# wmux

The server of a terminal multiplexer: sessions hold windows, windows hold
panes, each pane runs a program in a terminal, and clients attach to look at
them.

`src/` is a library in Verus. Its functions have contracts over mathematical
models of their data (`WindowState`, `SessionState`, `Tree`, ...) and are
proved to meet them; what holds across several of them is stated in lemmas of
their own. What it has from outside crates and from the parts of `std` that
Verus does not know stands in a few marked functions whose contracts are taken
as given. Its modules:

- layouts: `layout`, `fit`, `edit`, `resize`, `preset`, `layout_text`,
  `layout_again`, `neighbour`
- windows, sessions and the server: `window`, `window_edit`, `arrange`,
  `session`, `server`, `server_edit`, `openings`, `splits`, `endings`, `kills`,
  `undo`, `join`, `moves`, `window_moves`, `going`, `attending`, and the
  commands on them
- what a client types and clicks: `keys`, `bindings`, `default_keys`,
  `default_lines`, `words`, `tables`, `key_flow`, `mouse`, `mouse_flow`,
  `input`, `prompt`, `chooser`, `chooser_keys`, `picking`, `copy_mode`,
  `copy_keys`, `popup`, `client`, `client_commands`, `drawing`, `frames`
- what a program prints: `screen`, `announce`, `marks`, `history`, `pane`,
  `outlets`, `alerts`, `events`
- messages between panes and their log: `actor`, `mail`, `callers`, `messages`,
  `message_waits`, `message_lists`, `agents`, `observe`, `written`, `replay`,
  `tasks`
- configuration, buffers and saved sessions: `config`, `sourcing`, `buffers`,
  `waits`, `keeping`, `saved`, `saving`, `resume`, `shells`, `listings`, `finds`, `pickers`,
  `context`, `options`

`app/` is ordinary Rust around it: programs in pseudo-terminals, the terminal
model, files, the clock, and the loop that hands events to the library.
`tests/` runs the library from outside.
