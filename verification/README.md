# irc_tui

The state and screen logic of a terminal IRC client, verified with Verus.

- `src/app.rs`: buffers, scrollback, activity marks, events, submitting the
  input line; the model (`AppView`) and the specification of every operation.
- `src/nicks.rs`: nick-list order (operators, voiced, others; by name without
  case) and membership changes.
- `src/complete.rs`: nick completion on the input line (byte-offset cursor).
- `src/keys.rs`: what each key press does.
- `src/wrap.rs`, `src/render.rs`, `src/ui.rs`, `src/layout.rs`: word wrapping,
  styled screen lines, colours, and the split of the screen into panes.
- `src/clock.rs`: `HH:MM` time stamps.
- `src/demo.rs`: the scripted server used before a real connection exists.
- `src/laws.rs`: properties that hold across operations.
- `src/text.rs`: character and UTF-8 helpers.

`app/` is the terminal front end (tokio event loop, crossterm keys, ratatui
widgets); it hands plain values to the library and draws what it returns.
