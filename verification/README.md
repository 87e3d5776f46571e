# lite_edit_editor

The core of a text editor's front end, written in Verus: the functions in
`src/` carry contracts that Verus proves. Where a result depends on other
threads (the event channel's deliveries, the PTY wakeup flag) or on the
clock, the contracts state what holds whatever the outcome: for the event
channel, that a failed send hands back the very event it was given (the
channel tag that sender and receiver carry is a ghost value the library
chooses; std says nothing of it); for the suppression registry, that its clock
readings never go back.

- `src/input.rs`, `src/focus.rs`: key events, focus targets and the focus
  stack with top-down key propagation.
- `src/mini_buffer.rs`, `src/find_target.rs`: the single-line query field and
  the find-in-file focus target.
- `src/editor_state.rs`: the editor's decisions — which command a key press
  triggers, picker and find-strip transitions, tab cycling and closing,
  confirm-dialog follow-ups, cursor blinking, window titles, picker paths.
- `src/text_position.rs`: line/column positions, byte offsets and the
  case-insensitive, wrapping search of the find strip, which compares the
  text character by character, each lower-cased, and gives the match as a
  range of the text searched.
- `src/path_model.rs`: Unix paths as strings (components, equality, order,
  exclusion rules, file names, relative paths).
- `src/fuzzy.rs`, `src/file_index.rs`: fuzzy scoring, the file index's cache
  and recency list, queries, and the handling of file system events.
- `src/file_change_debouncer.rs`, `src/file_change_suppression.rs`:
  debouncing of content changes and suppression of self-writes.
- `src/event_channel.rs`: the editor's event queue with PTY wakeup
  debouncing.
- `src/file_picker.rs`: the file picker's answer slot.

`app/` holds what runs around the library: the file index's walker and
watcher threads, recency persistence, and the native file picker.
`tests/` exercises the library.
