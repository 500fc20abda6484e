# ghosty

A terminal chat with a ghosty agent: it posts a message to the agent's
endpoint and shows the reply as it streams in over server-sent events.

The crate is a Verus library and a thin program around it.

- `src/` — the verified library.
  - `search.rs`: first occurrence of a byte pattern.
  - `text.rs`: Unicode whitespace, trimming, `str::lines`-style and
    `str::split`-style splitting, over sequences of characters.
  - `json.rs`: the two calls into `serde_json`: reading a string member
    (its result named) and writing a two-member object (its text stated:
    sorted keys, compact, escaped as serde_json escapes).
  - `sse.rs`: the stream decoder. Bytes are buffered until a blank line ends
    a block; each `data:` line of a block whose JSON `type` is `chunk`,
    `token`, `error` or `done` gives a frame (`frame_of_members` decides
    which from the members' values); nothing follows an `error` or
    `done`. Proved: where the transport cuts the stream does not change the
    frames, for one cut (`lemma_drain_split`, `lemma_feed_split`) or any
    number of them (`lemma_feed_all_cuts`, `lemma_feed_all_same_bytes`), and a
    turn ends once (`lemma_drain_ends_once`).
  - `wrap.rs`: word wrapping by characters and the shortened agent id
    (its first eight characters and an ellipsis when it is longer than ten).
    Proved: lines never exceed the width, hold no line feed, and keep every
    character but spaces and line feeds (`lemma_wrapped_lines`,
    `lemma_wrapped_keeps_text`); each line of the text is wrapped on its own
    (`lemma_wrapped_splits_at_newline`); wrapping a wrapped line again
    changes nothing (`lemma_wrapped_is_stable`).
  - `chat.rs`: the chat state and how it reacts to keys and frames.
  - `render.rs`: the screen model: history lines, scroll offset, title,
    status line and cursor.
  - `cli.rs`: command-line and environment handling.
  - `client.rs`: the request's address and body, and the error text of a
    refused request.
- `app/` — the program: terminal, HTTP, tasks and drawing.
- `tests/` — tests of the library on concrete values.
