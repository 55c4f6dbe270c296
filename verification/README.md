# zero_code

The verified core of a terminal coding agent that talks to the DeepSeek
chat-completions API. The library (`src/`) is written in Verus: every
function carries a contract, and Verus proves the code against it.

- `app` — the conversation screen's state: messages, the input line and its
  cursor, scrolling, key presses, and the events an agent run reports.
- `agent` — the agent loop as a state machine: model calls with retries and
  a doubling delay, tool calls, at most ten rounds.
- `api` — the messages sent to the model, the plain reply, and the decoding
  of a streamed reply (event lines, tokens, tool-call fragments).
- `tools` — the five tools: their definitions, the checks on a call's
  arguments, line ranges for reading and editing files, and the answers.
- `memory`, `summary` — long-term memory: topic blocks, keyword search, the
  size limit, session expiry, transcripts and the summarization run.
- `session` — session names and file names, the listing order, and the
  calendar behind the readable timestamps.
- `ui` — what the screen shows, as pieces of text and their tones.
- `text` — the string model the contracts are written in (characters,
  UTF-8 byte lengths, lines, words, decimal numbers).

`app/` is the program around the library: the terminal (crossterm,
ratatui), the HTTP client (reqwest, tokio), files and processes, and the
serde forms of the library's types. `tests/` runs the library on concrete
values.
