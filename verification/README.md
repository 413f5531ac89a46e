# sven

A terminal coding agent for local LLMs: a REPL that drives an
Ollama-compatible model in a tool-calling loop, with a persistent store of
skills (`<data_dir>/skills/<kebab-case-name>/SKILL.md`).

The crate is a Verus library with a thin program around it.

- `src/` — the verified library:
  - `text.rs` — character-level string operations (trim, lines, find,
    replace, join) with their specifications;
  - `yaml.rs` — the flat YAML frontmatter parser and scalar quoting;
  - `skills.rs` — the skill model, SKILL.md rendering and parsing, name and
    tag sanitization, store paths, creation and update rules;
  - `roundtrip.rs` — the proof that a skill written to SKILL.md reads back
    as itself;
  - `order.rs` — stable insertion sort and its ordering lemmas;
  - `search.rs` — keyword search and ranking over skills;
  - `security.rs` — path confinement to the working directory, judged on
    paths that the program has resolved (symbolic links followed) first;
  - `json.rs`, `chat_history.rs`, `agent.rs` — the chat protocol values, the
    conversation history and its turn steps, and the streamed answer: NDJSON
    line framing, reading each line as JSON (through serde_json) and folding
    it in, with the proof that the answer depends on the bytes alone;
  - `tool_registry.rs`, `tools.rs` — the tool registry and the tool
    definitions offered to the model, and what the tools compute around
    their file and process work.
- `app/` — the program: configuration, HTTP streaming, the file system,
  subprocesses and the tool definitions.
- `tests/` — tests of the library on concrete values.

Two maps keyed by strings are held as vectors of entries: the parsed
frontmatter (`yaml.rs`, `YamlMap`) and the tool registry
(`tool_registry.rs`). Rather than `std::collections::HashMap`s, each is a
`Vec` of entries, so that its contracts are proved over a plain sequence;
its view is the key-to-value map, a later entry for a key replacing the
earlier one as `HashMap::insert` does. The registry keeps its tools in the order they were registered.
