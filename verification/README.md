# Zex

A minimal coding-agent harness. The library holds its decisions, formats and
state, with contracts that are proved by Verus; the program around it does the
input and output.

## Library (`src/`)

- `text`, `textmap`, `json`: texts, ordered maps keyed by text, and JSON values
  with the text that they are written as and read from.
- `secure`: keys, ciphers and fingerprints.
- `agent`: messages and their token estimate, file changes, events, the context
  and its budget, pruning and compaction, and the course of a turn.
- `memory`: addressable records: IDs, the store and its index, reading back,
  retention, filters and listings, the recall limiter, pins and the audit log.
- `provider`: thinking levels and capabilities, the models.dev catalog, the
  registry, and the Chat Completions and Responses protocols, both streamed and
  whole.
- `config`: providers and models, the theme, configuration files as TOML, their
  merge, the environment, and what is written back.
- `session`, `session_store`: session files, their encryption, the list of
  sessions, and which of them is saved, loaded and resumed.
- `tools`: definitions and arguments, the registry, edits, searches and shell
  reports.
- `command`, `headless`, `instructions`: slash commands, what is printed, and
  what the model is told first.

A public proof function whose name begins with `law_` states a property of
several functions, or of every state, in words and as a contract. What a call
into an outside crate gives is stated by a small number of functions marked
`external_body`, each with a comment on what it claims.

## Program (`app/`)

Arguments, files, processes, HTTP and the terminal. It performs what the library
decides, and hands back what came of it.

## Tests (`tests/`)

Examples that run the library, with the outside crates linked.
