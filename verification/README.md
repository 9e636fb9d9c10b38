# tldr_ollama

A small web service that summarizes YouTube videos with a local Ollama
server, written as a Verus library with a thin program around it.

- `src/` — the verified library:
  - `http.rs`: reading request heads, routing requests, the body length
    header, and the heads of the responses;
  - `summary.rs`: summary requests, their defaults and the steps that
    answer them;
  - `ollama.rs`: the chat conversation with the Ollama server, model
    listings and error reports;
  - `json.rs`: JSON documents as plain values;
  - `text.rs`: character-level helpers (trimming, decimal numbers, UTF-8).
- `app/` — the server program: sockets, worker threads, files, environment
  variables, JSON (de)serialization and the HTTP calls to Ollama.
- `tests/` — tests of the library.

The server reads its gzip-compressed page assets (`index.html.gz`,
`style.css.gz`, `script.js.gz`) and the dry-run sample (`markdown_test.md`)
from a `static` directory at start-up.
