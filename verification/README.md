# mdict_web

A dictionary web service for MDict (`.mdx` / `.mdd`) bundles, with its core
verified in Verus.

- `src/` is the verified library:
  - `config.rs` – bundle manifests, defaults, path resolution and the catalog rules;
  - `domain.rs` – the API's error model and response types;
  - `index.rs` – the suggestion index: key normalization, posting ranges,
    the sorted/grouped build, and prefix suggestion with de-duplication;
  - `markup.rs` – the text patterns the rewriter edits (`url(...)`, `<style>`
    blocks, inline event handlers);
  - `rewrite.rs` – entry HTML and CSS rewriting for the sandboxed viewer;
  - `engine.rs` – redirect resolution, resource key spellings, entity tags,
    sidecar stylesheets and scripts, and the per-dictionary operations;
  - `service.rs` – the dictionary catalog, readiness, multi-dictionary search;
  - `http.rs` – conditional requests, admin tokens, rate windows, frontend paths;
  - `text.rs` – character-sequence helpers and their specifications;
  - `trusted.rs` – the calls into `url`, `percent-encoding`, `blake3`,
    `mime_guess`, `lol_html`, `mdict-rs` and `fst`, each with the
    contract the proofs rely on.
- `app/` is the server around it: TOML loading, file I/O, caches, the async
  runtime and the axum routes.
- `tests/` exercise the library on concrete values.
