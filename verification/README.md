# translation_inference

A translation and transcription web service built on OpenAI-compatible
backends. The decisions of the service are a library verified with Verus;
the server around it is ordinary Rust.

## Layout

- `src/` — the verified library.
  - `text.rs`: character-level string operations (trimming, splitting,
    joining, replacing, ordering) with their specifications.
  - `chunker.rs`: context sizes from model IDs, splitting text into chunks
    at paragraph, sentence or word boundaries, and the overlap carried
    between chunks.
  - `prompt.rs`: the system prompt, the user message, filtering of
    reasoning blocks, and the chunk-by-chunk translation plan.
  - `subtitle.rs`, `captions.rs`: SRT and WebVTT parsing and rendering, and
    translating a subtitle file cue by cue; `subtitle_roundtrip.rs`: what
    parsing gives back of a rendered file.
  - `tts.rs`: splitting text for text-to-speech requests.
  - `document.rs`, `paragraphs.rs`: output formats, conversion routes,
    batching paragraphs into requests and matching replies back.
  - `xml.rs`, `office.rs`, `archive.rs`: ODT and DOCX documents — XML
    escaping, finding paragraph elements, reading and replacing their text,
    and the ZIP archives around them.
  - `access.rs`, `config.rs`, `client.rs`, `bitvault.rs`, `language.rs`,
    `media.rs`, `models.rs`: sessions and access control, configuration,
    backend endpoints and model probing, the paste service, languages,
    uploads, and the API's data.
- `tests/` — tests of the library on concrete values.
- `app/` — the HTTP server (axum): environment, routes, backend requests,
  ffmpeg and PDF tools, and the JSON forms of the API's data.

Calls into outside crates (`zip`, `url`, `subtle`, `base64`) and a few std
functions without a vstd specification go through small trusted wrappers
whose contracts are documented next to them.
