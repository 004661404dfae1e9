# rust_prompt_armor

Deterministic, cheap defenses against prompt injection for LLM-facing Rust
code, written in Verus: the executable code carries `requires`/`ensures`
contracts and is proved against them.

A user prompt runs through four layers and a decision:

1. **Unicode** (`src/layers/unicode.rs`): strip zero-width and BiDi
   characters, fold Cyrillic/Greek homoglyphs, NFKC.
2. **Fence** (`src/layers/fence.rs`): report ChatML / Llama / Anthropic /
   `<user_data>` markers and, unless the policy is `WarnOnly`, redact them;
   the redacted result provably contains none of them.
3. **Patterns** (`src/layers/patterns.rs`): multilingual phrase catalog
   (`src/catalog/`), exact Aho-Corasick matches at word boundaries,
   word-by-word matches across runs of whitespace, and Levenshtein fuzzy
   matches, reported or redacted by policy.
4. **Encoding** (`src/layers/encoding.rs`): long base64/hex runs are decoded
   and re-checked; a payload that hits a pattern is redacted and Critical,
   other candidates are redacted only when the policy asks for it.
5. **Decision** (`src/decider.rs`): Critical findings, findings under a
   `Strict` policy, or too much signal lost refuse the input.

`src/builder.rs` composes them; its contract states the whole run as the
composition of the layers' specifications. `src/laws.rs` holds properties
that span several operations (accepted runs stay within policy, a data block
cannot be closed from inside, `WarnOnly` never mutates, ...).

Calls into `aho-corasick`, `regex`, `base64`, `hex`, `strsim` and
`unicode-normalization` go through small trusted wrappers, each documented
with what its contract claims.

`app/` holds what is not verified: the async `LlmClient` trait and copies of
`ArmorError` / `ArmorConfig` with `Display` and a float signal-loss limit.
