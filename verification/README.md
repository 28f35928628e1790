# beankey

The core of a kana-kanji input method, written in Verus: every function in `src/` carries a
contract that the verifier proves.

## Layout

- `src/input/`: input tables (romaji, AZIK, kana layouts and custom TSV tables) and the
  composing text with its cursor, insertion, deletion and conversion to a surface.
- `src/dictionary/`: the binary entry format, LOUDS tries and character identifiers, the
  connection and meaning cost tables, shard addressing and the user dictionary.
- `src/learning.rs`: learning records (ageing, merging, memorizing, forgetting), clause
  segmentation and the encodings of the learning memory's files.
- `src/memory.rs`: the learning memory's state: learning, committing, forgetting, resetting
  and what a save keeps.
- `src/lattice.rs`, `src/typo.rs`, `src/lm_typo.rs`, `src/ngram.rs`: the parts of conversion,
  typo correction and n-gram lookup that do not compute with floating-point scores.
- `src/zenz.rs`, `src/llama.rs`: prompts and output constraints for the conversion model.
- `src/special.rs`, `src/template.rs`, `src/text_replacer.rs`, `src/kana.rs`: special
  candidates (numbers, dates, e-mail, typography), template tags, emoji replacement and kana.
- `src/frame.rs`, `src/requests.rs`, `src/keys.rs`, `src/surrounding.rs`, `src/config.rs`:
  the daemon's framing, request ordering per session, key handling and configuration.
- `src/post_prediction.rs`: predictions offered after a commit and the candidate that
  accepting one makes.
- `src/cache.rs`: a bounded least-recently-used cache.
- `app/`: the file and stream input and output around the library, and the floating-point
  scores of entries, which the library carries only as `f32` bits.

Grapheme clusters come from the `unicode-segmentation` crate; the contracts name its result
rather than restate the Unicode segmentation rules.
