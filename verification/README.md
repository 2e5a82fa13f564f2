# laya

Typed decisions in one forward pass. A *question* is a choice between labels, a score on ordered
levels, or a boolean; a set of questions is laid out as token sequences, answered by a bidirectional
encoder with a decision head, and read back as labels, probabilities and calibrated confidence.

- `src/` is everything around the tensors, in Verus: how questions and states are rendered, how
  sequences are laid out and batched, which checkpoint reads a state, which checkpoints stay
  resident, whether a checkpoint fits its config and its tokenizer can be run on every text, and how
  answers are put together. Every function states what it returns, and public proof functions named
  `law_*` state what holds across them.
- `tests/` runs the library, with the real tokenizer and ordered map.
- `app/` is the program: the command line, files, the Hub, and the forward pass in floating point.

Numbers that are single-precision floating point are carried as bit patterns in `src/`
(`float.rs`); tokenization is what the `tokenizers` crate answers (`tokenizer.rs`).
