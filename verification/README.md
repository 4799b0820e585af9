# Nova Desktop — verified native core

Nova Desktop wraps the Nova assistant in a Tauri window and adds three native networks the
frontend can train on the facts Nova knows: a topic classifier, a next-word text generator and
skip-gram word embeddings.

This crate holds everything about those networks that is not floating-point arithmetic, with
its behaviour stated in Verus contracts and proved:

- `text` — cleaning (lowercasing and stripping punctuation), splitting on Unicode whitespace, the
  rolling word hash and hashed bag-of-words counts.
- `nn` — the classifier's keywords (stop words, plural stemming), grouping facts into sorted
  topic classes, building the labelled samples, the training schedule and the reply messages.
- `gen` — the generator's corpus, tokens, three-word context examples, top-K size, seed word
  and the sentence finishing of generated text.
- `embed` — the embeddings' corpus, skip-gram (center, context) pairs and word lookups.
- `vocab` — word counts and the frequency-ranked, capped vocabulary (unique, proved).
- `order` — the lexicographic order of topic names and sorted insertion.
- `rng` — the xorshift generator, whose state is never zero.
- `update` — the update check on launch as a state machine: found / not found / failed,
  install only on "yes", report a failed install, relaunch only on "yes".
- `net`, `fmt` — parameter counts, epoch clamping and decimal rendering for messages.

`app/` is the Tauri application: commands, state, the loop that performs the update check's
actions (updater plugin, dialogs, relaunch), and the float networks
(forward pass, backpropagation, sampling, cosine ranking), which call into the library.
