# spma_retrieval

Verified core of an experiment that compares grammar-based retrieval (SP
multiple alignment, through the `spma` engine) of training sentences with
attention-style retrieval over sentence embeddings, measured by the Jaccard
overlap of the two retrieved sets.

- `src/` — the library, verified with Verus:
  - `lcg` — the 64-bit linear congruential generator and the state streams
    behind the pseudo-random embeddings;
  - `corpus`, `grammar`, `small_grammar` — the synthetic `det noun verb det noun`
    corpus and its two vocabularies;
  - `interning` — words to symbol ids through the engine's interner;
  - `subsequence` — in-order (gapped) occurrence of a pattern in a sentence;
  - `coverage` — which training sentences each matched pattern covers, and
    which grammar patterns take part, and where matched patterns stand in the
    grammar list;
  - `costs` — the per-symbol cost table;
  - `selection` — all distinct ids of the alignments, ascending order, counts;
  - `overlap` — Jaccard similarity as an exact fraction.
- `app/` — the runnable comparisons: engine training and inference, floating
  point embeddings and scores, MiniLM through ONNX Runtime, CSV reports.
- `tests/` — tests of the library on concrete values.
