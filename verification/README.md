# parse_histogram

Tools for studying the activation sparsity of an LLM's FFN layers and what
it means for a processing-in-memory (PIM) accelerator: record decoding,
per-layer histograms and sparsity, activation statistics, neuron-to-bank
remap tables, per-record PIM bank timing and the layout comparison.

- `src/` is the library, written in Verus: every function carries a
  contract and is proved, together with the laws that tie the functions
  together (merging partial results, what a remap table may hold, lower
  bounds that no placement can beat).
- `tests/` runs the library on concrete inputs.
- `app/` is the command-line front end: file and directory reading, JSON
  output, the terminal UI, parallel per-file runs, and the floating-point
  summaries (ratios, means, GPU time estimates).
