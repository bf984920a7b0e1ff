# mojibake_core

Encoding inference and repair for mojibake, verified with Verus.

The library reads raw bytes or already decoded text, gathers evidence
(byte-order marks, UTF-8 validity, NUL layout, binary signatures, character
metrics, the chardetng suggestion), and searches a bounded space of strict
encode → decode repairs for readable interpretations. Every step of a
recovery path is recorded, and an export replays a path over a whole file
while refusing any newly discovered loss.

## Layout

- `src/` — the verified library.
  - `codec.rs`, `whatwg.rs`, `utf8check.rs`: the codecs, their names and
    labels, byte-order marks, strict encoding and decoding with exact
    round-trip checks; encoding_rs is reached only through `whatwg.rs`.
  - `evidence.rs`, `textclass.rs`, `scripts.rs`, `chardet.rs`: metrics,
    previews, NUL layouts, binary detection and the detector's label.
  - `search.rs`, `recovery.rs`, `beam.rs`, `report.rs`: typed transformation
    steps, the admissible repairs, the bounded beam search and what each
    reported candidate says of itself.
  - `streaming.rs`: stateful replay of a recorded path over a stream.
  - `files.rs`, `digest.rs`, `cases.rs`: decisions around sampled files, the
    source's digest, the hex view and the history of recent analyses.
  - `analysis.rs`: the input limits of an analysis and what the evidence
    decides before the search (whether it runs, its clues, the warnings).
- `tests/` — tests on concrete values.
- `app/` — the desktop shell: file and window I/O, the Tauri commands, and
  the floating-point ranking scores, which reach the search as order keys.

## What is proved

Among others: every codec parses its own name; decoding records malformed
input exactly and counts replacement characters; a preview is trimmed only of
a character cut off at its end; the search reports distinct texts, each a
seed reading or at most three strict, exactly round-tripping repairs away
from one, records paths that `transform` replays step by step to the
reported text, reports them in the order of the scores' keys, keeps the
unchanged interpretation inspectable, reports as many of the states it kept
as it may (up to twelve) with every unreported one ranked no earlier, keeps
every seed reading and every admissible repair of the first reading it
expands (file or paste), and, short of its budgets, expands layer after
layer up to the depth limit (one layer for clean Unicode, three otherwise),
keeping every admissible repair of every expandable frontier state and
stopping early only when a layer finds nothing new; every repair pair of a
reported path changes the text, and pasted text keeps its empty path under
a scoring that penalizes depth; it propagates existing replacement loss to
every candidate and stays within its budgets; a replay of a recorded
path gives exactly what its stages make of the chunks (each decoder's output
taken as given), refuses only with `export_loss_detected` once the path is
valid, writes literal ISO-8859-1 whatever the chunking, and never writes text
that a decoding stage does not encode back to exactly the bytes it read.
