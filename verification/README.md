# person2vec

Can we tell who wrote what from AI embeddings alone? This crate holds the verified
core of the person2vec toolkit: everything that decides which text ends up in a
dataset and how it is grouped, counted and held out, proved with Verus against
contracts over mathematical models (sequences, sets, maps).

## Layout

`src/` — the verified library:

| Module | What it holds |
|--------|---------------|
| `text`, `lex`, `numparse` | character-level text primitives (whitespace words, trimming, search, UTF-8 lengths and boundaries), lexicographic order and sorted listings, `i64` parsing and decimal printing |
| `pattern`, `scrub` | compiled regexes (the `regex` crate, behind trusted wrappers), Gutenberg boilerplate stripping, identity scrubbing and the leak check |
| `gutenberg` | mirror paths and URLs, UTF-8/Latin-1 decoding, prose chunking |
| `identity`, `codefilter`, `commits`, `scan`, `windows`, `dedup`, `discover` | attribution of added code lines from `git log -p` output, per-file pooling, windowing into passages, exact and near-duplicate filtering, committer tallies |
| `model`, `corpus`, `calendar`, `attributes`, `experiments`, `ranking`, `folds`, `positions`, `loocv` | the data model, held-out ("mystery") passages, calendar buckets, trait classes and counts, groupings and splits for leave-one-out evaluation, outcome tallies |
| `labels`, `copy`, `display`, `views`, `cli`, `randinit` | display strings, command lines, deterministic seeding |

`app/` — the command-line driver (network, git, files, JSON/TOML, and the `f32`
similarity arithmetic of the evaluation), calling the library.

`tests/` — executable tests of the library, run against the real outside crates.
