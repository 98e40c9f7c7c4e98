# bitter-dotcom-generator

A pipeline for generating short, pronounceable `.com` domain names from a
domain-specific vocabulary. The decisions of the pipeline are a library whose
behaviour is stated in contracts and proved by Verus; the program around it does
the input, the output and the floating-point arithmetic.

## Stages

1. **Generate and filter**: an order-3 character Markov model learns the sound of
   the seed corpus. The scanner explores `[a-z]^L`, prunes low-probability
   prefixes, rejects names that fail a syllable-based pronunciation test, and
   removes names that are too close to a seed.
2. **Check availability**: the registry is asked at a bounded rate. Definite
   results are kept in a journal, so that interrupted or repeated runs do not ask
   for the same domain again. An indeterminate result is never taken for a free
   name.
3. **Judge candidates**: a language model first assigns fit scores in batches. A
   second pass describes a smaller, diversity-filtered set of finalists.

## The library (`src/`)

| Module | What it decides |
| --- | --- |
| `markov`, `model` | transition counts, smoothed table, scores; training on a corpus |
| `scan` | exhaustive traversal with pruning |
| `syllable` | pronounceability |
| `edit` | bounded Levenshtein distance |
| `names` | valid names, corpus files, n-grams |
| `selection` | which names go on after the scan and after the check |
| `check` | what a reply of the registry means; the window of requests |
| `judge`, `prompts` | endpoints, keys, prompts, requests, retries |
| `answers` | which answers of a model are accepted |
| `finalists` | batches, ranking, diversity, descriptions |
| `journal`, `json` | journals of one JSON object per line |
| `ranking`, `sort` | orders and a stable sort |
| `keyed`, `text`, `cli` | a map by byte strings, text primitives, command-line values |

Scores are of any type: the arithmetic on them is passed in as functions, and the
contracts say which sums, products and comparisons were made of what.

What the library takes on trust stands in a few items, each with a comment that
says what is claimed: the ordered parallel collection of `rayon` (`scan`), reading
and writing JSON with `serde_json` (`json`), taking an address apart with
`reqwest::Url` (`judge`), and, of the standard library, `String::push` and the text
that `Debug` gives of a `str` (`text`).

## The program (`app/`)

`scan`, `score`, `check` and `judge`, as subcommands. It expects a corpus at
`data/seeds.txt` (or `--corpus`) and a positioning brief at `data/brief.txt` (or
`judge --brief`).
