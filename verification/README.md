# maskedrunner

Workflow integrity verification for service accounts. A workflow is declared once, as a coloured
Petri net: places, transitions, who may fire what, which effects each transition emits, and which
relations must hold between effects. A run is then judged by one question: could any execution of
the declared net have produced what was observed?

An accepted run comes with a witness, the path that explains it. A rejected run comes with a set
of observed facts that rules it out and from which no fact can be spared.

## Layout

`src/` is the verified library.

| Modules | What they hold |
|---|---|
| `text`, `ordered`, `index`, `digest` | text, ordered maps and sets, insertion-ordered tables, digests |
| `model`, `lint`, `load`, `mutate`, `generate` | the specification: its parts, its soundness, its mutations, and a first draft of one from a CI workflow |
| `observation`, `net`, `matching`, `guess`, `search`, `expand`, `keys`, `states`, `verify` | observed runs, the compiled net, and the bounded search for an explanation |
| `runs`, `tokens`, `clocks`, `renaming`, `covering`, `completeness` | what the verdicts mean: laws over runs of the net |
| `clauses`, `restriction` | laws of mutations, and of restricting a run to some of its facts |
| `permissiveness`, `shapes`, `retelling`, `campaign`, `mus` | how much a specification admits, which clauses a rejection rests on, and minimal cores |
| `certificate`, `explain`, `judge`, `report` | certificates, evidence, conclusions and how they are told |
| `policy`, `adapters`, `github`, `service` | permission checks, log adapters, and the decisions of the service |

`app/` is the command line and the HTTP service: files, the environment, the clock, JSON and YAML.
`tests/` runs the library on concrete workflows and runs.

## What is trusted

The library calls `sha2`, `hex`, `ed25519-dalek`, `rand` and `indexmap`, and a few functions of the
standard library, through wrappers whose doc comments say what is taken on trust. That an Ed25519
signature verifies under its own key, and that a digest depends on its input alone, are examples.
How hard it is to forge one is not stated.
