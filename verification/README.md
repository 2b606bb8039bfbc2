# skillopt

A text-space optimizer for agent skills. It trains a single `skill.md` against a frozen model: scored
rollouts, reflection that proposes structured edits, an edit budget that plays the part of a learning rate,
a buffer of refused edits, and validation on held-out items. It talks to any OpenAI-compatible endpoint.

## Layout

- `src/` is the library. Every function carries a contract that Verus proves, but for the few calls named
  below.
- `tests/` holds its tests.
- `app/` is the program: files, network, command line.

| Module | What it holds |
| --- | --- |
| `types`, `config` | the data, and the configuration with its defaults |
| `text`, `numbers` | texts as sequences of characters; numbers as text |
| `patch` | applying edits to a skill |
| `merge`, `rank` | merging proposals, and selecting the best of them |
| `single`, `single_laws`, `cosine` | single-precision numbers in whole ones: sums, products, quotients, roots, the cosine |
| `scheduler` | the edit budget over a run |
| `gate` | deciding about a candidate |
| `gradient`, `memory` | what the optimizer model is asked, and what is remembered |
| `scoring`, `distance`, `numeric` | scoring answers |
| `calculator`, `tame` | the calculator, and the expressions that it can be given |
| `adapter` | the kinds of tasks, and the conversations about them |
| `data` | drawing batches |
| `openai` | settings, requests and retries |
| `train`, `artifacts` | a training run, and where it keeps what it makes |

Scores, utilities, score drops and temperatures are single-precision numbers, given by their bits. The
library computes with them in whole numbers: a sum, a product, a quotient or a root is the single-precision
number nearest to the exact one. The cosine comes from a product of finitely many factors and is then rounded
in the same way; that this is the number nearest to the true cosine is tested, not proved.

What is believed without proof is written down where it stands: functions of the standard library on
characters and strings, SHA-256, the shuffling of positions by a seeded generator, and the evaluation of
arithmetic expressions.

## Train

```
skillopt train --config configs/searchqa.yaml --split-dir data/searchqa --out-root outputs/run1
```

Running the same command again goes on where the run left off.

## Evaluate

```
skillopt eval --config configs/searchqa.yaml --skill outputs/run1/best_skill.md \
  --split valid_unseen --split-dir data/searchqa
```

## Outputs

```
outputs/<run>/
├── best_skill.md
├── history.jsonl
├── runtime_state.json
├── skills/skill_v0001.md ...
├── meta_skill/epoch_02/memo.md ...
└── steps/step_0001/{patch.json,eval.json,record.json}
```
