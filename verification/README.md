# super_gemma

Host-side logic of a single-model inference stack for Gemma 4: tokenizer, chat
template, output parser, sampler, the device graphs as data, and the decisions
of sessions and generation. The library under `src/` is written in Verus:
its functions carry contracts that are proved, and the laws that relate
functions stand beside them as public proof functions. What a few calls of the
standard library and of `serde_json` give is believed, not proved; those
contracts stand in `text`, `detok` and `json`.

- `text`, `json`: texts and JSON values that the rest is written in.
- `vocab`, `bpe`, `heap`, `detok`, `tokenizer`: token ids and text.
- `argument`, `schema`, `template`: prompts.
- `args`, `toolcall`, `inverse`: the model's output, and that it reads back
  what was written.
- `sampler`, `session`, `stops`: which token comes next, what stays resident,
  where text ends.
- `shape`, `weights`, `layout`: sizes, tensors, bytes.
- `graph`, `prefill`, `dataflow`, `stage`, `model`: what the device is asked to
  do, and in what order.
- `reference`, `forward`: the host reference model.
- `probe`: what the hardware probe reports.

`tests/` runs the library; `app/` is the command line around it, with all I/O,
device calls and floating-point arithmetic.
