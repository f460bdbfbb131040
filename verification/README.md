# llm

Loading a Qwen3 language model, verified with Verus.

- `src/` is the verified library:
  - `json`: a JSON reader (`parse`) whose result is specified byte by byte,
    and the compact writer (`Json::to_string`). Numbers keep the text of
    their literal; `number` decides, with integers only, whether a literal
    reads as a finite double. `readback` proves that printed text parses
    back as the value printed. `positions` proves that an error lies within
    the text and that a document is one value with only whitespace after it.
  - `config`: the settings of `config.json`.
  - `safetensors`: parsing a shard file and reading its bf16 tensors.
  - `weights`: which shard files an index names, which tensors each gives,
    and whether together they are exactly the tensors a configuration asks
    for; each gathered weight holds as many values as its shape asks for.
  - `gather`: when a whole load, from the index and the shards it names,
    succeeds.
  - `tokenizer`: the byte-level vocabulary, the pre-tokenizing split, BPE
    merges, `encode` and `decode`.
- `app/` is the program around it: file reading, error reports, and the
  floating-point forward pass.
- `tests/` runs the library on concrete inputs.
