# qwen_engine

The parts around a Qwen3.5 forward pass, verified with Verus: reading safetensors
headers, planning and executing block-aligned reads, opening checkpoints and golden
bundles, and comparing what a forward pass produced with what was recorded.

`src/` is the library. Every function states what it returns, which inputs it
refuses, and with which message. Floating-point numbers are carried as their bits.

- `header`, `plan`, `oracle`, `reader`, `aligned`, `cache`, `shards`, `summary`,
  `samples`: the loading layer. `header::accepted_header_is_wf` says what an accepted
  header guarantees, `plan::every_plan_is_sound` what a plan owes.
- `selftest`, `fuzz`: made-up files, malformed and random. `fuzz::no_case_is_unsound`
  holds of every file.
- `safetensors`, `checkpoint`: a checkpoint as named tensors, and as a model.
- `bundle`, `compare`, `loader`, `checks`, `delta`, `logits`, `corpus`: golden bundles
  and what is compared with them.
- `layout`, `gdn`, `attention`, `layer`, `model`: moving the values of tensors, and
  greedy decoding.
- `json`, `text`, `names`, `bytes`, `float_bits`, `args`: what the others rest on.
  `json`, `text` and `logits` hold the few calls whose contracts are taken on trust:
  into serde_json, and into the standard library for quoting and white space.

`app/` holds the command line tools: files, the ring, the page cache, and the
arithmetic of the forward pass, which is floating point.
