# tflite_server

A small HTTP service that runs TensorFlow Lite models, split into a verified
library and a thin front end.

- `src/` is the library, with its contracts and proofs:
  - `cache.rs`: the interpreter cache (at most three entries, keyed by model
    path and freshness key) and its laws;
  - `paths.rs`: keeping requested model paths inside the model directory;
  - `json.rs`, `tensor.rs`: JSON tensors — shape, flattening, element types,
    nesting output along a shape, and the read-back laws;
  - `invoke.rs`: request inputs, their assignment to model inputs, and the
    description of model inputs and outputs;
  - `models.rs`: model file listing, ordering, digests and upload checks;
  - `proc_stats.rs`, `text.rs`: the text parsing and formatting underneath.
- `app/` is the server itself: routing, files, model loading and inference
  through tract, and JSON (de)serialization.
- `tests/` exercises the library on concrete values.
