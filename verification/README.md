# tiny_llm

A small language model in verified Rust: layers, attention bookkeeping, experts, losses and
optimisers, low-rank adapters, weight quantisation with and without calibration, and the plans and
checks of the experiments around them.

Numbers are single precision and are carried as their bit patterns (`u32`). Sums, products,
quotients and square roots are computed on whole numbers and proved to be the nearest single
precision number, so that contracts speak of the bits that come out. Curves whose last bits depend
on the machine (exponential, logarithm, activations), attention and dropout are handed in as
functions, and contracts speak of what these functions may return. Random numbers come as a tape of
normal draws.

## Layout

- `src/` is the library.
  - Numbers: `float_bits`, `rounding`, `roots`, `order_laws`.
  - Codes and matrices of codes: `codes`, `quant`, `qmatrix`, `quant_laws`.
  - Calibrated quantisation: `calib`, `calibrate`, `calibrate_laws`, `linalg`, `gptq`, `gptq_laws`,
    `hessian_laws`, `awq`, `awq_scaling`, `awq_laws`.
  - Layers: `params`, `matrix`, `layers`, `layer_quant`, `layer_laws`, `norms`, `mlp`, `embedding`,
    `attention`, `softmax`, `loss`, `loss_laws`, `probability_laws`, `optim`.
  - Experts: `moe`, `moe_laws`, `moe_layer`, `moe_forward`, `moe_tokens`, `pass_laws`, `sparse`.
  - The model: `config`, `block`, `block_quant`, `model`, `model_ops`, `model_tune`, `model_run`,
    `forward`, `tracing`, `trace_laws`, `resident`, `names`, `census`, `quant_runs`, `quant_steps`.
  - Text and arguments: `text`, `chars`, `grids`, `cli`, `chat`, `report`, `report_text`,
    `scan_table`, `plans`.
  - Experiments: `moe_lab`, `dist`, `shares`, `replicas`, `prefs`, `margins`, `chunks`, `retrieval`,
    `drafts`, `trials`, `demo`.
- `tests/` runs the library on concrete values.
- `app/` is the program around it: arguments, files, floating-point curves, threads.

Public proof functions state what holds of several functions together; their doc comments say it in
words.
