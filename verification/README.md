# llm_engine

The host side of an inference engine for small transformer checkpoints, written
and proved in Verus.

`src/` holds what the engine decides:

- `paged`, `tenancy`, `cache`, `prefill`, `packed`: who owns which page of cached keys and
  values, and which pieces of which prompts go into a call
- `launch`, `dataflow`, `gpu`, `graphs`, `profile`, `gpu_model`, `model`: which
  kernels a step launches, on which buffers and with which grids, when a captured
  graph is replayed, and what is copied back
- `chat_template`, `openai`, `anthropic`, `service`, `protocol`: how a
  conversation becomes a prompt, and what the adapters answer
- `harness`: workloads, schedules and acceptance rules of the command-line checks

Each module states its laws as public proof functions named `law_...`.

`app/` is ordinary Rust around it: the command line, files, the CUDA device, the
floating-point arithmetic, JSON and HTTP. Kernels are compiled at run time from
the source that `CRUCIBLE_KERNELS` names. The checks of continuous batching
(`app/scheduler.rs`), the HTTP endpoints (`app/http.rs`), text generation
(`app/generate.rs`) and the attention checks (`app/attention.rs`) run on whatever
implements the trait at the head of each file.

`tests/` runs the library on concrete values.
