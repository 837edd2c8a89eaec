# llama_rs

A CPU inference engine for Qwen2 and Qwen2.5 models, written in Verus.

`src/` is the verified library. Every function in it is proved against its contract; what it takes
from outside crates stands behind a few declarations whose contracts are believed, each with a
comment that says what it claims.

| Module | What it holds |
| --- | --- |
| `bytes`, `float`, `text`, `json` | byte order, bit patterns of floating-point values, text, JSON values |
| `quant`, `pack`, `tensor` | block formats: decoding, encoding, tensors, row products |
| `activation`, `simd`, `product` | eight-bit activations, integer kernels, matrix products in shares |
| `gguf`, `store`, `loader` | GGUF and safetensors files, load-time quantization, loading a model |
| `config`, `cache`, `architecture`, `model` | the Qwen2 forward pass and chunked prefill |
| `backend`, `kernels` | kernel selection, and the boundary to floating-point kernels |
| `sampling`, `settings`, `engine`, `benchmark` | nucleus sampling, tokenizer settings, generation, benchmark rounds |
| `track` | the history file of a performance control chart |

The library holds no floating-point arithmetic. Such a value travels through it as a bit pattern or
as a value of a type parameter; the arithmetic itself comes in through functions and traits.

`app/` is the program around the library: the command line, files, threads, random numbers and
single-precision arithmetic. It has three modes: chat (the default), `bench` and `track`.

`tests/` runs the library with the real outside crates.
