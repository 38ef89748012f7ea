# lfm2_moe

The decision logic of a quantized mixture-of-experts causal decoder, verified
with Verus: what is checked, chosen, counted, stored and committed between the
numeric kernels, for every input.

## The library (`src/`)

| module | what it decides |
| --- | --- |
| `gguf`, `model` | the configuration in a model file, the tensors it asks for, the model built from them, states of sequences |
| `layers` | how projections and expert weights are bundled, and the steps of a layer's experts |
| `pass`, `pass_laws` | a forward pass as a transaction, and what holds of every pass |
| `pass_runs`, `pass_values` | what a whole pass leaves behind, and what it computes, for whatever numbers |
| `steering` | replaced router biases for one call |
| `kv_cache` | append-only key/value storage with frozen, branchable prefixes |
| `conv` | histories of the short convolution, kept per batch |
| `attention` | grouped query heads and the causal mask |
| `ops`, `elements` | expert selection, which form of a fused operation runs, and which elements it works on |
| `moe`, `quantized`, `packed` | dispatch of the indexed expert matmul, block formats, stacking packed weights |
| `greedy` | greedy sampling with a repetition penalty over the whole history |
| `exit` | which device releases are let through while a process exits, under every interleaving |
| `cross_loop_reuse` | loops of a tile program that read a view again |
| `tensor`, `ieee` | devices, shapes, and single-precision numbers as bit patterns |

Numbers are never computed with in the library. Where a decision depends on
one, it is handed over as its bit pattern and only compared.

A public `proof fn` whose name starts with `law_` states something that holds
across functions; its comment says it in words.

## Around it (`app/`)

A CPU executor of passes, the launches that a plan asks of a ROCm device, the
process-wide exit hook, a sampler of float logits, the analysis of a compiler
context, and a parity probe of a loaded decoder.

## Tests (`tests/`)

`decoder.rs` runs whole passes of a tiny decoder; the others go module by
module.
