# wgpu_tensor

Tensors on the GPU through wgpu, with automatic differentiation.

- `src/` is the library, verified with Verus: shapes and broadcasting, the
  broadcast parameter block and the device's index arithmetic, fast
  division, launch grids, buffer and pool sizes, reduction chains, staging
  offsets, parameter-block placement and the learning-step bookkeeping.
  Every operation is planned there from shapes alone, and the laws that tie
  the plans together (the device reads the elements the broadcast defines,
  a reduction chain reaches its target, staging chunks never overlap, a
  pooled buffer holds its tensor, ...) are proof functions beside them.
- `app/` is the GPU side: devices, buffers, pipelines, command encoding,
  host transfers, floating-point composites, layers and optimizers. It
  carries out the library's plans. The kernels' WGSL sources are handed in
  by the embedding application (`ShaderSources`).
- `tests/` runs the library on concrete values.
