# dcc_sph

Sparse predictive hierarchies: a stack of sparse coding layers that encode
columnar sparse inputs upward and decoders that predict them back downward,
with an actor-critic head for reinforcement learning.

- `src/` is the verified library: the integer core. It holds coordinates and
  addressing, the PCG32 random stream, the history ring buffer, the saved-model
  byte format with in-memory writer and reader, the saved encoder, decoder,
  actor and hierarchy records with a writer and a reader proved to read back
  what was written (whole, or their weights alone, or their state alone), the receptive-field geometry
  with the kernels that sum and update a hidden column's weights, initial
  weights, and the structure of a hierarchy (which encoders, decoders and actors
  it builds, how IO ports index them, and which layers run on each step). Each
  function carries a contract that Verus proves.
- `app/` holds what is floating point or process state: the encoder's ART
  scores, the decoder's dendrite activations and softmax, the actor's value and
  policy heads, the hierarchy's step, the conversion of
  floats to and from the bit patterns that the saved records hold, the
  thread-local random stream, file streams and the rayon thread pool. It drives the verified kernels.
- `tests/` runs the library on concrete values.
