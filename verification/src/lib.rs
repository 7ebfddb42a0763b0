//! Sparse predictive hierarchies: the integer core, verified.
//!
//! - [`helpers`]: integer coordinates, row-major addressing, the PCG32 random
//!   stream, the ring buffer that holds an actor's history, and in-memory byte
//!   streams for saving and loading.
//! - [`stream`]: the little-endian byte format of saved models.
//! - [`field`]: receptive-field geometry and the kernels that sum and update
//!   the weights of one hidden column's field.
//! - [`weights`]: initial weights drawn from the random stream.
//! - [`saved`]: what a saved encoder, decoder, actor and hierarchy hold, their
//!   exact bytes, and a writer and a reader that reads back exactly what was
//!   written.
//! - [`partial`]: the weights alone, or the state alone, of a saved record,
//!   written and read back into a record of the same shape.
//! - [`hierarchy`]: the structure of a hierarchy (its ports, layers, decoders
//!   and actors and how they are indexed), the layer clock, and the header of
//!   a saved hierarchy.
pub mod field;
pub mod helpers;
pub mod hierarchy;
pub mod partial;
pub mod saved;
pub mod stream;
pub mod weights;
