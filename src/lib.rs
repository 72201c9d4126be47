//! Composition-vector similarity of protein sequences: residue encoding, a
//! rolling k-mer index, a streaming record parser that counts windows, the
//! Markov background model with its sparse residual vector, the merge that
//! pairs two such vectors, and the bookkeeping of a parallel loading pipeline.
pub mod alphabet;
pub mod bacteria;
pub mod composition;
pub mod correlation;
pub mod error;
pub mod model;
pub mod parser;
pub mod pipeline;
pub mod window;
