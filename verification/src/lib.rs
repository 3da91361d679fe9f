//! Tree representation and genetic operators for genetic programming:
//! depth-controlled random tree generation, individuals with cached node
//! counts, and subtree-exchange crossover.

pub mod crossover;
pub mod gen;
pub mod individual;
pub mod random;
pub mod tree;

pub use gen::GpError;
pub use gen::TreeGen;
pub use gen::TreeGenMode;
pub use crossover::Crossover;
pub use crossover::CrossoverMode;
pub use individual::Individual;
pub use tree::Node;
