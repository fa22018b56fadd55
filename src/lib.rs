//! A vocabulary that maps words to the positions at which they were added,
//! stored as a prefix tree with one edge per character.
pub mod node;
pub mod vocab;

pub use node::Node;
pub use vocab::Vocab;
