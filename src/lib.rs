//! A directed, acyclic audio processing graph with a pull-based renderer.

mod graph;
mod laws;
mod node;
mod user;

pub use graph::{without, Graph, GraphError, NodeIndex};
pub use laws::{lemma_disconnect_undoes_connect, lemma_removed_is_unknown, lemma_reverse_connect_refused};
pub use node::{mix, mix_sample, silence, Node, SAMPLE_MAX, SAMPLE_MIN};
pub use user::{Query, User, UserKind};
