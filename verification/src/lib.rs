//! A minimal reverse-mode automatic-differentiation engine over scalar
//! values, for training tiny feed-forward networks by gradient descent.
//!
//! Scalars are IEEE 754 single-precision bit patterns held as plain `u32`
//! values; every arithmetic step on them is delegated to a caller-supplied
//! evaluator, so the verified engine owns the graph structure, the
//! topological ordering and the gradient-accumulation discipline, while the
//! numeric work happens outside it.

pub mod backward;
pub mod graph;
pub mod net;
pub mod topo;

pub use backward::backward_trace;
pub use backward::grad_acc;
pub use backward::lemma_diamond_accumulation;
pub use backward::lemma_product_gradients;
pub use backward::local_rel;
pub use graph::lemma_mutation_visibility;
pub use graph::tanh_requests;
pub use graph::Graph;
pub use graph::Node;
pub use graph::Operation;
pub use graph::ScalarRequest;
pub use graph::Value;
pub use graph::BITS_NEG_ONE;
pub use graph::BITS_ONE;
pub use graph::BITS_TWO;
pub use graph::BITS_ZERO;
pub use net::affine_chain;
pub use net::layer_applied;
pub use net::layer_fresh_init;
pub use net::layers_fresh_init;
pub use net::mlp_threaded;
pub use net::neuron_fresh_init;
pub use net::Layer;
pub use net::Mlp;
pub use net::Neuron;
pub use topo::build_topo;
pub use topo::visit;
pub use topo::is_topo_order;
pub use topo::reachable;
