//! Finite orders over a universe of indexed elements, and packed collections of them.
//!
//! Orders rank a universe of `elements` elements, each named by its index. A chain
//! ranks every element or a subset of them, highest first; a tied order also says which
//! adjacent ranks are tied; a cardinal order scores each element; a binary order ranks
//! each element high or low; a specific order has one winner. The dense collections pack
//! many orders of one kind into flat arrays.
pub mod perm;
pub mod partial_order;
pub mod order;
pub mod random;
pub mod sort;
pub mod binary;
pub mod cardinal;
pub mod chain;
pub mod specific;
pub mod tied;
pub mod dense;
pub mod total_dense;
pub mod chain_dense;
pub mod tied_dense;
pub mod cardinal_dense;
pub mod specific_dense;

pub use binary::{Binary, BinaryRef};
pub use cardinal::{Cardinal, CardinalRef};
pub use cardinal_dense::CardinalDense;
pub use chain::{Chain, ChainI, ChainIRef, ChainRef};
pub use chain_dense::ChainIDense;
pub use dense::{AddError, DenseOrders};
pub use order::{Order, OrderOwned, OrderRef};
pub use partial_order::{PartialOrder, PartialOrderManual};
pub use sort::{get_order, sort_using};
pub use specific::Specific;
pub use specific_dense::SpecificDense;
pub use tied::{Tied, TiedIRef, TiedRef};
pub use tied_dense::TiedDense;
pub use total_dense::TotalDense;
pub use perm::{pairwise_lt, unique_and_bounded};
