//! A per-address balance index over unspent-output accounting.
//!
//! Blocks are normalised into [`model::SumTx`] values ([`normalize`]),
//! handed on in height order ([`pipeline`]) and applied, one block per call
//! and all-or-nothing, to a [`ledger::MerkleSumTree`], which resolves every
//! input through its [`cache::TxCache`] of unspent outputs and ranks the
//! addresses by what they hold ([`rank`]). [`codec`] holds the text forms
//! under which the state is persisted. [`laws`] and [`integrity`] state what
//! holds of every ledger.
pub mod assoc;
pub mod cache;
pub mod codec;
pub mod integrity;
pub mod laws;
pub mod ledger;
pub mod model;
pub mod normalize;
pub mod pipeline;
pub mod rank;
