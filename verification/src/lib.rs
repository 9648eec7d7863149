//! Associative memory models: packed symmetric and dense weight stores, the
//! state-vector algebra they share, and the recall and learning rules built
//! on top of them.

pub mod algebra;
pub mod classic;
pub mod dmatrix;
pub mod modern;
pub mod pcn;
pub mod smatrix;
pub mod state;
pub mod threshold;
