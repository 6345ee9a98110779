//! Index-keyed sets over pluggable stores: bit chunks, arrays of chunks, and a growable chunked store.
//!
//! Every store exposes its contents as a mathematical set of indexes; the capability traits of [`index`]
//! specify each operation over that set, and the containers of [`set`] are verified against those contracts.

pub mod chunk;
pub mod index;
pub mod laws;
pub mod not;
pub mod set;
pub mod vault;
