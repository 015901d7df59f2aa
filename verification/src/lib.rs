//! Distributed SNARK building blocks over the BN254 scalar field: field
//! vector algebra, the distributed R1CS index (sparse matrices split among
//! sub-provers), lookup frequency counts, and the polynomial arithmetic used
//! by the prover and verifier.
pub mod arith;
pub mod circuits;
pub mod csr;
pub mod data_parallel;
pub mod field;
pub mod gadgets;
pub mod index;
pub mod index_polys;
pub mod lookup;
pub mod nevals;
pub mod poly;
pub mod prover;
pub mod snark;
