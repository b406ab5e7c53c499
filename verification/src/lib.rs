//! A PLONK-style constraint system over the scalar field of BLS12-381:
//! field elements, evaluation domains and polynomials, the copy-constraint
//! permutation argument, the range gate, the curve-addition gate, proof
//! evaluation helpers and a Fiat-Shamir transcript.
pub mod commitment;
pub mod constraint_system;
pub mod copy_argument;
pub mod cosets;
pub mod curve_addition;
pub mod dft;
pub mod domain;
pub mod field;
pub mod grand_product;
pub mod permutation;
pub mod proof_system;
pub mod range;
pub mod transcript;

