//! Coordination-free multi-agent learning rules: permutation symmetry,
//! conserved charges and join-semilattices.
pub mod order;
pub mod agent;
pub mod calm;
pub mod noether;
pub mod text;
pub mod pure;
pub mod aci;
pub mod conservation;
pub mod plato;
pub mod lyapunov;
pub mod generator;
pub mod partition;
