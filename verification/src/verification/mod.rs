//! Verification of proofs.

pub mod acceptance;
pub mod batch_constraints;
pub mod batch_laws;
pub mod batch_soundness;
pub mod batch_sumcheck;
pub mod batching;
pub mod conversation;
pub mod final_check;
pub mod fold;
pub mod interaction_laws;
pub mod interpolation;
pub mod interpolation_laws;
pub mod line_sums;
pub mod merkle_check;
pub mod opening_laws;
pub mod polynomial_fold;
pub mod power_sums;
pub mod proof_shape;
pub mod protocol;
pub mod protocol_laws;
pub mod refusal_laws;
pub mod statement_laws;
pub mod subprotocols;
pub mod sumcheck_laws;
pub mod trace_order;
pub mod weight_lines;
pub mod whir;
pub mod whir_binding;
pub mod whir_completeness;
pub mod whir_soundness;
