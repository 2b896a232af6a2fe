//! Ferroplan: the verified core of a planning engine's ingress, guards and
//! bookkeeping.

pub mod action;
pub mod api;
pub mod binding;
pub mod bitset;
pub mod claims;
pub mod constraints;
pub mod costs;
pub mod dfcm_route;
pub mod digest;
pub mod effect;
pub mod dnf;
pub mod eve;
pub mod features;
pub mod full_planning;
pub mod ground;
pub mod grounding;
pub mod hash;
pub mod hddl;
pub mod intern;
pub mod monitor;
pub mod probe_guard;
pub mod reach;
pub mod readiness;
pub mod receipt;
pub mod text;
pub mod types;
pub mod wire;
