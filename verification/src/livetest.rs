//! Running against a real cluster: what to ask of it, and what its answers
//! amount to.

pub mod assignment;
pub mod command;
pub mod exactly_once;
pub mod fact_laws;
pub mod inventory;
pub mod principal;
pub mod probe;
pub mod produce;
pub mod read;
pub mod report;
pub mod setting_laws;
pub mod smoke;
pub mod suite;
pub mod sweep;
pub mod target;
pub mod traffic;
pub mod verdict_laws;
