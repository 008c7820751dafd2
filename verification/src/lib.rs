//! A trace-driven simulator of the Landlord weighted caching policy.
//!
//! Landlord keeps a credit for every cached item. A fault that finds no room
//! charges every item in proportion to its size until one runs out of credit
//! and is evicted. The simulator serves one trace with two such caches, a
//! full cache and a suffix cache that starts at a given position, and keeps
//! a ledger of what each request cost and of the pressure it put on each.
//!
//! Credits and pressures are fixed-point numbers: whole counts of
//! `1 / CREDIT_SCALE` of a unit of cost (see [`credit`]). Ratios are kept as
//! pairs of sums (see [`cost::Ratio`]). The engine is specified as a function
//! on states (see [`model`]), the driver as its iteration over a trace (see
//! [`run`]), and what holds of every run is proved in [`theorems`].

pub mod cache;
pub mod cost;
pub mod credit;
pub mod item;
pub mod labels;
pub mod landlord;
pub mod logger;
pub mod model;
pub mod policy;
pub mod pressure;
pub mod prng;
pub mod run;
pub mod slots;
pub mod theorems;
pub mod trace;
pub mod tiebreak;

pub use cost::RequestFullOrSuffix;
pub use item::Item;
pub use landlord::Landlord;
pub use model::RequestResult;
pub use policy::{HitPolicy, TiebreakingPolicy};
