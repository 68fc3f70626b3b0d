//! Exact change-making with bounded quantities: finds, for an amount and a
//! multiset of denominations, a combination that sums exactly to the amount
//! with the fewest items, or reports why none exists.
//!
//! - `caisse`: validation of the entries and their normalized wallet;
//! - `recherche`: the branch-and-bound search over the wallet;
//! - `rendu`: the entry point, and the textbook variant built on it;
//! - `lois`: what holds of every outcome.

pub mod caisse;
pub mod lois;
pub mod monnaie;
pub mod recherche;
pub mod rendu;

pub use monnaie::{Coupure, Defaut, Monnaie, MonnaieExtension, RenduError};
pub use rendu::{coin_change, rendu_de_monnaie};
