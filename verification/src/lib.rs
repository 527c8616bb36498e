//! Return-to-player arithmetic for a five-reel slot machine: reel strips,
//! pay lines, line counting, the pay table, and the statistics of the base,
//! bonus and feature games, each with a verified contract.

pub mod card;
pub mod count;
pub mod games;
pub mod pay;
pub mod reel;
pub mod spin;
