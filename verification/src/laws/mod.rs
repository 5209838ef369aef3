pub mod layout;
pub mod balance;
pub mod steps;
pub mod simulate;
pub mod frontend;
pub mod tiers;
pub mod passes;
pub mod backend;
pub mod agreement;
pub mod fusion;
pub mod clear;
