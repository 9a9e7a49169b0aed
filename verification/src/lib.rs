//! Merkle audit trees over directories: building, hashing, exporting,
//! comparing and presenting them.

pub mod audit;
pub mod cards;
pub mod diff;
pub mod explorer;
pub mod export;
pub mod filter;
pub mod graph;
pub mod hashing;
pub mod history;
pub mod layout;
pub mod loading;
pub mod merkle;
pub mod moves;
pub mod navigation;
pub mod node;
pub mod paths;
pub mod reports;
pub mod scan;
pub mod session;
pub mod sort;
pub mod text;
pub mod visible;
pub mod watcher;
