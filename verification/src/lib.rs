//! Logic of the Steam achievement panel: parsing of Steam library files,
//! achievement rows, the panel's state machine and the text helpers they use.

pub mod number;
pub mod order;
pub mod panel;
pub mod text;
pub mod achievements;
pub mod bridge;
pub mod library;
pub mod vdf;
