//! The poker variants.
pub mod fivecarddraw;
pub mod sevencardstud;
pub mod texasholdem;
