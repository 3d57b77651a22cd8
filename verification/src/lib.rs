//! Chat-bot command handling: user lists, admin commands, custom shell
//! commands and dice terms, as verified functions over plain values.

pub mod text;
pub mod number;
pub mod shell;
pub mod admin;
pub mod cbot;
pub mod command_bot;
pub mod dice;
