pub mod color;
pub mod config;
pub mod quote;
pub mod session;
pub mod text;
pub mod tui;

pub use color::Color;
pub use quote::Quote;
