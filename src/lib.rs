//! A line filter that paints the capture groups of regular expressions with
//! 24-bit terminal colors.
//!
//! The verified core is the splicing of styled capture groups into a line
//! (`rule`), the first-match selection over a list of rules (`stylize`), the
//! color model (`color`) and the configuration model (`config`).
pub mod color;
pub mod config;
pub mod rule;
pub mod stylize;

pub use colored::Color;
