//! Reading an sxhkd configuration: where the file lives, which of its lines
//! count, and how the lines that count pair up into hotkeys and commands.

pub mod assembler;
pub mod error;
pub mod locator;
pub mod pipeline;
pub mod sanitizer;
pub mod text;
