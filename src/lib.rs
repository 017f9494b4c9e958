pub mod error;
pub mod eval;
pub mod tape;
pub mod token;

pub use crate::error::InterpError;
pub use crate::eval::{execute, process_token, run_program, Machine};
pub use crate::tape::Tape;
pub use crate::token::{Token, TokenTree};
