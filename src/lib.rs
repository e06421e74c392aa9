//! Reads Google-style Python docstrings into title, body, arguments, returns and raised
//! exceptions, and merges the documented arguments with the typed parameters of each
//! top-level function of a module.
pub mod cleandoc;
pub mod docstrings;
pub mod extract;
pub mod python;
pub mod text;
