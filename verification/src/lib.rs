//! A guard for untrusted `yrs` version 1 update bytes: it accepts an update only if
//! the bytes follow the update grammar to their very end and every string they embed
//! is valid UTF-8.

pub mod faithful;
mod faithful_any;
pub mod faithful_update;
pub mod forms;
pub mod grammar;
pub mod laws;
mod locality;
pub mod model;
mod nesting;
pub mod numbers;
pub mod reader;
pub mod refusals;
pub mod reject;
pub mod text;
pub mod text_laws;
pub mod validate;
pub mod values;
pub mod wire;
