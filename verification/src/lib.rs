use vstd::prelude::*;

pub mod archive;
pub mod bytes;
pub mod cover;
pub mod crypto;
pub mod errors;
pub mod pipeline;
pub mod trailer;
pub mod utils;
