use vstd::prelude::*;

pub mod text;
pub mod database;
pub mod submissions;
pub mod challenges;
