pub mod text;
pub mod comment;
pub mod fm;
pub mod loc;
pub mod todo;
pub mod mode;
pub mod purge;
pub mod tag;
pub mod scan;
pub mod util;
pub mod prompt;
pub mod cli;
pub mod gh;
pub mod issue;
pub mod git;
pub mod config;
