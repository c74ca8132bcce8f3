//! A Procfile-based process manager: the parsing, formation, port and
//! environment rules, and the supervisor's shutdown decisions.
pub mod num;
pub mod output;
pub mod text;
pub mod keyed;
pub mod env;
pub mod procfile;
pub mod process;
pub mod export;
pub mod start;
pub mod supervisor;
