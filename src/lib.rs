pub mod classpath;
pub mod conditions;
pub mod config;
pub mod declarative;
pub mod lex;
pub mod pkg;
pub mod repo;
pub mod resolve;
pub mod routine;
pub mod script;
pub mod target;
pub mod text;
pub mod versions;
