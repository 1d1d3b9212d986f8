pub mod builtins;
pub mod jobs;
pub mod parser;
pub mod plan;
pub mod sys;
pub mod text;
