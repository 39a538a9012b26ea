pub mod archive;
pub mod chest;
pub mod container;
pub mod content;
pub mod db;
pub mod error;
pub mod indexed;
pub mod pathutil;
pub mod progress;
pub mod search;
pub mod strutil;
pub mod text;
