pub mod app_data;
pub mod backup;
pub mod errors;
pub mod repl;
pub mod text;
