//! Managed SQLite change-capture triggers: SQL generation, trigger-name
//! recognition, change planning, and the text the command line prints.

pub mod text;
pub mod sql;
pub mod names;
pub mod hash;
pub mod trigger;
pub mod plan_laws;
pub mod statement_form;
pub mod commands;
pub mod log_export;
pub mod schema_source;
