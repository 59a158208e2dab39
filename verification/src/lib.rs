//! Rules for the tool calls of a coding agent, in the manner of a packet filter.
//!
//! A tool call is matched against tables of rules. A shell command line is first taken
//! apart into the commands that it runs; each is decided by itself, and the strictest
//! decision counts.
//!
//! * [`shell_parser`] takes command lines apart; [`shell_grammar`] says what is in one.
//! * [`lexer`] and [`dsl`] read configurations and project rules; [`dsl_grammar`] says
//!   what they mean.
//! * [`config`] and [`constants`] hold, check and prepare configurations.
//! * [`engine`] decides about tool calls; [`engine_model`] says what is decided.
//! * [`local`] finds and reads the rules of a project.
//! * [`hook_io`] and [`report`] put results into answers and reports; [`error`] and
//!   [`message`] hold what can go wrong, and its wording.
//! * [`patterns`] holds what is taken from the `regex` crate; [`text`], [`paths`],
//!   [`strmap`] and [`world`] are what the rest is built on.
//! * The `*_properties` modules state what holds of all of it together.
pub mod command_properties;
pub mod config;
pub mod config_properties;
pub mod constants;
pub mod decision_properties;
pub mod dsl;
pub mod dsl_grammar;
pub mod engine;
pub mod engine_model;
pub mod engine_properties;
pub mod error;
pub mod grammar_properties;
pub mod hook_io;
pub mod language_properties;
pub mod lexer;
pub mod lexer_properties;
pub mod line_properties;
pub mod local;
pub mod matching_properties;
pub mod message;
pub mod paths;
pub mod paths_properties;
pub mod patterns;
pub mod preparation_properties;
pub mod reading_properties;
pub mod report;
pub mod shell_grammar;
pub mod shell_parser;
pub mod shell_properties;
pub mod spelling_properties;
pub mod strmap;
pub mod text;
pub mod text_properties;
pub mod world;
pub mod writing_properties;
