//! A runner for flows of HTTP calls.
//!
//! A flow is a Mermaid chart and a configuration per node; an environment adds
//! the host, the tokens and seed variables. `flow` joins a chart with its
//! configuration, `engine` runs one step, `walk` and `worker` decide how a run
//! goes on, `commands` speaks of whole runs of the worker, and `diagram`,
//! `runner_ui`, `session` and `picker` hold what is shown. The contracts speak of
//! mathematical models; `text`, `strmap`, `json`, `yaml`, `chart` and `graph` are
//! the vocabulary they are written in.

pub mod branch;
pub mod chart;
pub mod cli;
pub mod commands;
pub mod config;
pub mod diagram;
pub mod engine;
pub mod error;
pub mod flow;
pub mod graph;
pub mod json;
pub mod layout;
pub mod palette;
pub mod path;
pub mod picker;
pub mod runner_ui;
pub mod session;
pub mod strmap;
pub mod template;
pub mod text;
pub mod tree;
pub mod walk;
pub mod worker;
pub mod yaml;
