//! The core of a terminal multiplexer for fleets of coding agents.

pub mod agent;
pub mod asking_laws;
pub mod broadcast;
pub mod broadcast_laws;
pub mod cards;
pub mod clock;
pub mod commands;
pub mod control;
pub mod control_laws;
pub mod daemon_laws;
pub mod documents;
pub mod engine;
pub mod engine_laws;
pub mod firing;
pub mod fleet;
pub mod fleet_laws;
pub mod handoff;
pub mod import;
pub mod journal;
pub mod keeping_laws;
pub mod layout;
pub mod lifecycle;
pub mod notebook;
pub mod notes;
pub mod notice_laws;
pub mod notify;
pub mod nudge;
pub mod pane;
pub mod pane_laws;
pub mod paths;
pub mod persist;
pub mod preset;
pub mod proto;
pub mod queries;
pub mod question;
pub mod question_laws;
pub mod reader;
pub mod recents;
pub mod record_laws;
pub mod repo;
pub mod repo_laws;
pub mod requests;
pub mod restart;
pub mod rpc;
pub mod schedule;
pub mod schedule_laws;
pub mod seqs;
pub mod servers;
pub mod session_laws;
pub mod snapshot;
pub mod soundness;
pub mod starting;
pub mod state;
pub mod structure;
pub mod succession;
pub mod succession_laws;
pub mod survival;
pub mod task_laws;
pub mod tasks;
pub mod text;
pub mod text_laws;
pub mod trigger_laws;
pub mod triggers;
pub mod upgrade;
pub mod vault;
pub mod vault_laws;
