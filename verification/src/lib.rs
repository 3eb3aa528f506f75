//! An equaliser engine for one audio endpoint, and everything around it that decides: how a
//! correction is written, read back, pushed to the running engine and faded in, how the effect is
//! attached to a machine, and what the application makes of it.

pub mod apo_backend;
pub mod apo_config;
pub mod applied_files;
pub mod applied_laws;
pub mod backend;
pub mod backend_laws;
pub mod cascade;
pub mod cascade_laws;
pub mod chain_laws;
pub mod config_laws;
pub mod config_writer;
pub mod control;
pub mod decimal;
pub mod directory;
pub mod double;
pub mod dsp;
pub mod effect_chain;
pub mod endpoint;
pub mod fingerprint;
pub mod format_laws;
pub mod hash_laws;
pub mod host;
pub mod instance;
pub mod natural;
pub mod ownership;
pub mod setup;
pub mod setup_cli;
pub mod setup_laws;
pub mod slots;
pub mod streams;
pub mod text;
pub mod utf16;
