//! A verified core for a self-improving morning briefing.

pub mod bakeoff;
pub mod brief;
pub mod briefing;
pub mod cli;
pub mod config;
pub mod eval;
pub mod feedback;
pub mod ingest;
pub mod learn;
pub mod llm;
pub mod markup;
pub mod number;
pub mod render;
pub mod research;
pub mod scan;
pub mod optimize;
pub mod pipeline;
pub mod score;
pub mod semantic;
pub mod sorting;
pub mod sources;
pub mod store;
pub mod synthesis;
pub mod telegram;
pub mod text;
pub mod topics;
