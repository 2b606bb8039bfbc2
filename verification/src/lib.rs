//! A text-space optimizer for agent skills.

pub mod adapter;
pub mod artifacts;
pub mod calculator;
pub mod calls;
pub mod config;
pub mod cosine;
pub mod data;
pub mod distance;
pub mod gate;
pub mod gradient;
pub mod memory;
pub mod merge;
pub mod numbers;
pub mod numeric;
pub mod openai;
pub mod patch;
pub mod rank;
pub mod scheduler;
pub mod scoring;
pub mod single;
pub mod single_laws;
pub mod tame;
pub mod text;
pub mod train;
pub mod types;
