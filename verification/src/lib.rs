//! A polite, scope-constrained crawl engine: URL handling, scope and robots
//! policy, per-pattern budgets, a deduplicating frontier and the session that
//! ties them together. The engine performs no I/O: it decides what to fetch
//! next and is told what came back.

pub mod text;
pub mod url;
pub mod scope;
pub mod budget;
pub mod frontier;
pub mod robots;
pub mod cache;
pub mod extract;
pub mod outcome;
pub mod pacing;
pub mod session;
pub mod service;
pub mod progress;
