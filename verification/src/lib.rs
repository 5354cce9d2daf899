//! Verified core of a local-first personal-finance application for Indian
//! retail bank statements: statement aggregation, loan and investment
//! summaries, categorization plumbing and the text formats they store.

pub mod dashboard;
pub mod export;
pub mod investments;
pub mod llm;
pub mod llm_config;
pub mod loans;
pub mod merchant_cache;
pub mod money;
pub mod sorting;
pub mod stamps;
pub mod stored;
pub mod sums;
pub mod text;
pub mod transactions;
pub mod upload;
