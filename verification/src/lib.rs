//! Verified core of a batch downloader: it resolves each episode of a
//! catalog title to a list of resource locators, fetches the resources
//! under a shared bounded concurrency budget, and packages each episode's
//! payloads, in locator order, into one uncompressed archive — isolating
//! per-episode failures and aggregating their messages into a batch
//! report.

pub mod agent;
pub mod archive;
pub mod catalog;
pub mod config;
pub mod orchestrator;
pub mod selection;
pub mod text;
