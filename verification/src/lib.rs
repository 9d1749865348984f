//! Verified core of the korucha fund portfolio dashboard.
pub mod analysis;
pub mod config;
pub mod format;
pub mod import;
pub mod ledger;
pub mod pages;
pub mod quota;
pub mod schedule;
pub mod text;
pub mod transaction;
pub mod web;
