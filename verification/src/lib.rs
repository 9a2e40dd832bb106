//! FlossKeeper: a DMC floss collection tracker.

pub mod text;
pub mod split;
pub mod numbers;
pub mod order;
pub mod catalog;
pub mod inventory;
pub mod collection;
pub mod app;
pub mod reports;
pub mod pattern;
pub mod backup;
pub mod paths;
pub mod json;
