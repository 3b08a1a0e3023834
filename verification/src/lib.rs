//! Parsing and state logic for an Android debugging terminal.

pub mod text;
pub mod scan;
pub mod logcat;
pub mod error;
pub mod device;
pub mod adb;
pub mod poll;
pub mod stats;
pub mod textmap;
pub mod storage_breakdown;
pub mod storage_gauge;
pub mod ram;
pub mod network;
pub mod protocols;
pub mod app_storage;
pub mod fingerprint;
pub mod config;
pub mod client;
pub mod snapshot_json;
pub mod reduce;
pub mod app_state;
pub mod ui_model;
