//! Plugin loading, configuration trees and the services around them.

pub mod abi;
pub mod admissions;
pub mod bindings;
pub mod bridge;
pub mod changes;
pub mod codec;
pub mod config;
pub mod console;
pub mod decoding;
pub mod dict;
pub mod entry;
pub mod evaluator;
pub mod expression;
pub mod forest;
pub mod glob;
pub mod graph;
pub mod hmr;
pub mod hooks;
pub mod laws;
pub mod lifecycle;
pub mod list;
pub mod loader;
pub mod mount;
pub mod moves;
pub mod names;
pub mod naming;
pub mod options;
pub mod overrides;
pub mod patches;
pub mod patterns;
pub mod places;
pub mod random;
pub mod readings;
pub mod reconcile;
pub mod reload;
pub mod relocations;
pub mod roundtrip;
pub mod searches;
pub mod so;
pub mod text;
pub mod timer;
pub mod tree;
pub mod updates;
pub mod value;
pub mod views;
pub mod wording;
pub mod yaml;
