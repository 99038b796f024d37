//! Session-aware terminology selection for speech recognition and translation.

pub mod text;
pub mod language;
pub mod corpus;
pub mod dialogue;
pub mod protocol;
pub mod fold;
pub mod prompt;
pub mod rows;
pub mod budget;
pub mod select;
pub mod selection;
pub mod matching;
pub mod correction;
pub mod snapshot;
pub mod order;
pub mod graph;
pub mod catalog;
pub mod evidence;
pub mod activation;
pub mod config;
pub mod manager;
pub mod projection;
pub mod vrcx;
pub mod service;
pub mod client;
