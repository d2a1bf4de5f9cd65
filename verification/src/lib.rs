//! Discovery and coordinated edit planning for sing-box server/client configs.
pub mod binding;
pub mod cli;
pub mod config;
pub mod error;
pub mod inspect;
pub mod journal;
pub mod json;
pub mod laws;
pub mod material;
pub mod plan;
pub mod protocol;
pub mod recovery;
pub mod singbox;
pub mod text;
