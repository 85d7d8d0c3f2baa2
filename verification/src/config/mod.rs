//! The configuration as it is written, and how it becomes rules.

pub mod combination;
pub mod coverage;
pub mod intercepts;
pub mod into_domain;
pub mod invalid_config_error;
pub mod parser;
pub mod rules;
pub mod values;
