//! Server settings, as the process environment gives them.
use vstd::prelude::*;

verus! {

/// Why the settings could not be read.
pub enum ConfigError {
    /// A required variable is missing; it holds the variable's name.
    EnvVarNotFound(String),
    /// A variable does not parse; it holds the variable and the reason.
    EnvVarParseError(String),
}

pub struct ServerConfig {
    pub host: String,
    pub port: u16,
    pub workers: usize,
}

pub struct LoggingConfig {
    pub level: String,
    /// "json" or "text".
    pub format: String,
    pub file_path: Option<String>,
}

pub struct Config {
    pub server: ServerConfig,
    pub logging: LoggingConfig,
}

} // verus!
