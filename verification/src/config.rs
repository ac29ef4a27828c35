//! Where the service finds its database and where it listens.

use vstd::prelude::*;

verus! {

/// The settings that the service cannot start without.
#[derive(Clone, Debug, PartialEq, Eq)]
pub struct Config {
    pub database_url: String,
    pub server_addr: String,
}

/// A setting that must be set and is not.
#[derive(Clone, Copy, Debug, PartialEq, Eq, Structural)]
pub enum ConfigError {
    MissingDatabaseUrl,
    MissingServerAddr,
}

impl ConfigError {
    /// The text of the refusal.
    pub open spec fn spec_message(self) -> Seq<char> {
        match self {
            ConfigError::MissingDatabaseUrl => "DATABASE_URL must be set"@,
            ConfigError::MissingServerAddr => "SERVER_ADDR must be set"@,
        }
    }

    /// The text shown when the service refuses to start.
    pub fn message(&self) -> (text: String)
        ensures
            text@ == self.spec_message(),
    {
        match self {
            ConfigError::MissingDatabaseUrl => "DATABASE_URL must be set".to_owned(),
            ConfigError::MissingServerAddr => "SERVER_ADDR must be set".to_owned(),
        }
    }
}

impl Config {
    /// Makes the configuration from the two settings as they were found. The
    /// database address is asked for first.
    pub fn init(database_url: Option<String>, server_addr: Option<String>) -> (config: Result<
        Config,
        ConfigError,
    >)
        ensures
            match (database_url, server_addr) {
                (Some(url), Some(addr)) => config matches Ok(made) && made.database_url == url
                    && made.server_addr == addr,
                (None, _) => config matches Err(error) && error == ConfigError::MissingDatabaseUrl,
                (Some(_), None) => config matches Err(error) && error
                    == ConfigError::MissingServerAddr,
            },
    {
        match database_url {
            None => Err(ConfigError::MissingDatabaseUrl),
            Some(database_url) => match server_addr {
                None => Err(ConfigError::MissingServerAddr),
                Some(server_addr) => Ok(Config { database_url, server_addr }),
            },
        }
    }
}

} // verus!
