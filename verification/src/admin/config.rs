//! The admin CLI re-uses the same config.toml format as the daemon; only the
//! `[kimai]` section is read.

use vstd::prelude::*;
use crate::config::{effective_token, opt_string_view};

verus! {

pub struct Config {
    pub kimai: KimaiConfig,
}

pub struct KimaiConfig {
    pub url: String,
    pub token: String,
}

/// `kimai.token` is empty in the file and no `KIMAI_TOKEN` replaces it.
pub enum AdminConfigError {
    EmptyToken,
}

impl Config {
    /// Same precedence as the daemon: the `KIMAI_TOKEN` env var (when set and
    /// not empty) beats the file; the resulting token must not be empty.
    pub fn with_env_token(self, env_token: Option<String>) -> (r: Result<Config, AdminConfigError>)
        ensures
            effective_token(self.kimai.token@, opt_string_view(env_token)).len() == 0 ==> r is Err,
            effective_token(self.kimai.token@, opt_string_view(env_token)).len() > 0 ==> (r matches Ok(
                c,
            ) && c.kimai.url == self.kimai.url && c.kimai.token@ == effective_token(
                self.kimai.token@,
                opt_string_view(env_token),
            )),
    {
        let mut config = self;
        match env_token {
            Some(t) => {
                if !t.as_str().is_empty() {
                    config.kimai.token = t;
                }
            },
            None => {},
        }
        if config.kimai.token.as_str().is_empty() {
            return Err(AdminConfigError::EmptyToken);
        }
        Ok(config)
    }
}

} // verus!
