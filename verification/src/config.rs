//! Configuration: every setting has a default, each can come from an
//! `ORDERBOOK_`-prefixed environment variable, and the `--pair`/`--port`
//! flags override the environment.

use vstd::prelude::*;

use crate::text::{parse_u16, spec_parse_u16, str_chars};

verus! {

/// Environment-variable prefix for every setting.
pub const ENV_PREFIX: &'static str = "ORDERBOOK_";

/// The port the service binds to by default.
pub const DEFAULT_PORT: u16 = 50051;

/// The service's settings.
#[derive(Debug, Clone, PartialEq, Eq)]
pub struct Config {
    /// `RUST_LOG`-style filter, e.g. "info".
    pub log_level: String,
    /// Address the service binds to. Must be 0.0.0.0 inside a container.
    pub host: String,
    pub port: u16,
    /// Traded pair the aggregator streams, e.g. "ethbtc".
    pub pair: String,
}

/// Why a configuration could not be built.
#[derive(Debug)]
pub enum ConfigError {
    /// The port setting is not a valid port number; holds the raw value.
    InvalidPort(String),
}

/// The text `<str as Debug>` writes for `s`: `s` quoted, with its special
/// characters escaped.
pub uninterp spec fn spec_debug_text(s: Seq<char>) -> Seq<char>;

/// `<str as Debug>::fmt`, through `format!("{:?}")`: `s` quoted and escaped.
#[verifier::external_body]
fn debug_text(s: &str) -> (r: String)
    ensures
        r@ == spec_debug_text(s@),
{
    format!("{:?}", s)
}

impl ConfigError {
    /// What the error says at startup: which setting was wrong, and the
    /// value it held.
    pub fn message(&self) -> (m: String)
        ensures
            match self {
                ConfigError::InvalidPort(raw) => m@ == ENV_PREFIX@ + "PORT is not a valid port number: "@
                    + spec_debug_text(raw@),
            },
    {
        match self {
            ConfigError::InvalidPort(raw) => {
                let mut m = String::from_str(ENV_PREFIX);
                m.append("PORT is not a valid port number: ");
                let quoted = debug_text(raw.as_str());
                m.append(quoted.as_str());
                m
            },
        }
    }
}

impl Default for Config {
    fn default() -> (c: Self)
        ensures
            c.log_level@ == "info"@,
            c.host@ == "127.0.0.1"@,
            c.port == DEFAULT_PORT,
            c.pair@ == "ethbtc"@,
    {
        Config {
            log_level: String::from_str("info"),
            host: String::from_str("127.0.0.1"),
            port: DEFAULT_PORT,
            pair: String::from_str("ethbtc"),
        }
    }
}

/// `value` if present, else `default`.
fn or_default(value: Option<String>, default: String) -> (r: String)
    ensures
        r == (match value {
            Some(v) => v,
            None => default,
        }),
{
    match value {
        Some(v) => v,
        None => default,
    }
}

impl Config {
    /// Builds the configuration from the values of the `ORDERBOOK_LOG_LEVEL`,
    /// `ORDERBOOK_HOST`, `ORDERBOOK_PORT` and `ORDERBOOK_PAIR` settings
    /// (`None` for an absent one), falling back to the defaults. An
    /// unparseable port is an error rather than a silent fallback: starting
    /// on a port nobody asked for is worse than refusing to start.
    pub fn from_vars(
        log_level: Option<String>,
        host: Option<String>,
        port: Option<String>,
        pair: Option<String>,
    ) -> (r: Result<Config, ConfigError>)
        ensures
            match port {
                Some(raw) => spec_parse_u16(raw@) is None <==> r is Err,
                None => r is Ok,
            },
            r matches Err(ConfigError::InvalidPort(raw)) ==> port == Some(raw),
            r matches Ok(c) ==> {
                &&& c.log_level@ == (match log_level {
                    Some(v) => v@,
                    None => "info"@,
                })
                &&& c.host@ == (match host {
                    Some(v) => v@,
                    None => "127.0.0.1"@,
                })
                &&& c.pair@ == (match pair {
                    Some(v) => v@,
                    None => "ethbtc"@,
                })
                &&& c.port == (match port {
                    Some(raw) => spec_parse_u16(raw@)->0,
                    None => DEFAULT_PORT,
                })
            },
    {
        let defaults = Config::default();
        let port = match port {
            Some(raw) => {
                let cs = str_chars(raw.as_str());
                match parse_u16(cs.as_slice()) {
                    Some(p) => p,
                    None => return Err(ConfigError::InvalidPort(raw)),
                }
            },
            None => defaults.port,
        };
        Ok(Config {
            log_level: or_default(log_level, defaults.log_level),
            host: or_default(host, defaults.host),
            pair: or_default(pair, defaults.pair),
            port,
        })
    }

    /// Applies the command-line flags: a given `--pair` or `--port` wins
    /// over the value already configured.
    pub fn with_overrides(self, pair: Option<String>, port: Option<u16>) -> (c: Config)
        ensures
            c.log_level == self.log_level,
            c.host == self.host,
            c.pair == (match pair {
                Some(p) => p,
                None => self.pair,
            }),
            c.port == (match port {
                Some(p) => p,
                None => self.port,
            }),
    {
        let mut c = self;
        if let Some(p) = pair {
            c.pair = p;
        }
        if let Some(p) = port {
            c.port = p;
        }
        c
    }
}

} // verus!
