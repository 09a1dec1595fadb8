//! The server's settings that carry logic: logging defaults, the zone file
//! list, the command line, and where the configuration comes from.
use vstd::prelude::*;
use vstd::string::StringExecFns;

verus! {

/// Logging settings.
pub struct LoggingConfig {
    /// Tracing filter directive (`RUST_LOG` syntax).
    pub filter: String,
    /// Emit JSON lines on stdout.
    pub json: bool,
}

/// The filter used when none is configured.
pub fn default_log_filter() -> (r: String)
    ensures
        r@ == "info,nebula=debug"@,
{
    String::from_str("info,nebula=debug")
}

impl Default for LoggingConfig {
    /// The default filter, with JSON lines.
    fn default() -> (r: LoggingConfig)
        ensures
            r.filter@ == "info,nebula=debug"@,
            r.json,
    {
        LoggingConfig { filter: default_log_filter(), json: true }
    }
}

/// One zone to load at startup.
pub struct ZoneConfig {
    /// Path of its TOML zone file; a relative path is taken from the
    /// configuration file's directory.
    pub file: String,
}

/// The server's command line.
pub struct Args {
    /// Path of the TOML configuration file.
    pub config: Option<String>,
    /// Print the default configuration and exit.
    pub print_default_config: bool,
    /// Probe `/livez` on the admin bind and exit with its verdict.
    pub healthcheck: bool,
}

/// What the server process does.
#[derive(Debug, Clone, Copy, PartialEq, Eq, Structural)]
pub enum RunMode {
    PrintDefaultConfig,
    Healthcheck,
    Serve,
}

impl Args {
    /// Printing the default configuration wins over the health probe, which
    /// wins over serving.
    pub fn mode(&self) -> (r: RunMode)
        ensures
            self.print_default_config ==> r == RunMode::PrintDefaultConfig,
            !self.print_default_config && self.healthcheck ==> r == RunMode::Healthcheck,
            !self.print_default_config && !self.healthcheck ==> r == RunMode::Serve,
    {
        if self.print_default_config {
            RunMode::PrintDefaultConfig
        } else if self.healthcheck {
            RunMode::Healthcheck
        } else {
            RunMode::Serve
        }
    }
}

/// The configuration file read when none is named.
pub open spec fn default_config_path() -> Seq<char> {
    "/etc/nebuladns/nebuladns.toml"@
}

/// The configuration file read when none is named.
pub fn default_config_file() -> (r: &'static str)
    ensures
        r@ == default_config_path(),
{
    "/etc/nebuladns/nebuladns.toml"
}

/// Which configuration file to load: the one named on the command line,
/// else the default path when that file exists, else none (built-in
/// defaults).
pub fn config_source(explicit: Option<String>, default_exists: bool) -> (r: Option<String>)
    ensures
        match explicit {
            Some(p) => r == Some(p),
            None => if default_exists {
                r matches Some(p) && p@ == default_config_path()
            } else {
                r.is_none()
            },
        },
{
    match explicit {
        Some(p) => Some(p),
        None => if default_exists {
            Some(String::from_str("/etc/nebuladns/nebuladns.toml"))
        } else {
            None
        },
    }
}

} // verus!
