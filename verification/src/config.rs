//! Configuration resolution.
//!
//! A run is configured by `{log_dir, max_size}`. A user configuration
//! source may declare both; without one, the defaults are the `logs`
//! directory under the user's home and a built-in size threshold. The
//! lookup of the home directory and the reading and parsing of the
//! source are the caller's: this function only decides, from what the
//! caller found, what configuration governs the run or why none does.

use vstd::prelude::*;
use crate::errors::{ConfigError, Error};

verus! {

/// The resolved configuration of one run: the directory whose files are
/// rotated, and the size in bytes a primary file may reach before it is
/// rotated. Immutable for the run's duration.
#[derive(Debug)]
pub struct Config {
    pub log_dir: Vec<u8>,
    pub max_size: u64,
}

/// What the caller found when it looked for a user configuration source.
pub enum ConfigSource {
    /// No configuration source exists; the built-in defaults apply.
    Absent,
    /// A source exists but could not be parsed.
    Malformed,
    /// A source exists and declares these two fields.
    Declared { log_dir: Vec<u8>, max_size: u64 },
}

/// The path suffix `/logs` of the default log directory.
pub open spec fn default_subdir() -> Seq<u8> {
    seq![47u8, 108u8, 111u8, 103u8, 115u8]
}

/// Resolves the configuration of a run. Without a home directory the
/// run fails outright; a malformed configuration source fails it too; a
/// declared configuration takes effect as given; and in its absence the
/// defaults are `<home>/logs` and `default_max_size`.
pub fn resolve_config(home: Option<Vec<u8>>, source: ConfigSource, default_max_size: u64) -> (r:
    Result<Config, Error>)
    ensures
        ({
            match home {
                Option::None => r matches Err(Error::Config(ConfigError::HomeNotFound)),
                Option::Some(h) => match source {
                    ConfigSource::Absent => r matches Ok(c) && c.log_dir@ == h@
                        + default_subdir() && c.max_size == default_max_size,
                    ConfigSource::Malformed => r matches Err(
                        Error::Config(ConfigError::Malformed),
                    ),
                    ConfigSource::Declared { log_dir, max_size } => r matches Ok(c)
                        && c.log_dir@ == log_dir@ && c.max_size == max_size,
                },
            }
        }),
{
    match home {
        Option::None => Err(Error::Config(ConfigError::HomeNotFound)),
        Option::Some(h) => match source {
            ConfigSource::Absent => {
                let ghost h0 = h@;
                let mut dir = h;
                dir.push(47);
                dir.push(108);
                dir.push(111);
                dir.push(103);
                dir.push(115);
                assert(dir@ =~= h0 + default_subdir());
                Ok(Config { log_dir: dir, max_size: default_max_size })
            },
            ConfigSource::Malformed => Err(Error::Config(ConfigError::Malformed)),
            ConfigSource::Declared { log_dir, max_size } => Ok(Config { log_dir, max_size }),
        },
    }
}

} // verus!
