//! Runtime configuration and its normalization.

use vstd::prelude::*;

verus! {

/// Whether a verbosity name is one the log subsystem knows.
pub open spec fn known_log_level(s: Seq<char>) -> bool {
    s == "info"@ || s == "debug"@ || s == "error"@ || s == "warn"@
}

/// Runtime configuration of one run.
pub struct Config {
    /// Path of the input record stream.
    pub input_file: String,
    /// Count of threads that should be used for processing, limited to 8.
    pub thread_count: Option<u8>,
    /// Possible values: info, debug, error, warn. Fallback: info.
    pub log_level: Option<String>,
}

/// Normalizes a freshly parsed configuration: the thread count defaults to 1
/// and is clamped to 8, and an unknown log verbosity falls back to "info".
pub fn initialize_config(config: Config) -> (r: Config)
    ensures
        r.input_file == config.input_file,
        r.thread_count == Some(
            match config.thread_count {
                Some(v) => if v > 8 {
                    8u8
                } else {
                    v
                },
                None => 1u8,
            },
        ),
        r.log_level matches Some(level) && match config.log_level {
            Some(given) => if known_log_level(given@) {
                level@ == given@
            } else {
                level@ == "info"@
            },
            None => level@ == "info"@,
        },
{
    let thread_count = match config.thread_count {
        Some(v) => {
            if v > 8 {
                Some(8)
            } else {
                Some(v)
            }
        },
        None => Some(1),
    };
    let log_level = match config.log_level {
        None => Some("info".to_owned()),
        Some(v) => {
            if v == "info".to_owned() || v == "debug".to_owned() || v == "error".to_owned() || v
                == "warn".to_owned() {
                Some(v)
            } else {
                Some("info".to_owned())
            }
        },
    };
    Config { input_file: config.input_file, thread_count, log_level }
}

} // verus!
