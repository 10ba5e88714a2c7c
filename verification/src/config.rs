//! User configuration: the credential cookie and the download directory.
//!
//! Persistence (reading and writing the configuration file) is unverified
//! I/O and lives outside the library; the library only defines the value
//! and the rule for overriding the download path from the command line.

use vstd::prelude::*;

verus! {

pub struct Config {
    pub cookie: String,
    pub download_path: String,
}

impl Config {
    /// A fresh configuration: no credential, no download path.
    pub fn new() -> (r: Config)
        ensures
            r.cookie@ == Seq::<char>::empty(),
            r.download_path@ == Seq::<char>::empty(),
    {
        Config { cookie: String::new(), download_path: String::new() }
    }
}

/// A download path given on the command line overrides the stored one;
/// the credential cookie is kept either way.
pub fn merge_download_path(config: Config, download_path: Option<String>) -> (r: Config)
    ensures
        r.cookie == config.cookie,
        match download_path {
            Some(p) => r.download_path == p,
            None => r.download_path == config.download_path,
        },
{
    match download_path {
        Some(p) => Config { cookie: config.cookie, download_path: p },
        None => config,
    }
}

} // verus!
