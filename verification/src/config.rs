//! Settings of the clustering.

use vstd::prelude::*;
use crate::double::Double;

verus! {

/// The bits of 60, the margin in pixels that clustering starts with.
pub const DEFAULT_GRID_SIZE: u64 = 0x404E_0000_0000_0000;

/// How markers are clustered and what a clustering call hands back.
#[derive(Clone, Copy, Debug, PartialEq, Eq, Structural)]
pub struct Config {
    /// How far, in pixels, a cluster's footprint reaches from its center.
    pub grid_size: Double,
    /// Whether a cluster's center follows the mean of its members.
    pub average_center: bool,
    /// Whether the host times the clustering calls.
    pub log_time: bool,
    /// Whether a clustering call hands back only the clusters it changed.
    pub only_return_modified_clusters: bool,
}

/// Settings of which any may be left out.
#[derive(Clone, Copy, Debug, PartialEq, Eq, Structural)]
pub struct OptionalConfig {
    pub grid_size: Option<Double>,
    pub average_center: Option<bool>,
    pub log_time: Option<bool>,
    pub only_return_modified_clusters: Option<bool>,
}

impl Config {
    /// The settings that clustering starts with.
    pub open spec fn initial() -> Config {
        Config {
            grid_size: Double { bits: DEFAULT_GRID_SIZE },
            average_center: false,
            log_time: false,
            only_return_modified_clusters: true,
        }
    }

    /// These settings, with every setting that `options` holds put in place
    /// of the present one.
    pub open spec fn merged(&self, options: OptionalConfig) -> Config {
        Config {
            grid_size: match options.grid_size {
                Some(grid_size) => grid_size,
                None => self.grid_size,
            },
            average_center: match options.average_center {
                Some(average_center) => average_center,
                None => self.average_center,
            },
            log_time: match options.log_time {
                Some(log_time) => log_time,
                None => self.log_time,
            },
            only_return_modified_clusters: match options.only_return_modified_clusters {
                Some(only_modified) => only_modified,
                None => self.only_return_modified_clusters,
            },
        }
    }

    /// Takes over the settings that `options` holds and keeps the others.
    pub fn apply_options(&mut self, options: OptionalConfig)
        ensures
            *final(self) == old(self).merged(options),
    {
        if let Some(grid_size) = options.grid_size {
            self.grid_size = grid_size;
        }
        if let Some(average_center) = options.average_center {
            self.average_center = average_center;
        }
        if let Some(log_time) = options.log_time {
            self.log_time = log_time;
        }
        if let Some(only_modified) = options.only_return_modified_clusters {
            self.only_return_modified_clusters = only_modified;
        }
    }
}

impl Default for Config {
    fn default() -> (config: Config)
        ensures
            config == Config::initial(),
    {
        Config {
            grid_size: Double::from_bits(DEFAULT_GRID_SIZE),
            average_center: false,
            log_time: false,
            only_return_modified_clusters: true,
        }
    }
}

impl Default for OptionalConfig {
    /// No setting at all.
    fn default() -> (options: OptionalConfig)
        ensures
            options == (OptionalConfig {
                grid_size: None,
                average_center: None,
                log_time: None,
                only_return_modified_clusters: None,
            }),
    {
        OptionalConfig {
            grid_size: None,
            average_center: None,
            log_time: None,
            only_return_modified_clusters: None,
        }
    }
}

} // verus!
