//! Typed server configuration, as handed over by whoever loaded it.

use vstd::prelude::*;

verus! {

/// Where the server listens.
#[derive(Debug, PartialEq, Eq)]
pub struct ServerSettings {
    pub port: u16,
    pub bind: String,
}

/// Upstream resolvers that unanswered queries are passed to.
#[derive(Debug, PartialEq, Eq)]
pub struct MirrorSettings {
    pub enabled: bool,
    pub primary: String,
    pub secondary: Option<String>,
}

/// One rule source: how to read it and where it lives.
#[derive(Debug, PartialEq, Eq)]
pub struct RulesSettings {
    pub load_as: String,
    pub path: String,
}

/// The whole configuration.
#[derive(Debug, PartialEq, Eq)]
pub struct Config {
    pub server: ServerSettings,
    pub mirror: Option<MirrorSettings>,
    pub rules: Vec<RulesSettings>,
}

/// Whether mirroring is configured and switched on.
pub open spec fn mirror_on(mirror: Option<MirrorSettings>) -> bool {
    match mirror {
        Some(m) => m.enabled,
        None => false,
    }
}

/// Whether a secondary resolver is configured.
pub open spec fn secondary_configured(mirror: Option<MirrorSettings>) -> bool {
    match mirror {
        Some(m) => m.secondary is Some,
        None => false,
    }
}

impl Config {
    /// Whether unmatched queries are to be passed upstream: a mirror section
    /// is present and switched on.
    pub open spec fn mirroring(&self) -> bool {
        mirror_on(self.mirror)
    }

    pub fn mirror_enabled(&self) -> (on: bool)
        ensures
            on == self.mirroring(),
    {
        match &self.mirror {
            Some(m) => m.enabled,
            None => false,
        }
    }
}

} // verus!
