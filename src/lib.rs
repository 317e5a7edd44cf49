//! Startup configuration of a service-monitoring system: environment
//! placeholder resolution and the identifier-uniqueness rules of the
//! service / group / node topology.

mod config;
mod reader;
mod scope;
mod substitution;

pub use config::{
    Config, ConfigProbe, ConfigProbeService, ConfigProbeServiceGroup, ConfigProbeServiceNode,
    DuplicateIdentifier, IdentifierScope,
};
pub use reader::{ConfigReader, SubstitutionError};
