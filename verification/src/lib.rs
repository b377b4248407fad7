//! Engine for layering third-party content packages ("mods") onto a target
//! application's resource directory: installing from local archives, remote
//! URLs or an aliased release-lookup scheme, tracking what was installed and
//! from where in a persisted manifest, detecting file-path collisions between
//! packages, upgrading a package in place, and removing it cleanly.
//!
//! The crate holds the decision and bookkeeping core. Callers perform the
//! actual disk and network work and feed the results (archive bytes, manifest
//! bytes, file-existence answers, confirmation answers) into the functions
//! here, which compute the next manifest snapshot and the actions to take.

pub mod acquire;
pub mod cli;
pub mod codec;
pub mod install;
pub mod meta_toml;
pub mod package;
pub mod record;
pub mod retry;
pub mod sanitize;
pub mod uninstall;
pub mod update;
