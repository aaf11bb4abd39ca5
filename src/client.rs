//! The torrent client that a seeded torrent is handed to.

use vstd::prelude::*;

verus! {

/// Which client adapter an invocation uses.
#[derive(Clone, Copy, Debug, PartialEq, Eq)]
pub enum ClientKind {
    /// Runs the client's command line.
    Synapse,
    /// Prints what would be added.
    DryRun,
}

/// A torrent client: adds the torrent at `torrent_path`, to be seeded from
/// `seed_path`. An error carries a message for the operator.
pub trait Client {
    fn add_torrent(&self, torrent_path: &str, seed_path: &str) -> Result<(), String>;
}

/// The adapter for an invocation: the dry-run one under `dry_run`.
pub fn new_instance(dry_run: bool) -> (r: ClientKind)
    ensures
        r == (if dry_run { ClientKind::DryRun } else { ClientKind::Synapse }),
{
    if dry_run {
        ClientKind::DryRun
    } else {
        ClientKind::Synapse
    }
}

} // verus!
