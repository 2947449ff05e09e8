//! The commands the surrounding program can ask for, as plain values.

use vstd::prelude::*;

use crate::hash::Sha1Hash;

verus! {

/// A parsed invocation: one subcommand.
#[derive(Debug)]
pub struct Opt {
    pub subcmd: SubCommand,
}

/// The operations of the store, with their arguments as plain values; the
/// surrounding program parses arguments into this and dispatches on it.
#[derive(Debug)]
pub enum SubCommand {
    InitDB,
    UpdateCache { paths: Vec<Vec<u8>> },
    WriteTree,
    CommitTree { tree_hash: Sha1Hash, parents: Vec<Sha1Hash> },
    ReadTree { tree_hash: Sha1Hash },
    ShowDiff,
    CatFile { object_hash: Sha1Hash },
}

} // verus!
