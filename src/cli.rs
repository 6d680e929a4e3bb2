use vstd::prelude::*;

verus! {

/// The parsed command line.
#[derive(Debug)]
pub struct Args {
    pub command: Commands,
}

/// The commands the tool offers.
#[derive(Debug)]
pub enum Commands {
    Init,
    CatFile { pretty_print: bool, obj_sha: String },
    HashObject { write: bool, file: String },
    LsTree { name_only: bool, tree_ish: String },
    WriteTree,
}

} // verus!
