//! The commands the tool understands, with their arguments.
use vstd::prelude::*;

verus! {

/// A command and its arguments.
#[allow(inconsistent_fields)]
pub enum Command {
    Init,
    HashObject { write: bool, file: String },
    CatFile { print: bool, size: bool, type_flag: bool, object: String },
    WriteTree,
    CommitTree { tree: String, parent: Option<String>, message: String },
    Add { files: Vec<String> },
    Commit { message: String },
    Log,
    Branch { name: Option<String> },
    Checkout { create_branch: bool, name: String },
    Status,
    Diff { file: String },
    Merge { branch: String },
    Clone { source: String, dest: String },
    Push { remote_path: String, branch: String },
    Fetch { remote_path: String },
    Remote { action: String, name: String, url: String },
    LsRemote { remote: String },
    UnpackObjects { packfile: String },
    Config { list: bool, key: Option<String>, value: Option<String> },
    Tag { delete: bool, name: Option<String> },
    Rm { files: Vec<String> },
    LsFiles { cached: bool },
    RevParse { short: bool, revision: String },
    ShowRef { heads: bool, tags: bool },
    CountObjects { verbose: bool },
    Describe { tags: bool, abbrev: u32 },
    VerifyPack { packfile: String },
    MkTree { binary: bool },
    LsTree { recursive: bool, tree: String },
    UpdateRef { delete: bool, ref_name: String, hash: Option<String> },
    SymbolicRef { ref_name: Option<String>, target: Option<String> },
    ForEachRef { format: Option<String> },
    CatFileBatch { batch: bool },
    DiffTree { tree1: String, tree2: Option<String> },
    NameRev { commits: Vec<String> },
    VerifyCommit { commit: String },
    RevList { commits: Vec<String> },
    Archive { format: Option<String>, tree: Option<String> },
    Blame { file: String },
}

} // verus!
