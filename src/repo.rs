//! The layout of a new repository. Creating it on disk is left to the caller,
//! which reports whether `.git` is already there and then carries out the plan.

use vstd::prelude::*;

verus! {

/// Why a repository could not be initialised.
#[derive(Clone, Copy, Debug, PartialEq, Eq, Structural)]
pub enum InitError {
    /// The directory already holds a `.git`.
    AlreadyInitialized,
}

/// What to create, relative to the repository root: directories in order,
/// then the `HEAD` file with its contents.
pub struct InitPlan {
    pub dirs: Vec<Vec<u8>>,
    pub head_path: Vec<u8>,
    pub head_contents: Vec<u8>,
}

/// `.git`
pub open spec fn git_dir() -> Seq<u8> {
    seq![46u8, 103, 105, 116]
}

/// `.git/objects`
pub open spec fn objects_dir() -> Seq<u8> {
    git_dir() + seq![47u8, 111, 98, 106, 101, 99, 116, 115]
}

/// `.git/refs`
pub open spec fn refs_dir() -> Seq<u8> {
    git_dir() + seq![47u8, 114, 101, 102, 115]
}

/// `.git/HEAD`
pub open spec fn head_path() -> Seq<u8> {
    git_dir() + seq![47u8, 72, 69, 65, 68]
}

/// `ref: refs/heads/master\n`
pub open spec fn head_contents() -> Seq<u8> {
    seq![
        114u8, 101, 102, 58, 32, 114, 101, 102, 115, 47, 104, 101, 97, 100, 115, 47, 109, 97, 115,
        116, 101, 114, 10,
    ]
}

/// Decides how to initialise a repository whose root does or does not
/// already hold `.git`: refuse, or create `.git`, `.git/objects`, `.git/refs`
/// and a `HEAD` that points at the master branch.
pub fn init_git_repo(git_dir_exists: bool) -> (r: Result<InitPlan, InitError>)
    ensures
        git_dir_exists <==> r == Err::<InitPlan, InitError>(InitError::AlreadyInitialized),
        r matches Ok(p) ==> {
            &&& p.dirs@.len() == 3
            &&& p.dirs@[0]@ == git_dir()
            &&& p.dirs@[1]@ == objects_dir()
            &&& p.dirs@[2]@ == refs_dir()
            &&& p.head_path@ == head_path()
            &&& p.head_contents@ == head_contents()
        },
{
    if git_dir_exists {
        return Err(InitError::AlreadyInitialized);
    }
    let git: Vec<u8> = vec![46u8, 103, 105, 116];
    let objects: Vec<u8> = vec![46u8, 103, 105, 116, 47, 111, 98, 106, 101, 99, 116, 115];
    let refs: Vec<u8> = vec![46u8, 103, 105, 116, 47, 114, 101, 102, 115];
    let head: Vec<u8> = vec![46u8, 103, 105, 116, 47, 72, 69, 65, 68];
    let contents: Vec<u8> = vec![
        114u8, 101, 102, 58, 32, 114, 101, 102, 115, 47, 104, 101, 97, 100, 115, 47, 109, 97, 115,
        116, 101, 114, 10,
    ];
    assert(objects@ =~= objects_dir());
    assert(refs@ =~= refs_dir());
    assert(head@ =~= head_path());
    let mut dirs: Vec<Vec<u8>> = Vec::new();
    dirs.push(git);
    dirs.push(objects);
    dirs.push(refs);
    Ok(InitPlan { dirs, head_path: head, head_contents: contents })
}

} // verus!
