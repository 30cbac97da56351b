//! Root-relative paths of the review root, and what a failed step of a walk
//! below it means.
//!
//! A path that could escape the root is refused before anything is opened, and
//! every step of a walk refuses to follow a symlink. A symlink at the end of a
//! path is read as its link text (matching how Git itself treats a symlink
//! entry), never followed.

use vstd::prelude::*;

use crate::source::{PathReason, SourceError};
use crate::text::{
    chars_of, contains_char, copy_of, lemma_split_on_nonempty, same_text, split_on, split_str, strs,
    text_of_two,
};

verus! {

/// A file, or the link text of a symlink entry, read from the review root.
#[derive(Debug, Clone, PartialEq, Eq)]
pub enum RootEntry {
    File(Vec<u8>),
    Symlink(String),
}

/// Failure reading a root-relative path.
#[derive(Debug, Clone, PartialEq, Eq)]
pub enum RootError {
    /// The path string itself is rejected before any step (see
    /// [`check_relative_path`]), or a middle path component is a symlink.
    InvalidPath(PathReason),
    /// The final component exists but is not a regular file or a symlink (a
    /// directory, a fifo, a device, a socket).
    NotRegularFile,
    Io(String),
}

/// Why a component cannot be part of a root-relative path.
pub open spec fn component_fault(part: Seq<char>) -> Option<PathReason> {
    if part.len() == 0 {
        Some(PathReason::EmptyComponent)
    } else if part == "."@ {
        Some(PathReason::CurrentComponent)
    } else if part == ".."@ {
        Some(PathReason::ParentComponent)
    } else {
        None
    }
}

/// The fault of the first component that has one.
pub open spec fn first_fault(parts: Seq<Seq<char>>) -> Option<PathReason>
    decreases parts.len(),
{
    if parts.len() == 0 {
        None
    } else {
        match first_fault(parts.drop_last()) {
            Some(reason) => Some(reason),
            None => component_fault(parts.last()),
        }
    }
}

/// Why a path is refused, where it is.
pub open spec fn path_fault(path: Seq<char>) -> Option<PathReason> {
    if path.len() == 0 {
        Some(PathReason::Empty)
    } else if path.contains('\0') {
        Some(PathReason::ContainsNul)
    } else if path[0] == '/' {
        Some(PathReason::Absolute)
    } else if path.last() == '/' {
        Some(PathReason::TrailingSlash)
    } else {
        first_fault(split_on(path, '/'))
    }
}

/// Split and validate a root-relative path string into components, denying
/// anything that could let it escape the root: an absolute path, `..`, `.`, an
/// empty component (`a//b`), a trailing slash, and an embedded NUL.
pub fn check_relative_path<'a>(path: &'a str) -> (r: Result<Vec<&'a str>, PathReason>)
    ensures
        match path_fault(path@) {
            Some(reason) => r == Err::<Vec<&'a str>, PathReason>(reason),
            None => r is Ok && strs(r->Ok_0@) == split_on(path@, '/') && r->Ok_0@.len() >= 1,
        },
{
    let cs: Vec<char> = chars_of(path);
    if cs.len() == 0 {
        return Err(PathReason::Empty);
    }
    if contains_char(cs.as_slice(), '\0') {
        return Err(PathReason::ContainsNul);
    }
    if cs[0] == '/' {
        return Err(PathReason::Absolute);
    }
    if cs[cs.len() - 1] == '/' {
        return Err(PathReason::TrailingSlash);
    }
    let parts: Vec<&'a str> = split_str(path, '/');
    let ghost model = strs(parts@);
    let mut i: usize = 0;
    assert(model.take(0) =~= Seq::empty());
    while i < parts.len()
        invariant
            i <= parts.len(),
            model == strs(parts@),
            model == split_on(path@, '/'),
            path_fault(path@) == first_fault(model),
            first_fault(model.take(i as int)) is None,
        decreases parts.len() - i,
    {
        proof {
            assert(model[i as int] == parts[i as int]@);
            assert(model.take(i + 1).drop_last() =~= model.take(i as int));
            assert(model.take(i + 1).last() == model[i as int]);
        }
        let fault: Option<PathReason> = find_component_fault(parts[i]);
        if let Some(reason) = fault {
            proof {
                lemma_first_fault(model, i + 1);
            }
            return Err(reason);
        }
        i += 1;
    }
    proof {
        assert(model.take(i as int) =~= model);
        lemma_split_on_nonempty(path@, '/');
    }
    Ok(parts)
}

fn find_component_fault(part: &str) -> (r: Option<PathReason>)
    ensures
        r == component_fault(part@),
{
    let cs: Vec<char> = chars_of(part);
    if cs.len() == 0 {
        Some(PathReason::EmptyComponent)
    } else if same_text(part, ".") {
        Some(PathReason::CurrentComponent)
    } else if same_text(part, "..") {
        Some(PathReason::ParentComponent)
    } else {
        None
    }
}

proof fn lemma_first_fault(parts: Seq<Seq<char>>, n: int)
    requires
        0 <= n <= parts.len(),
        first_fault(parts.take(n)) is Some,
    ensures
        first_fault(parts) == first_fault(parts.take(n)),
    decreases parts.len(),
{
    if n < parts.len() {
        assert(parts.drop_last().take(n) =~= parts.take(n));
        lemma_first_fault(parts.drop_last(), n);
    } else {
        assert(parts.take(n) =~= parts);
    }
}

// -------------------------------------------------------------------- walks

/// Why a component could not be opened.
#[derive(Debug, Clone, Copy, PartialEq, Eq, Structural)]
pub enum OpenFailure {
    /// The component is a symlink, and symlinks are not followed.
    Loop,
    /// The component is not a directory, or a symlink on some systems.
    NotDir,
    /// There is no such component.
    NoEntry,
    /// Anything else.
    Other,
}

/// What a failed step through a directory comes to.
#[derive(Debug, Clone, Copy, PartialEq, Eq, Structural)]
pub enum DirStep {
    /// The path does not exist.
    Missing,
    /// The path leads through a symlink.
    Refused(PathReason),
    /// The failure itself is reported.
    Failed,
}

/// What a failed step through a directory comes to. A symlink is refused
/// whichever of its two failures the system reports; `is_symlink` tells what
/// stands there.
pub open spec fn dir_step(failure: OpenFailure, is_symlink: bool) -> DirStep {
    match failure {
        OpenFailure::Loop => DirStep::Refused(PathReason::SymlinkComponent),
        OpenFailure::NotDir => if is_symlink {
            DirStep::Refused(PathReason::SymlinkComponent)
        } else {
            DirStep::Missing
        },
        OpenFailure::NoEntry => DirStep::Missing,
        OpenFailure::Other => DirStep::Failed,
    }
}

/// Decides on a directory component that could not be opened.
pub fn failed_dir(failure: OpenFailure, is_symlink: bool) -> (r: DirStep)
    ensures
        r == dir_step(failure, is_symlink),
{
    match failure {
        OpenFailure::Loop => DirStep::Refused(PathReason::SymlinkComponent),
        OpenFailure::NotDir => if is_symlink {
            DirStep::Refused(PathReason::SymlinkComponent)
        } else {
            DirStep::Missing
        },
        OpenFailure::NoEntry => DirStep::Missing,
        OpenFailure::Other => DirStep::Failed,
    }
}

/// What a failure to open the last component comes to.
#[derive(Debug, Clone, Copy, PartialEq, Eq, Structural)]
pub enum FinalStep {
    /// It is a symlink: its link text is the content.
    ReadLink,
    /// The path does not exist.
    Missing,
    /// The failure itself is reported.
    Failed,
}

/// Decides on a last component that could not be opened.
pub fn failed_final(failure: OpenFailure) -> (r: FinalStep)
    ensures
        r == (match failure {
            OpenFailure::Loop => FinalStep::ReadLink,
            OpenFailure::NotDir | OpenFailure::NoEntry => FinalStep::Missing,
            OpenFailure::Other => FinalStep::Failed,
        }),
{
    match failure {
        OpenFailure::Loop => FinalStep::ReadLink,
        OpenFailure::NotDir | OpenFailure::NoEntry => FinalStep::Missing,
        OpenFailure::Other => FinalStep::Failed,
    }
}

/// A root failure as an error of the source.
pub fn root_err_to_source(e: RootError, path: &str) -> (r: SourceError)
    ensures
        match e {
            RootError::InvalidPath(reason) => r matches SourceError::InvalidPath {
                path: p,
                reason: why,
            } && p@ == path@ && why == reason,
            RootError::NotRegularFile => r matches SourceError::Io { context, detail } && context@
                == "read "@ + path@ && detail@ == "not a regular file"@,
            RootError::Io(error) => r matches SourceError::Io { context, detail } && context@
                == "read "@ + path@ && detail@ == error@,
        },
{
    match e {
        RootError::InvalidPath(reason) => SourceError::InvalidPath { path: copy_of(path), reason },
        RootError::NotRegularFile => SourceError::Io {
            context: text_of_two("read ", path),
            detail: copy_of("not a regular file"),
        },
        RootError::Io(detail) => SourceError::Io { context: text_of_two("read ", path), detail },
    }
}

// --------------------------------------------------------------------- laws

/// An accepted path has only plain components: it names something below the
/// root, whatever the root is.
pub proof fn accepted_paths_stay_below_the_root(path: Seq<char>, i: int)
    requires
        path_fault(path) is None,
        0 <= i < split_on(path, '/').len(),
    ensures
        ({
            let part = split_on(path, '/')[i];
            &&& part.len() > 0
            &&& part != "."@
            &&& part != ".."@
        }),
{
    lemma_no_fault(split_on(path, '/'), i);
}

proof fn lemma_no_fault(parts: Seq<Seq<char>>, i: int)
    requires
        first_fault(parts) is None,
        0 <= i < parts.len(),
    ensures
        component_fault(parts[i]) is None,
    decreases parts.len(),
{
    if i < parts.len() - 1 {
        lemma_no_fault(parts.drop_last(), i);
    }
}

} // verus!
