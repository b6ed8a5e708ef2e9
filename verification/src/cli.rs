//! The command-line surface, as plain values: flag parsing itself is an
//! adapter concern, but the consistency rules between flags are checked
//! here.

use vstd::prelude::*;

verus! {

/// An invalid combination of command-line arguments.
#[derive(Clone, Copy, PartialEq, Eq, Structural, Debug)]
pub enum InvalidArgumentError {
    /// Only one of the chunk index and the chunk count was given.
    ChunkFlagsMismatch,
    /// The chunk index is not below the chunk count.
    ChunkOutOfRange,
    /// Chunking and single-package selection were both requested.
    ChunkWithPackage,
    /// The selected package is not part of the workspace.
    PackageNotFound,
}

/// When to use colour in terminal output.
#[derive(Clone, Copy, PartialEq, Eq, Structural, Debug)]
pub enum ColorChoice {
    Always,
    Never,
}

/// The recognised command-line options.
pub struct CLI {
    /// The path to the workspace manifest.
    pub manifest_path: String,
    /// The path to the config folder, if given.
    pub config: Option<String>,
    /// Check a specific package; if absent, the whole workspace.
    pub package: Option<String>,
    /// The chunk that will be checked.
    pub chunk: Option<usize>,
    /// The total amount of chunks.
    pub total_chunks: Option<usize>,
    /// When to use colour in the terminal output.
    pub color: ColorChoice,
    /// Only print the combinations instead of checking them.
    pub dry_run: bool,
}

impl CLI {
    /// The flag-consistency rules: the two chunk flags come together, the
    /// chunk index stays below the count, and chunking excludes
    /// single-package selection.
    pub open spec fn flags_consistent(self) -> bool {
        &&& (self.chunk is Some <==> self.total_chunks is Some)
        &&& (self.chunk is Some && self.total_chunks is Some ==> self.chunk->0
            < self.total_chunks->0)
        &&& !(self.chunk is Some && self.package is Some)
    }

    /// Checks the flag-consistency rules, reporting the first violated
    /// one.
    pub fn validate(&self) -> (r: Result<(), InvalidArgumentError>)
        ensures
            r is Ok <==> self.flags_consistent(),
            r == (if self.chunk is Some != self.total_chunks is Some {
                Err::<(), InvalidArgumentError>(InvalidArgumentError::ChunkFlagsMismatch)
            } else if self.chunk is Some && self.total_chunks is Some && self.chunk->0
                >= self.total_chunks->0 {
                Err::<(), InvalidArgumentError>(InvalidArgumentError::ChunkOutOfRange)
            } else if self.chunk is Some && self.package is Some {
                Err::<(), InvalidArgumentError>(InvalidArgumentError::ChunkWithPackage)
            } else {
                Ok::<(), InvalidArgumentError>(())
            }),
    {
        if self.chunk.is_some() != self.total_chunks.is_some() {
            return Err(InvalidArgumentError::ChunkFlagsMismatch);
        }
        if let (Some(chunk), Some(total_chunks)) = (&self.chunk, &self.total_chunks) {
            if *chunk >= *total_chunks {
                return Err(InvalidArgumentError::ChunkOutOfRange);
            }
        }
        if self.chunk.is_some() && self.package.is_some() {
            return Err(InvalidArgumentError::ChunkWithPackage);
        }
        Ok(())
    }
}

} // verus!
