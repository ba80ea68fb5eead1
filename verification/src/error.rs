//! The error taxonomy of the transfer engine. Every variant names the
//! condition it reports; the rendered text is pinned down exactly, so a
//! caller can tell a policy rejection (`DestinationExists`, "use force")
//! from a validation failure or a fatal filesystem condition.

use vstd::prelude::*;
use vstd::string::*;

verus! {

/// Why a transfer, a merge or a batch was refused.
#[derive(Debug)]
pub enum TransferError {
    /// The source path names nothing.
    SourceNotFound { path: String },
    /// The source exists but is not the expected kind: a directory where
    /// a file was expected, or the reverse.
    SourceWrongType { path: String, expected_dir: bool },
    /// The source has no final name component to derive a destination
    /// name from.
    CannotDeriveName { path: String },
    /// The destination exists but is not the kind the transfer needs: a
    /// directory where a file would be written, or the reverse.
    DestinationKindMismatch { path: String, expected_dir: bool },
    /// The destination file already exists and overwriting was not
    /// forced: a policy rejection, not a filesystem failure.
    DestinationExists { path: String },
    /// A batch source is neither a file nor a directory.
    InvalidSource { path: String },
    /// Several sources were given but the destination is no directory.
    MultipleSourcesRequireDirDest,
    /// A batch mixes file sources with directory sources.
    MixedSourceKinds,
    /// A path component that must be a directory is not one.
    NotADirectory { path: String },
    /// A merge was asked to reconcile a tree with itself or with one of
    /// its own subtrees; the filesystem refuses such a transfer.
    OverlappingTrees { from: String, to: String },
}

impl TransferError {
    /// The exact text of this error.
    pub open spec fn rendered(self) -> Seq<char> {
        match self {
            TransferError::SourceNotFound { path } => "Source '"@ + path@ + "' does not exist"@,
            TransferError::SourceWrongType { path, expected_dir } => if expected_dir {
                "Source '"@ + path@ + "' exists but is not a directory"@
            } else {
                "Source '"@ + path@ + "' exists but is not a file"@
            },
            TransferError::CannotDeriveName { path } => "Cannot get file name from '"@ + path@
                + "'"@,
            TransferError::DestinationKindMismatch { path, expected_dir } => if expected_dir {
                "Destination '"@ + path@ + "' already exists and is not a directory"@
            } else {
                "Destination '"@ + path@ + "' already exists and is not a file"@
            },
            TransferError::DestinationExists { path } => "Destination '"@ + path@
                + "' already exists (pass force to overwrite)"@,
            TransferError::InvalidSource { path } => "Source path '"@ + path@
                + "' is neither a file nor directory."@,
            TransferError::MultipleSourcesRequireDirDest =>
                "When copying multiple sources, the destination must be a directory."@,
            TransferError::MixedSourceKinds =>
                "Cannot mix file and directory sources in one batch."@,
            TransferError::NotADirectory { path } => "Not a directory: '"@ + path@ + "'"@,
            TransferError::OverlappingTrees { from, to } => "Cannot merge '"@ + from@ + "' into '"@
                + to@ + "': one contains the other"@,
        }
    }

    /// Render this error as its message text.
    pub fn message(&self) -> (r: String)
        ensures
            r@ == self.rendered(),
    {
        let mut r = String::new();
        match self {
            TransferError::SourceNotFound { path } => {
                r.append("Source '");
                r.append(path.as_str());
                r.append("' does not exist");
            },
            TransferError::SourceWrongType { path, expected_dir } => {
                r.append("Source '");
                r.append(path.as_str());
                if *expected_dir {
                    r.append("' exists but is not a directory");
                } else {
                    r.append("' exists but is not a file");
                }
            },
            TransferError::CannotDeriveName { path } => {
                r.append("Cannot get file name from '");
                r.append(path.as_str());
                r.append("'");
            },
            TransferError::DestinationKindMismatch { path, expected_dir } => {
                r.append("Destination '");
                r.append(path.as_str());
                if *expected_dir {
                    r.append("' already exists and is not a directory");
                } else {
                    r.append("' already exists and is not a file");
                }
            },
            TransferError::DestinationExists { path } => {
                r.append("Destination '");
                r.append(path.as_str());
                r.append("' already exists (pass force to overwrite)");
            },
            TransferError::InvalidSource { path } => {
                r.append("Source path '");
                r.append(path.as_str());
                r.append("' is neither a file nor directory.");
            },
            TransferError::MultipleSourcesRequireDirDest => {
                r.append("When copying multiple sources, the destination must be a directory.");
            },
            TransferError::MixedSourceKinds => {
                r.append("Cannot mix file and directory sources in one batch.");
            },
            TransferError::NotADirectory { path } => {
                r.append("Not a directory: '");
                r.append(path.as_str());
                r.append("'");
            },
            TransferError::OverlappingTrees { from, to } => {
                r.append("Cannot merge '");
                r.append(from.as_str());
                r.append("' into '");
                r.append(to.as_str());
                r.append("': one contains the other");
            },
        }
        proof {
            assert(r@ =~= self.rendered());
        }
        r
    }
}

} // verus!
