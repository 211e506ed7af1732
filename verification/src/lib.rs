//! Core of a filesystem-to-instance-tree synchronizer.
//!
//! The library models an instance tree (an arena of nodes with stable
//! identifiers), immutable snapshots of a desired tree shape, and the
//! diff/patch reconciliation engine between the two, together with the
//! merge policies, the path-to-identifier resolver, and the cursor-based
//! update queue that the live-serve workflow uses.

use vstd::prelude::*;

mod apply;
mod diff;
mod model;
mod policy;
mod queue;
mod resolver;
mod session;
mod syncback;
mod instance;
mod patch;
mod props;
mod tree;
mod variant;

pub use apply::{apply_patch_set, apply_properties, patch_applicable};
pub use diff::{compute_patch_set, diff_properties};
pub use instance::{InstanceMetadata, InstanceSnapshot, Instance, instance_from_snapshot};
pub use model::{extract_model_root, serialize_roots, tree_from_model, tree_from_snapshot};
pub use patch::{AddedInstance, DeltaMap, PatchSet, PropertyDelta, UpdatedInstance};
pub use policy::{MergePolicy, filter_patch_for_sync};
pub use props::{PropMap, assoc_lookup};
pub use queue::MessageQueue;
pub use resolver::RefResolver;
pub use session::{ServeSession, SessionState, SyncCommand, sync_merge};
pub use syncback::{SyncbackPlan, plan_syncback};
pub use tree::{ROOT_ID, Tree};
pub use variant::{InstanceId, Variant, variant_eq};

verus! {

/// The failures the library reports. Codec failures are wrapped by the
/// caller that drives the codec; these are the reconciliation core's own
/// error kinds.
#[derive(Debug, Clone, Copy, PartialEq, Eq, Structural)]
pub enum SyncError {
    /// An input or output path carries no recognized format suffix.
    UnrecognizedFileExtension,
    /// A model file holds zero or more than one top-level instance.
    UnsupportedModelShape,
    /// A patch's added entry names a parent not present in the tree: the
    /// patch is malformed or out of order, a hard failure for that entry.
    UnknownParentOnInsert,
}

impl SyncError {
    /// A short description of the failure, for error reports.
    pub fn describe(&self) -> (r: &'static str)
    {
        match self {
            SyncError::UnrecognizedFileExtension => "unrecognized file extension",
            SyncError::UnsupportedModelShape => "model files must hold exactly one top-level instance",
            SyncError::UnknownParentOnInsert => "added entry names an unknown parent",
        }
    }
}

/// The file formats the codec layer understands, selected by file extension.
#[derive(Debug, Clone, Copy, PartialEq, Eq, Structural)]
pub enum FileKind {
    /// XML model file (`.rbxmx`).
    Rbxmx,
    /// XML place file (`.rbxlx`).
    Rbxlx,
    /// Binary model file (`.rbxm`).
    Rbxm,
    /// Binary place file (`.rbxl`).
    Rbxl,
}

/// What `FileKind::from_extension` recognizes, as a function of the
/// extension's characters.
pub open spec fn spec_kind_of_extension(ext: Seq<char>) -> Option<FileKind> {
    if ext == "rbxmx"@ {
        Some(FileKind::Rbxmx)
    } else if ext == "rbxlx"@ {
        Some(FileKind::Rbxlx)
    } else if ext == "rbxm"@ {
        Some(FileKind::Rbxm)
    } else if ext == "rbxl"@ {
        Some(FileKind::Rbxl)
    } else {
        None
    }
}

impl FileKind {
    /// Whether this format is a model format, as a predicate.
    pub open spec fn is_model_spec(self) -> bool {
        self is Rbxmx || self is Rbxm
    }

    /// Recognize a file format from a path's extension (without the dot).
    /// Unknown extensions yield `None`; callers surface that as an
    /// unrecognized-file-extension error naming the path.
    pub fn from_extension(ext: &str) -> (r: Option<FileKind>)
        ensures
            r == spec_kind_of_extension(ext@),
    {
        let e = ext.to_owned();
        if e == String::from_str("rbxmx") {
            Some(FileKind::Rbxmx)
        } else if e == String::from_str("rbxlx") {
            Some(FileKind::Rbxlx)
        } else if e == String::from_str("rbxm") {
            Some(FileKind::Rbxm)
        } else if e == String::from_str("rbxl") {
            Some(FileKind::Rbxl)
        } else {
            None
        }
    }

    /// Whether this format is a model format (as opposed to a whole place).
    pub fn is_model(self) -> (r: bool)
        ensures
            r == self.is_model_spec(),
    {
        match self {
            FileKind::Rbxmx => true,
            FileKind::Rbxm => true,
            FileKind::Rbxlx => false,
            FileKind::Rbxl => false,
        }
    }
}

} // verus!
