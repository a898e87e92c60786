//! The error taxonomy of the core.
//!
//! Every operation reports failure through [`Error`], which keeps the six
//! kinds apart: malformed hierarchy data, a missing group, permission denial
//! (naming the action), an unavailable restriction attribute, controllers
//! unavailable anywhere in the ancestor chain, and generic I/O failure.
//! Non-fatal conditions (a group that already exists, controllers already
//! enabled) are successful no-ops elsewhere, never errors here.

use crate::text::names;
use vstd::prelude::*;

verus! {

/// What the caller observed when an actual file operation failed. The caller
/// reduces the platform's error to one of these plain values and hands it
/// back, so the mapping onto [`Error`] stays verified.
#[derive(Clone, Copy, Debug, PartialEq, Eq, Structural)]
pub enum IoErrorKind {
    PermissionDenied,
    NotFound,
    Other,
}

/// The write that was being attempted when permission was denied.
#[derive(Debug, Clone)]
pub enum PermissionAction {
    /// Opening a group's process-membership file for appending.
    Classify,
    /// Writing a process ID into the membership file.
    Detach,
    /// Opening a group's subtree-control file for appending.
    SubtreeControl,
    /// Writing one `+<controller>` token into the subtree-control file.
    EnableController { controller: Vec<u8> },
    /// Opening a restriction attribute file for writing.
    SetRestriction { key: Vec<u8> },
}

/// Spec-level value of a [`PermissionAction`].
pub enum PermissionActionV {
    Classify,
    Detach,
    SubtreeControl,
    EnableController { controller: Seq<u8> },
    SetRestriction { key: Seq<u8> },
}

impl View for PermissionAction {
    type V = PermissionActionV;

    open spec fn view(&self) -> PermissionActionV {
        match self {
            PermissionAction::Classify => PermissionActionV::Classify,
            PermissionAction::Detach => PermissionActionV::Detach,
            PermissionAction::SubtreeControl => PermissionActionV::SubtreeControl,
            PermissionAction::EnableController { controller } => {
                PermissionActionV::EnableController { controller: controller@ }
            },
            PermissionAction::SetRestriction { key } => {
                PermissionActionV::SetRestriction { key: key@ }
            },
        }
    }
}

/// A fatal outcome of a core operation.
#[derive(Debug, Clone)]
pub enum Error {
    /// The per-process group assignment was not in the single unified-hierarchy
    /// format.
    UnsupportedHierarchy,
    /// An operation required the named group to exist, and it does not.
    GroupMissing { group: Vec<u8> },
    /// A control-file write was refused, doing the named action on the named
    /// group.
    PermissionDenied { group: Vec<u8>, action: PermissionAction },
    /// The named restriction attribute file is not available in the named
    /// group, usually because its controller is not enabled.
    RestrictionUnavailable { group: Vec<u8>, key: Vec<u8> },
    /// The listed controllers are enabled nowhere in the ancestor chain up to
    /// the hierarchy root, which cannot grant itself anything.
    ControllersUnavailable { controllers: Vec<Vec<u8>> },
    /// Any other I/O failure, with the group it concerned.
    Io { group: Vec<u8> },
}

/// Spec-level value of an [`Error`].
pub enum ErrorV {
    UnsupportedHierarchy,
    GroupMissing { group: Seq<u8> },
    PermissionDenied { group: Seq<u8>, action: PermissionActionV },
    RestrictionUnavailable { group: Seq<u8>, key: Seq<u8> },
    ControllersUnavailable { controllers: Seq<Seq<u8>> },
    Io { group: Seq<u8> },
}

impl View for Error {
    type V = ErrorV;

    open spec fn view(&self) -> ErrorV {
        match self {
            Error::UnsupportedHierarchy => ErrorV::UnsupportedHierarchy,
            Error::GroupMissing { group } => ErrorV::GroupMissing { group: group@ },
            Error::PermissionDenied { group, action } => {
                ErrorV::PermissionDenied { group: group@, action: action@ }
            },
            Error::RestrictionUnavailable { group, key } => {
                ErrorV::RestrictionUnavailable { group: group@, key: key@ }
            },
            Error::ControllersUnavailable { controllers } => {
                ErrorV::ControllersUnavailable { controllers: names(controllers@) }
            },
            Error::Io { group } => ErrorV::Io { group: group@ },
        }
    }
}

} // verus!
