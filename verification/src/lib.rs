//! Verified core for manipulating Linux unified control groups (cgroups v2).
//!
//! A [`CGroup`] is a handle on a (possibly nonexistent) control group,
//! identified by an absolute path inside the cgroup hierarchy. The handle
//! itself is a pure value: every operation that would touch the cgroup
//! pseudo-filesystem is split into a verified decision step (in this crate)
//! and an unverified I/O step (left to the caller). The decision step takes
//! a snapshot of the on-disk state as plain values and returns either a typed
//! error or a plan of writes to perform, so the hierarchy rules are checked
//! here once and for all while the caller only replays the plan.

pub mod cgroup;
pub mod cli;
pub mod enable;
pub mod error;
pub mod ops;
pub mod parse;
pub mod text;

pub use cgroup::CGroup;
pub use cli::{Cli, CliError, CliRequest};
pub use enable::{Action, GroupStatus};
pub use error::{Error, IoErrorKind, PermissionAction};
pub use ops::{plus_token, CreatePlan, WriteOp, WriteRequest};
pub use parse::{
    parse_controller_flag, parse_key_value, restriction_controller, ControllerFlag,
    ControllerFlagError, KeyValueError,
};
