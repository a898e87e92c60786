//! Single-group operations: creating, classifying, reading controllers and
//! processes, and applying restrictions.
//!
//! Each operation is split in two. The verified half here takes a snapshot
//! of the on-disk state as plain values (does the group exist, what do its
//! control files hold) and decides what to do: it returns either a typed
//! [`Error`](crate::Error) or the exact write to perform. The caller
//! performs the write and, when it fails, hands back the failure kind so
//! [`CGroup::interpret_io_error`] can keep the error taxonomy verified too.

use crate::cgroup::{mount_root, CGroup};
use crate::error::{Error, ErrorV, IoErrorKind, PermissionAction, PermissionActionV};
use crate::text::{
    decimal, find_byte, format_u32, has_byte, lemma_index_of_byte, names, slice_to_vec,
    split_whitespace, split_ws, trim, trim_bytes, COLON, CR, LF, SLASH, ZERO,
};
use vstd::prelude::*;

verus! {

/// One write for the caller to perform: `data`, verbatim, into `file`.
#[derive(Debug)]
pub struct WriteRequest {
    /// The real-filesystem location of the control file.
    pub file: Vec<u8>,
    /// The bytes to write, in one chunk, nothing added.
    pub data: Vec<u8>,
}

/// What creating a group comes to, given whether it already exists.
#[derive(Debug)]
pub enum CreatePlan {
    /// The group already exists: a notice, nothing else. Not a failure.
    AlreadyExists,
    /// Create the directory and all missing ancestors in one step.
    Create,
    /// Create as above, then recursively change ownership to `owner` — only
    /// on first creation, never for a group that already existed.
    CreateAndChown { owner: Vec<u8> },
}

/// The write that was under way when an I/O failure came back, so the
/// failure maps to the right error kind.
pub enum WriteOp {
    /// Opening the process-membership file for appending.
    ClassifyOpen,
    /// Appending a process ID to the membership file.
    ClassifyWrite,
    /// Opening the subtree-control file for appending.
    SubtreeOpen,
    /// Appending one `+<controller>` token to the subtree-control file.
    SubtreeWrite { controller: Vec<u8> },
    /// Opening the named restriction attribute file for writing.
    RestrictionOpen { key: Vec<u8> },
    /// Writing the restriction value.
    RestrictionWrite,
}

/// Spec-level value of a [`WriteOp`].
pub enum WriteOpV {
    ClassifyOpen,
    ClassifyWrite,
    SubtreeOpen,
    SubtreeWrite { controller: Seq<u8> },
    RestrictionOpen { key: Seq<u8> },
    RestrictionWrite,
}

impl View for WriteOp {
    type V = WriteOpV;

    open spec fn view(&self) -> WriteOpV {
        match self {
            WriteOp::ClassifyOpen => WriteOpV::ClassifyOpen,
            WriteOp::ClassifyWrite => WriteOpV::ClassifyWrite,
            WriteOp::SubtreeOpen => WriteOpV::SubtreeOpen,
            WriteOp::SubtreeWrite { controller } => {
                WriteOpV::SubtreeWrite { controller: controller@ }
            },
            WriteOp::RestrictionOpen { key } => WriteOpV::RestrictionOpen { key: key@ },
            WriteOp::RestrictionWrite => WriteOpV::RestrictionWrite,
        }
    }
}

/// The error that an I/O failure of kind `kind` during `op` on the group at
/// `group` stands for. Permission denials name the action; a missing
/// restriction attribute file means the restriction is unavailable for this
/// group; everything else is a generic I/O failure with the group as
/// context.
pub open spec fn io_error_of(group: Seq<u8>, op: WriteOpV, kind: IoErrorKind) -> ErrorV {
    match op {
        WriteOpV::ClassifyOpen => if kind == IoErrorKind::PermissionDenied {
            ErrorV::PermissionDenied { group, action: PermissionActionV::Classify }
        } else {
            ErrorV::Io { group }
        },
        WriteOpV::ClassifyWrite => if kind == IoErrorKind::PermissionDenied {
            ErrorV::PermissionDenied { group, action: PermissionActionV::Detach }
        } else {
            ErrorV::Io { group }
        },
        WriteOpV::SubtreeOpen => if kind == IoErrorKind::PermissionDenied {
            ErrorV::PermissionDenied { group, action: PermissionActionV::SubtreeControl }
        } else {
            ErrorV::Io { group }
        },
        WriteOpV::SubtreeWrite { controller } => if kind == IoErrorKind::PermissionDenied {
            ErrorV::PermissionDenied {
                group,
                action: PermissionActionV::EnableController { controller },
            }
        } else {
            ErrorV::Io { group }
        },
        WriteOpV::RestrictionOpen { key } => if kind == IoErrorKind::PermissionDenied {
            ErrorV::PermissionDenied { group, action: PermissionActionV::SetRestriction { key } }
        } else if kind == IoErrorKind::NotFound {
            ErrorV::RestrictionUnavailable { group, key }
        } else {
            ErrorV::Io { group }
        },
        WriteOpV::RestrictionWrite => ErrorV::Io { group },
    }
}

/// The suffix `/cgroup.procs`: the process-membership file of a group.
pub open spec fn procs_suffix() -> Seq<u8> {
    seq![47u8, 99, 103, 114, 111, 117, 112, 46, 112, 114, 111, 99, 115]
}

/// The suffix `/cgroup.controllers`: the enabled-controller list of a group.
pub open spec fn controllers_suffix() -> Seq<u8> {
    seq![47u8, 99, 103, 114, 111, 117, 112, 46, 99, 111, 110, 116, 114, 111, 108, 108, 101, 114, 115]
}

/// The suffix `/cgroup.subtree_control`: where a group grants controllers
/// to its children.
pub open spec fn subtree_control_suffix() -> Seq<u8> {
    seq![47u8, 99, 103, 114, 111, 117, 112, 46, 115, 117, 98, 116, 114, 101, 101, 95, 99, 111, 110, 116, 114, 111, 108]
}

/// The prefix `/proc/`, then the process ID, then the suffix `/cgroup`: the
/// per-process group-assignment file.
pub open spec fn proc_cgroup_file(pid: nat) -> Seq<u8> {
    seq![47u8, 112, 114, 111, 99, 47] + decimal(pid) + seq![47u8, 99, 103, 114, 111, 117, 112]
}

/// Holds when the trimmed group-assignment contents are the single unified
/// hierarchy line `0::<absolute path>` and nothing more: a line break in
/// the path part means further lines follow, as the legacy multi-hierarchy
/// format has them.
pub open spec fn proc_line_ok(contents: Seq<u8>) -> bool {
    let t = trim(contents);
    &&& t.len() > 3
    &&& t[0] == ZERO
    &&& t[1] == COLON
    &&& t[2] == COLON
    &&& t[3] == SLASH
    &&& !has_byte(t.skip(3), LF)
    &&& !has_byte(t.skip(3), CR)
}

impl CGroup {
    /// Parses the contents of a per-process group-assignment file. Only the
    /// single trimmed line `0::<path>` of the unified hierarchy is accepted;
    /// anything else — the legacy multi-hierarchy format above all — is the
    /// distinct unsupported-hierarchy error, apart from ordinary I/O
    /// failures, which stay with the caller that read the file.
    pub fn from_proc_pid_cgroup(contents: &[u8]) -> (r: Result<CGroup, Error>)
        ensures
            match r {
                Result::Ok(g) => proc_line_ok(contents@) && g.wf() && g@ == trim(
                    contents@,
                ).skip(3),
                Result::Err(e) => !proc_line_ok(contents@) && e@ == ErrorV::UnsupportedHierarchy,
            },
    {
        let t = trim_bytes(contents);
        if t.len() > 3 && t[0] == ZERO && t[1] == COLON && t[2] == COLON && t[3] == SLASH {
            let mut path: Vec<u8> = Vec::new();
            let mut i: usize = 3;
            while i < t.len()
                invariant
                    3 <= i <= t@.len(),
                    path@ == t@.subrange(3, i as int),
                decreases t@.len() - i,
            {
                let b = t[i];
                path.push(b);
                proof {
                    assert(path@ =~= t@.subrange(3, i + 1));
                }
                i += 1;
            }
            proof {
                assert(path@ =~= trim(contents@).skip(3));
                lemma_index_of_byte(path@, LF);
                lemma_index_of_byte(path@, CR);
            }
            let lf_at = find_byte(path.as_slice(), LF);
            let cr_at = find_byte(path.as_slice(), CR);
            if lf_at == path.len() && cr_at == path.len() {
                Result::Ok(CGroup::from_cgroup_path(path))
            } else {
                Result::Err(Error::UnsupportedHierarchy)
            }
        } else {
            Result::Err(Error::UnsupportedHierarchy)
        }
    }

    /// The real-filesystem location of this group's process-membership file.
    pub fn procs_file(&self) -> (r: Vec<u8>)
        requires
            self.wf(),
        ensures
            r@ == mount_root() + self@ + procs_suffix(),
    {
        let mut r = self.cgroupfs_path();
        r.push(47);  // /
        r.push(99);  // c
        r.push(103);  // g
        r.push(114);  // r
        r.push(111);  // o
        r.push(117);  // u
        r.push(112);  // p
        r.push(46);  // .
        r.push(112);  // p
        r.push(114);  // r
        r.push(111);  // o
        r.push(99);  // c
        r.push(115);  // s
        proof {
            assert(r@ =~= mount_root() + self@ + procs_suffix());
        }
        r
    }

    /// The real-filesystem location of this group's controller-list file.
    pub fn controllers_file(&self) -> (r: Vec<u8>)
        requires
            self.wf(),
        ensures
            r@ == mount_root() + self@ + controllers_suffix(),
    {
        let mut r = self.cgroupfs_path();
        r.push(47);  // /
        r.push(99);  // c
        r.push(103);  // g
        r.push(114);  // r
        r.push(111);  // o
        r.push(117);  // u
        r.push(112);  // p
        r.push(46);  // .
        r.push(99);  // c
        r.push(111);  // o
        r.push(110);  // n
        r.push(116);  // t
        r.push(114);  // r
        r.push(111);  // o
        r.push(108);  // l
        r.push(108);  // l
        r.push(101);  // e
        r.push(114);  // r
        r.push(115);  // s
        proof {
            assert(r@ =~= mount_root() + self@ + controllers_suffix());
        }
        r
    }

    /// The real-filesystem location of this group's subtree-control file.
    pub fn subtree_control_file(&self) -> (r: Vec<u8>)
        requires
            self.wf(),
        ensures
            r@ == mount_root() + self@ + subtree_control_suffix(),
    {
        let mut r = self.cgroupfs_path();
        r.push(47);  // /
        r.push(99);  // c
        r.push(103);  // g
        r.push(114);  // r
        r.push(111);  // o
        r.push(117);  // u
        r.push(112);  // p
        r.push(46);  // .
        r.push(115);  // s
        r.push(117);  // u
        r.push(98);  // b
        r.push(116);  // t
        r.push(114);  // r
        r.push(101);  // e
        r.push(101);  // e
        r.push(95);  // _
        r.push(99);  // c
        r.push(111);  // o
        r.push(110);  // n
        r.push(116);  // t
        r.push(114);  // r
        r.push(111);  // o
        r.push(108);  // l
        proof {
            assert(r@ =~= mount_root() + self@ + subtree_control_suffix());
        }
        r
    }

    /// The location of the per-process group-assignment file for `pid`, for
    /// the caller to read before [`CGroup::from_proc_pid_cgroup`].
    pub fn proc_cgroup_path(pid: u32) -> (r: Vec<u8>)
        ensures
            r@ == proc_cgroup_file(pid as nat),
    {
        let mut r: Vec<u8> = Vec::new();
        r.push(47);  // /
        r.push(112);  // p
        r.push(114);  // r
        r.push(111);  // o
        r.push(99);  // c
        r.push(47);  // /
        let mut digits = format_u32(pid);
        r.append(&mut digits);
        r.push(47);  // /
        r.push(99);  // c
        r.push(103);  // g
        r.push(114);  // r
        r.push(111);  // o
        r.push(117);  // u
        r.push(112);  // p
        proof {
            assert(r@ =~= proc_cgroup_file(pid as nat));
        }
        r
    }

    /// Decides what creating this group comes to: a group that already
    /// exists is an informational notice and nothing else, so creating twice
    /// neither errors the second time nor touches anything again.
    pub fn create(&self, exists: bool) -> (r: CreatePlan)
        ensures
            r is AlreadyExists <==> exists,
            r is Create <==> !exists,
    {
        if exists {
            CreatePlan::AlreadyExists
        } else {
            CreatePlan::Create
        }
    }

    /// Like [`CGroup::create`], but on first creation ownership is changed
    /// recursively to `owner`. A group that already existed keeps its owner:
    /// ownership is a one-time initialization, not an idempotent
    /// restriction.
    pub fn create_and_chown(&self, exists: bool, owner: Option<&Vec<u8>>) -> (r: CreatePlan)
        ensures
            r is AlreadyExists <==> exists,
            !exists && owner is None ==> r is Create,
            owner matches Some(o) ==> (!exists ==> (r matches CreatePlan::CreateAndChown {
                owner: w,
            } && w@ == o@)),
    {
        if exists {
            CreatePlan::AlreadyExists
        } else {
            match owner {
                Option::None => CreatePlan::Create,
                Option::Some(o) => CreatePlan::CreateAndChown {
                    owner: slice_to_vec(o.as_slice()),
                },
            }
        }
    }

    /// Classifies process `pid` into this group: the decimal process ID,
    /// appended to the membership file. A group that does not exist is the
    /// distinct missing-group error before any write is attempted — the
    /// membership file could be unopenable for other reasons, and no partial
    /// side effect must happen.
    pub fn classify(&self, exists: bool, pid: u32) -> (r: Result<WriteRequest, Error>)
        requires
            self.wf(),
        ensures
            match r {
                Result::Ok(w) => exists && w.file@ == mount_root() + self@ + procs_suffix()
                    && w.data@ == decimal(pid as nat),
                Result::Err(e) => !exists && e@ == (ErrorV::GroupMissing { group: self@ }),
            },
    {
        if !exists {
            let group = slice_to_vec(self.as_cgroup_path().as_slice());
            return Result::Err(Error::GroupMissing { group });
        }
        let file = self.procs_file();
        let data = format_u32(pid);
        Result::Ok(WriteRequest { file, data })
    }

    /// The controllers enabled for this group: the whitespace-separated
    /// names in its controller-list file, in stored order. Read fresh on
    /// every query — enablement changes out-of-band. A group that does not
    /// exist is the distinct missing-group error.
    pub fn controllers(&self, exists: bool, contents: &[u8]) -> (r: Result<Vec<Vec<u8>>, Error>)
        requires
            self.wf(),
        ensures
            match r {
                Result::Ok(cs) => exists && names(cs@) == split_ws(contents@),
                Result::Err(e) => !exists && e@ == (ErrorV::GroupMissing { group: self@ }),
            },
    {
        if !exists {
            let group = slice_to_vec(self.as_cgroup_path().as_slice());
            return Result::Err(Error::GroupMissing { group });
        }
        Result::Ok(split_whitespace(contents))
    }

    /// Says whether this group directly owns processes: whether its
    /// membership file is non-empty once trimmed. A group that does not
    /// exist is the distinct missing-group error.
    pub fn has_processes(&self, exists: bool, contents: &[u8]) -> (r: Result<bool, Error>)
        requires
            self.wf(),
        ensures
            match r {
                Result::Ok(b) => exists && b == (trim(contents@).len() > 0),
                Result::Err(e) => !exists && e@ == (ErrorV::GroupMissing { group: self@ }),
            },
    {
        if !exists {
            let group = slice_to_vec(self.as_cgroup_path().as_slice());
            return Result::Err(Error::GroupMissing { group });
        }
        let t = trim_bytes(contents);
        Result::Ok(t.len() > 0)
    }

    /// Sets the restriction `key` (a controller-attribute file name such as
    /// `cpu.max`) to `value`: exactly the value's bytes, written in one
    /// chunk to the file named `key` under this group's mapped location,
    /// nothing appended. A group that does not exist is the distinct
    /// missing-group error before anything is opened.
    pub fn set_restriction(&self, exists: bool, key: &[u8], value: &[u8]) -> (r: Result<
        WriteRequest,
        Error,
    >)
        requires
            self.wf(),
        ensures
            match r {
                Result::Ok(w) => exists && w.file@ == mount_root() + self@ + seq![SLASH] + key@
                    && w.data@ == value@,
                Result::Err(e) => !exists && e@ == (ErrorV::GroupMissing { group: self@ }),
            },
    {
        if !exists {
            let group = slice_to_vec(self.as_cgroup_path().as_slice());
            return Result::Err(Error::GroupMissing { group });
        }
        let mut file = self.cgroupfs_path();
        file.push(SLASH);
        let ghost with_sep = file@;
        let mut i: usize = 0;
        while i < key.len()
            invariant
                i <= key@.len(),
                file@ == with_sep + key@.subrange(0, i as int),
            decreases key@.len() - i,
        {
            let b = key[i];
            file.push(b);
            proof {
                assert(file@ =~= with_sep + key@.subrange(0, i + 1));
            }
            i += 1;
        }
        proof {
            assert(file@ =~= mount_root() + self@ + seq![SLASH] + key@);
        }
        let data = slice_to_vec(value);
        Result::Ok(WriteRequest { file, data })
    }

    /// Maps an I/O failure the caller ran into back to the error taxonomy,
    /// exactly as [`io_error_of`] states it.
    pub fn interpret_io_error(&self, op: WriteOp, kind: IoErrorKind) -> (r: Error)
        requires
            self.wf(),
        ensures
            r@ == io_error_of(self@, op@, kind),
    {
        let group = slice_to_vec(self.as_cgroup_path().as_slice());
        match op {
            WriteOp::ClassifyOpen => {
                if kind == IoErrorKind::PermissionDenied {
                    Error::PermissionDenied { group, action: PermissionAction::Classify }
                } else {
                    Error::Io { group }
                }
            },
            WriteOp::ClassifyWrite => {
                if kind == IoErrorKind::PermissionDenied {
                    Error::PermissionDenied { group, action: PermissionAction::Detach }
                } else {
                    Error::Io { group }
                }
            },
            WriteOp::SubtreeOpen => {
                if kind == IoErrorKind::PermissionDenied {
                    Error::PermissionDenied { group, action: PermissionAction::SubtreeControl }
                } else {
                    Error::Io { group }
                }
            },
            WriteOp::SubtreeWrite { controller } => {
                if kind == IoErrorKind::PermissionDenied {
                    Error::PermissionDenied {
                        group,
                        action: PermissionAction::EnableController { controller },
                    }
                } else {
                    Error::Io { group }
                }
            },
            WriteOp::RestrictionOpen { key } => {
                if kind == IoErrorKind::PermissionDenied {
                    Error::PermissionDenied {
                        group,
                        action: PermissionAction::SetRestriction { key },
                    }
                } else if kind == IoErrorKind::NotFound {
                    Error::RestrictionUnavailable { group, key }
                } else {
                    Error::Io { group }
                }
            },
            WriteOp::RestrictionWrite => Error::Io { group },
        }
    }
}

/// The single token `+<controller>` that enables a controller when appended
/// to a subtree-control file. It must be written as one chunk.
pub fn plus_token(controller: &[u8]) -> (r: Vec<u8>)
    ensures
        r@ == seq![crate::text::PLUS] + controller@,
{
    let mut r: Vec<u8> = Vec::new();
    r.push(crate::text::PLUS);
    let mut rest = slice_to_vec(controller);
    r.append(&mut rest);
    r
}

} // verus!
