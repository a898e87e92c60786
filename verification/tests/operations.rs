use cg2tools::{
    parse_controller_flag, parse_key_value, plus_token, restriction_controller, CGroup,
    CreatePlan, Error, IoErrorKind, KeyValueError, PermissionAction, WriteOp,
};

fn group(path: &str) -> CGroup {
    CGroup::from_cgroup_path(path.as_bytes().to_vec())
}

#[test]
fn create_twice_is_idempotent_and_never_rechowns() {
    let g = group("/a/b");
    // First call: the group does not exist yet.
    assert!(matches!(g.create(false), CreatePlan::Create));
    let owner = b"user".to_vec();
    match g.create_and_chown(false, Some(&owner)) {
        CreatePlan::CreateAndChown { owner: o } => assert_eq!(o, b"user".to_vec()),
        other => panic!("expected creation with ownership, got {other:?}"),
    }
    // Second call: it exists now; no error, no creation, no ownership step.
    assert!(matches!(g.create(true), CreatePlan::AlreadyExists));
    assert!(matches!(g.create_and_chown(true, Some(&owner)), CreatePlan::AlreadyExists));
    // Without an owner, plain creation.
    assert!(matches!(g.create_and_chown(false, None), CreatePlan::Create));
}

#[test]
fn classify_fails_before_any_write_when_the_group_is_missing() {
    let g = group("/a/b");
    match g.classify(false, 123) {
        Err(Error::GroupMissing { group }) => assert_eq!(group, b"/a/b".to_vec()),
        other => panic!("expected the missing group to fail, got {other:?}"),
    }
    let w = g.classify(true, 123).unwrap();
    assert_eq!(w.file, b"/sys/fs/cgroup/a/b/cgroup.procs".to_vec());
    assert_eq!(w.data, b"123".to_vec());
    let w = g.classify(true, 0).unwrap();
    assert_eq!(w.data, b"0".to_vec());
    let w = g.classify(true, u32::MAX).unwrap();
    assert_eq!(w.data, b"4294967295".to_vec());
}

#[test]
fn set_restriction_writes_the_value_verbatim_to_the_key_file() {
    let g = group("/a/b");
    let w = g.set_restriction(true, b"cpu.max", b"90000 100000").unwrap();
    assert_eq!(w.file, b"/sys/fs/cgroup/a/b/cpu.max".to_vec());
    assert_eq!(w.data, b"90000 100000".to_vec());
    assert!(matches!(
        g.set_restriction(false, b"cpu.max", b"90000 100000"),
        Err(Error::GroupMissing { .. })
    ));
}

#[test]
fn controllers_splits_on_whitespace() {
    let g = group("/a");
    let cs = g.controllers(true, b"cpu io memory\n").unwrap();
    assert_eq!(cs, vec![b"cpu".to_vec(), b"io".to_vec(), b"memory".to_vec()]);
    let cs = g.controllers(true, b"\n").unwrap();
    assert_eq!(cs, Vec::<Vec<u8>>::new());
    let cs = g.controllers(true, b"  cpu\t\tmemory  ").unwrap();
    assert_eq!(cs, vec![b"cpu".to_vec(), b"memory".to_vec()]);
    // Vertical tab separates like any other whitespace.
    let cs = g.controllers(true, b"cpu\x0bmemory").unwrap();
    assert_eq!(cs, vec![b"cpu".to_vec(), b"memory".to_vec()]);
    assert!(matches!(g.controllers(false, b""), Err(Error::GroupMissing { .. })));
}

#[test]
fn has_processes_reports_a_nonempty_membership_file() {
    let g = group("/a");
    assert_eq!(g.has_processes(true, b"").unwrap(), false);
    assert_eq!(g.has_processes(true, b"\n").unwrap(), false);
    assert_eq!(g.has_processes(true, b"1234\n").unwrap(), true);
    assert!(matches!(g.has_processes(false, b""), Err(Error::GroupMissing { .. })));
}

#[test]
fn proc_line_parses_only_the_unified_format() {
    let g = CGroup::from_proc_pid_cgroup(b"0::/a/b\n").unwrap();
    assert_eq!(g.as_cgroup_path(), b"/a/b");
    let g = CGroup::from_proc_pid_cgroup(b"  0::/  ").unwrap();
    assert_eq!(g.as_cgroup_path(), b"/");
    // The legacy multi-hierarchy format is the distinct unsupported error.
    assert!(matches!(
        CGroup::from_proc_pid_cgroup(b"12:cpu,cpuacct:/a\n11:memory:/a\n"),
        Err(Error::UnsupportedHierarchy)
    ));
    assert!(matches!(CGroup::from_proc_pid_cgroup(b""), Err(Error::UnsupportedHierarchy)));
    // A first line of the right form followed by further lines is not the
    // single-line unified format.
    assert!(matches!(
        CGroup::from_proc_pid_cgroup(b"0::/foo\n1:cpu:/bar\n"),
        Err(Error::UnsupportedHierarchy)
    ));
    assert!(matches!(
        CGroup::from_proc_pid_cgroup(b"0::/foo\r\n1:cpu:/bar\r\n"),
        Err(Error::UnsupportedHierarchy)
    ));
    // A line with the right prefix but no absolute path is malformed too.
    assert!(matches!(CGroup::from_proc_pid_cgroup(b"0::"), Err(Error::UnsupportedHierarchy)));
    assert!(matches!(CGroup::from_proc_pid_cgroup(b"0::x"), Err(Error::UnsupportedHierarchy)));
}

#[test]
fn proc_cgroup_path_names_the_pid_file() {
    assert_eq!(CGroup::proc_cgroup_path(1), b"/proc/1/cgroup".to_vec());
    assert_eq!(CGroup::proc_cgroup_path(65534), b"/proc/65534/cgroup".to_vec());
}

#[test]
fn io_failures_map_to_the_error_taxonomy() {
    let g = group("/a");
    assert!(matches!(
        g.interpret_io_error(WriteOp::ClassifyOpen, IoErrorKind::PermissionDenied),
        Error::PermissionDenied { action: PermissionAction::Classify, .. }
    ));
    assert!(matches!(
        g.interpret_io_error(WriteOp::ClassifyWrite, IoErrorKind::PermissionDenied),
        Error::PermissionDenied { action: PermissionAction::Detach, .. }
    ));
    assert!(matches!(
        g.interpret_io_error(WriteOp::ClassifyOpen, IoErrorKind::NotFound),
        Error::Io { .. }
    ));
    assert!(matches!(
        g.interpret_io_error(WriteOp::SubtreeOpen, IoErrorKind::PermissionDenied),
        Error::PermissionDenied { action: PermissionAction::SubtreeControl, .. }
    ));
    match g.interpret_io_error(
        WriteOp::SubtreeWrite { controller: b"cpu".to_vec() },
        IoErrorKind::PermissionDenied,
    ) {
        Error::PermissionDenied {
            action: PermissionAction::EnableController { controller },
            ..
        } => assert_eq!(controller, b"cpu".to_vec()),
        other => panic!("expected a permission error naming cpu, got {other:?}"),
    }
    match g.interpret_io_error(
        WriteOp::RestrictionOpen { key: b"cpu.max".to_vec() },
        IoErrorKind::NotFound,
    ) {
        Error::RestrictionUnavailable { group, key } => {
            assert_eq!(group, b"/a".to_vec());
            assert_eq!(key, b"cpu.max".to_vec());
        },
        other => panic!("expected the restriction to be unavailable, got {other:?}"),
    }
    assert!(matches!(
        g.interpret_io_error(WriteOp::RestrictionOpen { key: b"cpu.max".to_vec() },
            IoErrorKind::PermissionDenied),
        Error::PermissionDenied { action: PermissionAction::SetRestriction { .. }, .. }
    ));
    assert!(matches!(
        g.interpret_io_error(WriteOp::RestrictionWrite, IoErrorKind::PermissionDenied),
        Error::Io { .. }
    ));
}

#[test]
fn plus_token_prefixes_the_controller() {
    assert_eq!(plus_token(b"cpu"), b"+cpu".to_vec());
    assert_eq!(plus_token(b""), b"+".to_vec());
}

#[test]
fn key_value_arguments_are_validated() {
    let (k, v) = parse_key_value(b"cpu.max=90000").unwrap();
    assert_eq!(k, b"cpu.max".to_vec());
    assert_eq!(v, b"90000".to_vec());
    // The value is verbatim, later separators included.
    let (k, v) = parse_key_value(b"a.b=c,d").unwrap();
    assert_eq!(k, b"a.b".to_vec());
    assert_eq!(v, b"c,d".to_vec());
    let (k, v) = parse_key_value(b"cpu.max=a=b").unwrap();
    assert_eq!(k, b"cpu.max".to_vec());
    assert_eq!(v, b"a=b".to_vec());
    assert_eq!(parse_key_value(b"cpu.max").unwrap_err(), KeyValueError::MissingEquals);
    assert_eq!(parse_key_value(b"cpu=90000").unwrap_err(), KeyValueError::MissingDot);
    assert_eq!(parse_key_value(b"CPU.max=1").unwrap_err(), KeyValueError::InvalidKeyChar);
    assert_eq!(parse_key_value(b"cpu max=1").unwrap_err(), KeyValueError::InvalidKeyChar);
}

#[test]
fn controller_flags_only_enable() {
    let f = parse_controller_flag(b"+cpu").unwrap();
    assert_eq!(f.name, b"cpu".to_vec());
    assert!(f.enable);
    assert!(parse_controller_flag(b"-cpu").is_err());
    assert!(parse_controller_flag(b"cpu").is_err());
    assert!(parse_controller_flag(b"").is_err());
}

#[test]
fn restriction_keys_belong_to_their_prefix_controller() {
    assert_eq!(restriction_controller(b"cpu.max"), b"cpu".to_vec());
    assert_eq!(restriction_controller(b"io.bfq.weight"), b"io".to_vec());
    assert_eq!(restriction_controller(b"nodots"), b"nodots".to_vec());
}
