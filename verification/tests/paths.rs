use cg2tools::CGroup;

fn group(path: &str) -> CGroup {
    CGroup::from_cgroup_path(path.as_bytes().to_vec())
}

#[test]
fn append_relative_appends_after_separator() {
    let mut cgroup = group("/a/b/c");
    assert_eq!(cgroup.append(b"d"), true);
    assert_eq!(cgroup.as_cgroup_path(), b"/a/b/c/d");
    assert_eq!(cgroup.append(b"e/f"), true);
    assert_eq!(cgroup.as_cgroup_path(), b"/a/b/c/d/e/f");
}

#[test]
fn append_absolute_replaces_wholesale() {
    let mut cgroup = group("/a/b/c");
    assert_eq!(cgroup.append(b"/e"), true);
    assert_eq!(cgroup.as_cgroup_path(), b"/e");
    assert_eq!(cgroup.append(b"/e"), false);
    assert_eq!(cgroup.as_cgroup_path(), b"/e");
}

#[test]
fn append_dot_and_empty_report_no_change() {
    let mut cgroup = group("/a/b");
    assert_eq!(cgroup.append(b"."), false);
    assert_eq!(cgroup.as_cgroup_path(), b"/a/b");
    assert_eq!(cgroup.append(b""), false);
    assert_eq!(cgroup.as_cgroup_path(), b"/a/b");
}

#[test]
fn append_fragments_that_normalize_away_report_no_change() {
    let mut cgroup = group("/a/b");
    assert_eq!(cgroup.append(b"./"), false);
    assert_eq!(cgroup.as_cgroup_path(), b"/a/b");
    assert_eq!(cgroup.append(b".//."), false);
    assert_eq!(cgroup.as_cgroup_path(), b"/a/b");
    // An absolute fragment naming the same group up to separators and `.`
    // components is a no-op too, and the stored path keeps its old form.
    let mut cgroup = group("/e");
    assert_eq!(cgroup.append(b"/e/"), false);
    assert_eq!(cgroup.as_cgroup_path(), b"/e");
    assert_eq!(cgroup.append(b"/e/."), false);
    assert_eq!(cgroup.as_cgroup_path(), b"/e");
    assert_eq!(cgroup.append(b"/e/f"), true);
    assert_eq!(cgroup.as_cgroup_path(), b"/e/f");
}

#[test]
fn append_keeps_the_joined_form_when_the_group_changes() {
    // A fragment with inner `.` components names a different group, so the
    // call reports a change; the path is stored as joined, unnormalized.
    let mut cgroup = group("/x");
    assert_eq!(cgroup.append(b"a/./b"), true);
    assert_eq!(cgroup.as_cgroup_path(), b"/x/a/./b");
    // A later comparison still goes by components.
    assert_eq!(cgroup.append(b"/x/a/b"), false);
    assert_eq!(cgroup.as_cgroup_path(), b"/x/a/./b");
}

#[test]
fn append_scenario_from_root() {
    let mut cgroup = group("/");
    assert_eq!(cgroup.append(b"delegated"), true);
    assert_eq!(cgroup.as_cgroup_path(), b"/delegated");
    assert_eq!(cgroup.append(b"/absolute"), true);
    assert_eq!(cgroup.as_cgroup_path(), b"/absolute");
    assert_eq!(cgroup.append(b"/absolute"), false);
    assert_eq!(cgroup.as_cgroup_path(), b"/absolute");
}

#[test]
fn parent_walks_toward_root() {
    let cgroup = group("/a/b");
    let p = cgroup.parent().unwrap();
    assert_eq!(p.as_cgroup_path(), b"/a");
    let pp = p.parent().unwrap();
    assert_eq!(pp.as_cgroup_path(), b"/");
    assert!(pp.parent().is_none());
}

#[test]
fn parent_resolves_real_ancestors() {
    // Trailing separators, separator runs and `.` components do not make a
    // group its own parent: the parent drops the last real component.
    let g = group("/a/b/");
    assert_eq!(g.parent().unwrap().as_cgroup_path(), b"/a");
    let g = group("/a//b");
    assert_eq!(g.parent().unwrap().as_cgroup_path(), b"/a");
    let g = group("/a/./b");
    assert_eq!(g.parent().unwrap().as_cgroup_path(), b"/a");
    let g = group("/a/.");
    assert_eq!(g.parent().unwrap().as_cgroup_path(), b"/");
    // Paths without a real component are the root: no parent.
    assert!(group("//").parent().is_none());
    assert!(group("/.").parent().is_none());
    assert!(group("/./").parent().is_none());
}

#[test]
fn ancestors_of_a_trailing_separator_path() {
    let chain = group("/a/b/").ancestors();
    let paths: Vec<&[u8]> = chain.iter().map(|g| g.as_cgroup_path().as_slice()).collect();
    assert_eq!(paths, vec![b"/a/b/".as_slice(), b"/a".as_slice(), b"/".as_slice()]);
}

#[test]
fn cgroupfs_path_maps_under_mount_root() {
    let cgroup = group("/a/b");
    assert_eq!(cgroup.cgroupfs_path(), b"/sys/fs/cgroup/a/b");
    let root = group("/");
    assert_eq!(root.cgroupfs_path(), b"/sys/fs/cgroup/");
}

#[test]
fn ancestors_list_self_to_root() {
    let cgroup = group("/a/b");
    let chain = cgroup.ancestors();
    let paths: Vec<&[u8]> = chain.iter().map(|g| g.as_cgroup_path().as_slice()).collect();
    assert_eq!(paths, vec![b"/a/b".as_slice(), b"/a".as_slice(), b"/".as_slice()]);
}
