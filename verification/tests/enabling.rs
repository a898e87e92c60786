use cg2tools::{Action, CGroup, Error, GroupStatus};

fn group(path: &str) -> CGroup {
    CGroup::from_cgroup_path(path.as_bytes().to_vec())
}

fn controllers(names: &[&str]) -> Vec<Vec<u8>> {
    names.iter().map(|n| n.as_bytes().to_vec()).collect()
}

fn status(path: &str, exists: bool, ctrls: &[&str], populated: bool) -> GroupStatus {
    GroupStatus { group: group(path), exists, controllers: controllers(ctrls), populated }
}

/// The chain for a group at `/a/b`: itself, `/a`, and the root.
fn chain_ab(
    own: &[&str],
    parent: &[&str],
    root: &[&str],
    parent_populated: bool,
) -> Vec<GroupStatus> {
    vec![
        status("/a/b", true, own, false),
        status("/a", true, parent, parent_populated),
        status("/", true, root, false),
    ]
}

fn grants(plan: &[Action]) -> Vec<(Vec<u8>, Vec<u8>)> {
    plan.iter()
        .filter_map(|a| match a {
            Action::EnableInSubtree { group, controller } => {
                Some((group.clone(), controller.clone()))
            },
            Action::WarnNonEmpty { .. } => None,
        })
        .collect()
}

#[test]
fn empty_request_is_a_no_op_regardless_of_state() {
    let g = group("/a/b");
    let none: Vec<Vec<u8>> = Vec::new();
    // Even on a chain of groups that do not exist, nothing is planned.
    let chain = vec![
        status("/a/b", false, &[], false),
        status("/a", false, &[], false),
        status("/", false, &[], false),
    ];
    assert!(g.chain_matches(&chain));
    let plan = g.enable_controllers(&none, &chain).unwrap();
    assert!(plan.is_empty());
}

#[test]
fn already_enabled_short_circuits_before_the_ancestor_check() {
    let g = group("/a/b");
    // The parent lacks both controllers; the target already has them.
    let chain = chain_ab(&["cpu", "memory"], &[], &[], false);
    assert!(g.chain_matches(&chain));
    let plan = g.enable_controllers(&controllers(&["cpu", "memory"]), &chain).unwrap();
    assert!(plan.is_empty());
}

#[test]
fn enabling_walks_transitively_parents_first() {
    let g = group("/a/b");
    // Nobody but the root has cpu: it must be granted at /a (for /a/b) and
    // at / (for /a), the grant at / coming first.
    let chain = chain_ab(&[], &[], &["cpu"], false);
    assert!(g.chain_matches(&chain));
    let plan = g.enable_controllers(&controllers(&["cpu"]), &chain).unwrap();
    assert_eq!(
        grants(&plan),
        vec![
            (b"/".to_vec(), b"cpu".to_vec()),
            (b"/a".to_vec(), b"cpu".to_vec()),
        ]
    );
}

#[test]
fn enabling_skips_levels_that_already_have_the_controller() {
    let g = group("/a/b");
    // The parent already has cpu enabled for itself: only the grant to the
    // target's children list is needed.
    let chain = chain_ab(&[], &["cpu"], &["cpu"], false);
    let plan = g.enable_controllers(&controllers(&["cpu"]), &chain).unwrap();
    assert_eq!(grants(&plan), vec![(b"/a".to_vec(), b"cpu".to_vec())]);
}

#[test]
fn enabling_fails_at_the_root_naming_the_missing_controllers() {
    let g = group("/a/b");
    let chain = chain_ab(&["io"], &[], &["cpu"], false);
    let requested = controllers(&["io", "mem", "cpu", "pids"]);
    match g.enable_controllers(&requested, &chain) {
        Err(Error::ControllersUnavailable { controllers: missing }) => {
            // Exactly the requested controllers that are enabled nowhere,
            // in request order: io is enabled at the target, cpu at the root.
            assert_eq!(missing, vec![b"mem".to_vec(), b"pids".to_vec()]);
        },
        other => panic!("expected the root to fail, got {other:?}"),
    }
}

#[test]
fn enabling_warns_on_a_populated_parent() {
    let g = group("/a/b");
    let chain = chain_ab(&[], &["cpu"], &["cpu"], true);
    let plan = g.enable_controllers(&controllers(&["cpu"]), &chain).unwrap();
    assert!(matches!(&plan[0], Action::WarnNonEmpty { group } if group == b"/a"));
    assert_eq!(grants(&plan), vec![(b"/a".to_vec(), b"cpu".to_vec())]);
}

#[test]
fn enabling_a_trailing_separator_path_grants_in_real_ancestors() {
    // The ancestor chain of `/a/b/` is `/a` and the root, not the group
    // itself, so the grants land in real ancestors only.
    let g = group("/a/b/");
    let chain = vec![
        status("/a/b/", true, &[], false),
        status("/a", true, &[], false),
        status("/", true, &["cpu"], false),
    ];
    assert!(g.chain_matches(&chain));
    let plan = g.enable_controllers(&controllers(&["cpu"]), &chain).unwrap();
    assert_eq!(
        grants(&plan),
        vec![
            (b"/".to_vec(), b"cpu".to_vec()),
            (b"/a".to_vec(), b"cpu".to_vec()),
        ]
    );
}

#[test]
fn enabling_fails_on_a_missing_group() {
    let g = group("/a/b");
    let chain = vec![
        status("/a/b", true, &[], false),
        status("/a", false, &[], false),
        status("/", true, &["cpu"], false),
    ];
    match g.enable_controllers(&controllers(&["cpu"]), &chain) {
        Err(Error::GroupMissing { group }) => assert_eq!(group, b"/a".to_vec()),
        other => panic!("expected the parent to be reported missing, got {other:?}"),
    }
}

#[test]
fn subtree_control_grants_as_given_after_enabling_itself() {
    let g = group("/a");
    let chain = vec![status("/a", true, &["cpu"], false), status("/", true, &["cpu"], false)];
    assert!(g.chain_matches(&chain));
    // The group already has cpu for itself; granting it to children is
    // still written, unfiltered.
    let plan = g.enable_subtree_control(&controllers(&["cpu"]), &chain).unwrap();
    assert_eq!(grants(&plan), vec![(b"/a".to_vec(), b"cpu".to_vec())]);
}

#[test]
fn enable_controller_for_restriction_uses_the_key_prefix() {
    let g = group("/a/b");
    let chain = chain_ab(&[], &[], &["cpu"], false);
    let plan = g.enable_controller_for_restriction(b"cpu.max", &chain).unwrap();
    assert_eq!(
        grants(&plan),
        vec![
            (b"/".to_vec(), b"cpu".to_vec()),
            (b"/a".to_vec(), b"cpu".to_vec()),
        ]
    );
}

#[test]
fn chain_matches_rejects_a_chain_built_for_another_group() {
    let g = group("/a/b");
    // Wrong head.
    let chain = vec![status("/a", true, &[], false), status("/", true, &[], false)];
    assert!(!g.chain_matches(&chain));
    // Missing root.
    let chain = vec![status("/a/b", true, &[], false), status("/a", true, &[], false)];
    assert!(!g.chain_matches(&chain));
    // Broken link.
    let chain = vec![
        status("/a/b", true, &[], false),
        status("/x", true, &[], false),
        status("/", true, &[], false),
    ];
    assert!(!g.chain_matches(&chain));
    // The real chain passes.
    let chain = vec![
        status("/a/b", true, &[], false),
        status("/a", true, &[], false),
        status("/", true, &[], false),
    ];
    assert!(g.chain_matches(&chain));
}
