//! Hierarchy-aware controller enabling.
//!
//! A controller is usable in a group only if every ancestor, up to the
//! hierarchy root, grants it to its children through its subtree-control
//! file. Enabling is therefore a depth-first walk toward the root: at each
//! level the controllers already enabled are subtracted, and whatever is
//! still needed is requested from the parent, which first enables it on
//! itself. The walk is idempotent at every level, so nothing is written for
//! controllers that are already active.
//!
//! The walk itself never touches the filesystem. It takes a snapshot of the
//! ancestor chain — one [`GroupStatus`] per level, from the group itself up
//! to the root — and returns the exact sequence of [`Action`]s to perform,
//! or the typed error that the walk runs into. The caller gathers the
//! snapshot, checks it with [`CGroup::chain_matches`], and replays the plan
//! in order.

use crate::cgroup::{is_absolute, parent_of, path_components, path_components_of, CGroup};
use crate::error::{Error, ErrorV};
use crate::parse::restriction_controller;
use crate::text::{bytes_eq, index_of_byte, names, slice_to_vec, DOT};
use vstd::prelude::*;

verus! {

/// A point-in-time snapshot of one group, read from disk by the caller.
/// Every read is possibly stale by the time a subsequent write occurs; the
/// accepted single-writer assumption makes that tolerable.
pub struct GroupStatus {
    /// The group this snapshot describes.
    pub group: CGroup,
    /// Whether the group's directory exists.
    pub exists: bool,
    /// The names in the group's controller-list file.
    pub controllers: Vec<Vec<u8>>,
    /// Whether the group's process-membership file is non-empty.
    pub populated: bool,
}

/// Spec-level value of a [`GroupStatus`].
pub struct GroupStatusV {
    pub group: Seq<u8>,
    pub exists: bool,
    pub controllers: Seq<Seq<u8>>,
    pub populated: bool,
}

impl View for GroupStatus {
    type V = GroupStatusV;

    open spec fn view(&self) -> GroupStatusV {
        GroupStatusV {
            group: self.group@,
            exists: self.exists,
            controllers: names(self.controllers@),
            populated: self.populated,
        }
    }
}

/// One step of an enabling plan, to be performed by the caller in order.
#[derive(Debug)]
pub enum Action {
    /// Print the warning that `group` directly owns processes: enabling
    /// subtree control under a non-empty domain group can silently turn it
    /// into a threaded domain.
    WarnNonEmpty { group: Vec<u8> },
    /// Append the single token `+<controller>` to the subtree-control file
    /// of `group`, and report that controller individually on success.
    EnableInSubtree { group: Vec<u8>, controller: Vec<u8> },
}

/// Spec-level value of an [`Action`].
pub enum PlanStep {
    Warn { group: Seq<u8> },
    Grant { group: Seq<u8>, controller: Seq<u8> },
}

impl View for Action {
    type V = PlanStep;

    open spec fn view(&self) -> PlanStep {
        match self {
            Action::WarnNonEmpty { group } => PlanStep::Warn { group: group@ },
            Action::EnableInSubtree { group, controller } => {
                PlanStep::Grant { group: group@, controller: controller@ }
            },
        }
    }
}

/// The spec-level values of a chain of snapshots.
pub open spec fn chain_view(chain: Seq<GroupStatus>) -> Seq<GroupStatusV> {
    chain.map_values(|g: GroupStatus| g@)
}

/// The spec-level values of a plan.
pub open spec fn plan_view(plan: Seq<Action>) -> Seq<PlanStep> {
    plan.map_values(|a: Action| a@)
}

/// The group a step concerns.
pub open spec fn step_group(step: PlanStep) -> Seq<u8> {
    match step {
        PlanStep::Warn { group } => group,
        PlanStep::Grant { group, controller } => group,
    }
}

/// The predicate that keeps a controller name when `current` lacks it.
pub open spec fn not_in(current: Seq<Seq<u8>>) -> spec_fn(Seq<u8>) -> bool {
    |c: Seq<u8>| !current.contains(c)
}

/// The members of `requested` that are not in `current`: what still has to
/// be enabled. Requested names are kept as given, in order, duplicates and
/// all; they are de-duplicated only against what is already enabled.
pub open spec fn needed_of(requested: Seq<Seq<u8>>, current: Seq<Seq<u8>>) -> Seq<Seq<u8>> {
    requested.filter(not_in(current))
}

/// One grant step per controller, all aimed at `group`.
pub open spec fn grants_of(group: Seq<u8>, controllers: Seq<Seq<u8>>) -> Seq<PlanStep> {
    controllers.map_values(|c: Seq<u8>| PlanStep::Grant { group, controller: c })
}

/// What enabling `requested` on the group at level `i` of `chain` does:
/// either the plan of steps to perform, or the error the walk runs into.
/// Level `i + 1` holds the parent of level `i`; the last level is the root.
///
/// An empty request is a no-op success whatever the state. Otherwise the
/// group must exist; the request is reduced to what is not already enabled;
/// nothing left is a no-op success; and a group without a parent cannot be
/// granted anything, so whatever is still needed at the root is unavailable
/// on this system.
pub open spec fn enable_plan(
    chain: Seq<GroupStatusV>,
    i: int,
    requested: Seq<Seq<u8>>,
) -> Result<Seq<PlanStep>, ErrorV>
    decreases chain.len() - i, 0int,
    when 0 <= i < chain.len()
{
    if requested.len() == 0 {
        Result::Ok(Seq::empty())
    } else if !chain[i].exists {
        Result::Err(ErrorV::GroupMissing { group: chain[i].group })
    } else {
        let needed = needed_of(requested, chain[i].controllers);
        if needed.len() == 0 {
            Result::Ok(Seq::empty())
        } else if i + 1 == chain.len() {
            Result::Err(ErrorV::ControllersUnavailable { controllers: needed })
        } else {
            subtree_plan(chain, i + 1, needed)
        }
    }
}

/// What granting `new_controllers` to the children of the group at level `i`
/// does: warn if that group owns processes, make sure the group itself has
/// the controllers (recursively, toward the root), then append one grant per
/// requested controller — as given, unfiltered, since a group's own enabled
/// set is separate from what it grants its children.
pub open spec fn subtree_plan(
    chain: Seq<GroupStatusV>,
    i: int,
    new_controllers: Seq<Seq<u8>>,
) -> Result<Seq<PlanStep>, ErrorV>
    decreases chain.len() - i, 1int,
    when 0 <= i < chain.len()
{
    if !chain[i].exists {
        Result::Err(ErrorV::GroupMissing { group: chain[i].group })
    } else {
        let warn: Seq<PlanStep> = if chain[i].populated {
            seq![PlanStep::Warn { group: chain[i].group }]
        } else {
            Seq::empty()
        };
        match enable_plan(chain, i, new_controllers) {
            Result::Ok(sub) => Result::Ok(
                warn + sub + grants_of(chain[i].group, new_controllers),
            ),
            Result::Err(e) => Result::Err(e),
        }
    }
}

/// Relates an executable outcome to its spec-level counterpart.
pub open spec fn outcome_matches(
    r: Result<Vec<Action>, Error>,
    s: Result<Seq<PlanStep>, ErrorV>,
) -> bool {
    match r {
        Result::Ok(plan) => match s {
            Result::Ok(sp) => plan_view(plan@) == sp,
            Result::Err(_) => false,
        },
        Result::Err(e) => match s {
            Result::Ok(_) => false,
            Result::Err(ev) => e@ == ev,
        },
    }
}

/// Holds when `chain` is the ancestor chain of the group at `head`: the
/// group itself first, each level followed by its parent, the root — a path
/// without a real component — last.
pub open spec fn chain_wf(head: Seq<u8>, chain: Seq<GroupStatusV>) -> bool {
    &&& chain.len() >= 1
    &&& chain[0].group == head
    &&& path_components(chain.last().group).len() == 0
    &&& forall|i: int|
        0 <= i < chain.len() - 1 ==> path_components((#[trigger] chain[i]).group).len() > 0
            && chain[i + 1].group == parent_of(chain[i].group)
}

impl CGroup {
    /// Allows this group to set restrictions on the given controllers, by
    /// planning the writes that enable each one at every level from the
    /// first ancestor that already has it down to this group's parent.
    ///
    /// `chain` is the caller's snapshot of this group and its ancestors, as
    /// [`CGroup::chain_matches`] checks. The result is exactly
    /// [`enable_plan`] over that snapshot. In particular an empty request is
    /// an empty plan regardless of the snapshot, and a request whose every
    /// member is already enabled here is an empty plan even if ancestors
    /// lack the controllers: already-enabled short-circuits before any
    /// ancestor is consulted. The short-circuit trusts the snapshot even
    /// though an ancestor could have had a controller disabled out-of-band
    /// since it was taken — an accepted race under the single-operator
    /// assumption, noted here rather than locked against.
    pub fn enable_controllers(
        &self,
        new_controllers: &Vec<Vec<u8>>,
        chain: &Vec<GroupStatus>,
    ) -> (r: Result<Vec<Action>, Error>)
        requires
            self.wf(),
            chain_wf(self@, chain_view(chain@)),
        ensures
            outcome_matches(r, enable_plan(chain_view(chain@), 0, names(new_controllers@))),
            names(new_controllers@).len() == 0 ==> (r matches Result::Ok(plan) && plan@.len()
                == 0),
            (chain_view(chain@)[0].exists && needed_of(
                names(new_controllers@),
                chain_view(chain@)[0].controllers,
            ).len() == 0) ==> (r matches Result::Ok(plan) && plan@.len() == 0),
    {
        let r = enable_at(chain, 0, new_controllers);
        proof {
            let cv = chain_view(chain@);
            let req = names(new_controllers@);
            if req.len() == 0 {
                assert(enable_plan(cv, 0, req) == Result::<Seq<PlanStep>, ErrorV>::Ok(
                    Seq::<PlanStep>::empty(),
                ));
            } else if cv[0].exists && needed_of(req, cv[0].controllers).len() == 0 {
                assert(enable_plan(cv, 0, req) == Result::<Seq<PlanStep>, ErrorV>::Ok(
                    Seq::<PlanStep>::empty(),
                ));
            }
            match &r {
                Result::Ok(plan) => {
                    assert(plan_view(plan@).len() == plan@.len());
                },
                Result::Err(_) => {},
            }
        }
        r
    }

    /// Enables the controller a restriction key belongs to — the key's
    /// prefix up to its first `.` — so that the attribute file the key names
    /// becomes available. Used by auto modes that apply a restriction
    /// without a separate explicit enabling step.
    pub fn enable_controller_for_restriction(
        &self,
        key: &[u8],
        chain: &Vec<GroupStatus>,
    ) -> (r: Result<Vec<Action>, Error>)
        requires
            self.wf(),
            chain_wf(self@, chain_view(chain@)),
        ensures
            outcome_matches(
                r,
                enable_plan(
                    chain_view(chain@),
                    0,
                    seq![key@.take(index_of_byte(key@, DOT))],
                ),
            ),
    {
        let c = restriction_controller(key);
        let mut requested: Vec<Vec<u8>> = Vec::new();
        requested.push(c);
        proof {
            assert(names(requested@) =~= seq![key@.take(index_of_byte(key@, DOT))]);
        }
        self.enable_controllers(&requested, chain)
    }

    /// Allows children of this group to set restrictions on the given
    /// controllers: the subtree-control half of the walk, with this group as
    /// the parent. `chain` is the snapshot of this group and its ancestors.
    pub fn enable_subtree_control(
        &self,
        new_controllers: &Vec<Vec<u8>>,
        chain: &Vec<GroupStatus>,
    ) -> (r: Result<Vec<Action>, Error>)
        requires
            self.wf(),
            chain_wf(self@, chain_view(chain@)),
        ensures
            outcome_matches(r, subtree_plan(chain_view(chain@), 0, names(new_controllers@))),
    {
        subtree_at(chain, 0, new_controllers)
    }
}

impl CGroup {
    /// The chain of groups from this one up to the hierarchy root: this
    /// group first, then its parent, and so on. The caller probes each one
    /// for its snapshot before planning.
    pub fn ancestors(&self) -> (r: Vec<CGroup>)
        requires
            self.wf(),
        ensures
            r@.len() >= 1,
            r@[0]@ == self@,
            path_components(r@.last()@).len() == 0,
            forall|i: int| 0 <= i < r@.len() ==> (#[trigger] r@[i]).wf(),
            forall|i: int|
                0 <= i < r@.len() - 1 ==> path_components((#[trigger] r@[i])@).len() > 0 && r@[
                    i + 1
                ]@ == parent_of(r@[i]@),
        decreases self@.len(),
    {
        let me = CGroup::from_cgroup_path(slice_to_vec(self.as_cgroup_path().as_slice()));
        match self.parent() {
            None => {
                let mut r: Vec<CGroup> = Vec::new();
                r.push(me);
                r
            },
            Some(p) => {
                proof {
                    crate::cgroup::lemma_parent_shorter(self@);
                }
                let rest = p.ancestors();
                let ghost restv = rest@;
                let mut r: Vec<CGroup> = Vec::new();
                r.push(me);
                let mut rest = rest;
                r.append(&mut rest);
                proof {
                    assert(r@ =~= seq![me] + restv);
                    assert(r@[0]@ == self@);
                    assert(r@.last() == restv.last());
                    assert forall|i: int| 0 <= i < r@.len() implies (#[trigger] r@[i]).wf() by {
                        if i > 0 {
                            assert(r@[i] == restv[i - 1]);
                        }
                    }
                    assert forall|i: int|
                        0 <= i < r@.len() - 1 implies path_components(
                        (#[trigger] r@[i])@,
                    ).len() > 0 && r@[i + 1]@ == parent_of(r@[i]@) by {
                        if i == 0 {
                            assert(r@[1] == restv[0]);
                        } else {
                            assert(r@[i] == restv[i - 1]);
                            assert(r@[i + 1] == restv[i]);
                        }
                    }
                }
                r
            },
        }
    }

    /// Checks that `chain` is this group's ancestor chain, snapshot by
    /// snapshot: this group first, each level followed by its parent, the
    /// root last. A caller that assembles snapshots outside the verified
    /// world uses this to fail fast rather than hand the planner a chain it
    /// was not built for.
    #[verifier::loop_isolation(false)]
    pub fn chain_matches(&self, chain: &Vec<GroupStatus>) -> (r: bool)
        requires
            self.wf(),
        ensures
            r == chain_wf(self@, chain_view(chain@)),
    {
        let n = chain.len();
        if n == 0 {
            return false;
        }
        if !bytes_eq(
            chain[0].group.as_cgroup_path().as_slice(),
            self.as_cgroup_path().as_slice(),
        ) {
            return false;
        }
        let root_components = path_components_of(chain[n - 1].group.as_cgroup_path().as_slice());
        if root_components.len() != 0 {
            proof {
                assert(path_components(chain_view(chain@).last().group).len() != 0);
            }
            return false;
        }
        let mut i: usize = 0;
        while i + 1 < n
            invariant
                0 <= i < n,
                is_absolute(chain@[i as int].group@),
                forall|k: int|
                    0 <= k < i ==> path_components(
                        (#[trigger] chain_view(chain@)[k]).group,
                    ).len() > 0 && chain_view(chain@)[k + 1].group == parent_of(
                        chain_view(chain@)[k].group,
                    ),
            decreases n - i,
        {
            match chain[i].group.parent() {
                None => {
                    proof {
                        assert(chain_view(chain@)[i as int].group == chain@[i as int].group@);
                        assert(path_components(chain_view(chain@)[i as int].group).len() == 0);
                    }
                    return false;
                },
                Some(p) => {
                    if !bytes_eq(
                        p.as_cgroup_path().as_slice(),
                        chain[i + 1].group.as_cgroup_path().as_slice(),
                    ) {
                        proof {
                            assert(chain_view(chain@)[i as int].group == chain@[
                                i as int
                            ].group@);
                            assert(chain_view(chain@)[i as int + 1].group == chain@[i as int
                                + 1].group@);
                            assert(chain_view(chain@)[i as int + 1].group != parent_of(
                                chain_view(chain@)[i as int].group,
                            ));
                        }
                        return false;
                    }
                    proof {
                        crate::cgroup::lemma_parent_shorter(chain@[i as int].group@);
                    }
                },
            }
            i += 1;
        }
        true
    }
}

/// The enabling walk at level `i`, exactly as [`enable_plan`] states it.
fn enable_at(chain: &Vec<GroupStatus>, i: usize, requested: &Vec<Vec<u8>>) -> (r: Result<
    Vec<Action>,
    Error,
>)
    requires
        i < chain@.len(),
    ensures
        outcome_matches(r, enable_plan(chain_view(chain@), i as int, names(requested@))),
    decreases chain@.len() - i, 0int,
{
    let n = chain.len();
    if requested.len() == 0 {
        let plan: Vec<Action> = Vec::new();
        proof {
            assert(plan_view(plan@) =~= Seq::<PlanStep>::empty());
        }
        return Result::Ok(plan);
    }
    if !chain[i].exists {
        let group = slice_to_vec(chain[i].group.as_cgroup_path().as_slice());
        return Result::Err(Error::GroupMissing { group });
    }
    let needed = filter_needed(requested, &chain[i].controllers);
    if needed.len() == 0 {
        let plan: Vec<Action> = Vec::new();
        proof {
            assert(plan_view(plan@) =~= Seq::<PlanStep>::empty());
        }
        Result::Ok(plan)
    } else if i + 1 == n {
        Result::Err(Error::ControllersUnavailable { controllers: needed })
    } else {
        subtree_at(chain, i + 1, &needed)
    }
}

/// The subtree-control half of the walk at level `i`, exactly as
/// [`subtree_plan`] states it.
fn subtree_at(chain: &Vec<GroupStatus>, i: usize, new_controllers: &Vec<Vec<u8>>) -> (r: Result<
    Vec<Action>,
    Error,
>)
    requires
        i < chain@.len(),
    ensures
        outcome_matches(r, subtree_plan(chain_view(chain@), i as int, names(new_controllers@))),
    decreases chain@.len() - i, 1int,
{
    if !chain[i].exists {
        let group = slice_to_vec(chain[i].group.as_cgroup_path().as_slice());
        return Result::Err(Error::GroupMissing { group });
    }
    let ghost cv = chain_view(chain@);
    let ghost warn_steps: Seq<PlanStep> = if cv[i as int].populated {
        seq![PlanStep::Warn { group: cv[i as int].group }]
    } else {
        Seq::<PlanStep>::empty()
    };
    let mut plan: Vec<Action> = Vec::new();
    if chain[i].populated {
        let group = slice_to_vec(chain[i].group.as_cgroup_path().as_slice());
        plan.push(Action::WarnNonEmpty { group });
    }
    proof {
        assert(plan_view(plan@) =~= warn_steps);
    }
    match enable_at(chain, i, new_controllers) {
        Result::Err(e) => Result::Err(e),
        Result::Ok(mut sub) => {
            let ghost subv = plan_view(sub@);
            plan.append(&mut sub);
            proof {
                assert(plan_view(plan@) =~= warn_steps + subv);
            }
            let ghost before_grants = plan_view(plan@);
            proof {
                assert(grants_of(cv[i as int].group, names(new_controllers@).subrange(0, 0))
                    =~= Seq::<PlanStep>::empty());
                assert(plan_view(plan@) =~= before_grants + grants_of(
                    cv[i as int].group,
                    names(new_controllers@).subrange(0, 0),
                ));
            }
            let mut j: usize = 0;
            while j < new_controllers.len()
                invariant
                    j <= new_controllers@.len(),
                    i < chain@.len(),
                    plan_view(plan@) == before_grants + grants_of(
                        cv[i as int].group,
                        names(new_controllers@).subrange(0, j as int),
                    ),
                    cv == chain_view(chain@),
                decreases new_controllers@.len() - j,
            {
                let group = slice_to_vec(chain[i].group.as_cgroup_path().as_slice());
                let controller = slice_to_vec(new_controllers[j].as_slice());
                let action = Action::EnableInSubtree { group, controller };
                let ghost av = action@;
                let ghost prev = plan@;
                plan.push(action);
                proof {
                    let g = cv[i as int].group;
                    let ns = names(new_controllers@);
                    assert(av == PlanStep::Grant { group: g, controller: ns[j as int] });
                    assert(plan_view(plan@) =~= plan_view(prev).push(av));
                    assert(ns.subrange(0, j + 1) =~= ns.subrange(0, j as int).push(
                        ns[j as int],
                    ));
                    assert(grants_of(g, ns.subrange(0, j + 1)) =~= grants_of(
                        g,
                        ns.subrange(0, j as int),
                    ).push(av));
                    assert(plan_view(plan@) =~= before_grants + grants_of(
                        g,
                        ns.subrange(0, j + 1),
                    ));
                }
                j += 1;
            }
            proof {
                assert(names(new_controllers@).subrange(0, new_controllers@.len() as int) =~= names(
                    new_controllers@,
                ));
                assert(plan_view(plan@) =~= warn_steps + subv + grants_of(
                    cv[i as int].group,
                    names(new_controllers@),
                ));
            }
            Result::Ok(plan)
        },
    }
}

/// Filters `requested` down to what `current` does not already hold.
fn filter_needed(requested: &Vec<Vec<u8>>, current: &Vec<Vec<u8>>) -> (r: Vec<Vec<u8>>)
    ensures
        names(r@) == needed_of(names(requested@), names(current@)),
{
    let mut r: Vec<Vec<u8>> = Vec::new();
    proof {
        reveal(Seq::filter);
        assert(needed_of(names(requested@).subrange(0, 0), names(current@)) =~= names(r@));
    }
    let mut i: usize = 0;
    while i < requested.len()
        invariant
            i <= requested@.len(),
            names(r@) == needed_of(names(requested@).subrange(0, i as int), names(current@)),
        decreases requested@.len() - i,
    {
        let ghost old_r = names(r@);
        let wanted = !contains_name(current, requested[i].as_slice());
        if wanted {
            let c = slice_to_vec(requested[i].as_slice());
            r.push(c);
        }
        proof {
            let req = names(requested@);
            let cur = names(current@);
            assert(req.subrange(0, i + 1) =~= req.subrange(0, i as int).push(req[i as int]));
            Seq::lemma_filter_push(req.subrange(0, i as int), req[i as int], not_in(cur));
            if wanted {
                assert(names(r@) =~= old_r.push(req[i as int]));
            }
            assert(names(r@) =~= needed_of(req.subrange(0, i + 1), cur));
        }
        i += 1;
    }
    proof {
        assert(names(requested@).subrange(0, requested@.len() as int) =~= names(requested@));
    }
    r
}

/// The predicate that keeps a controller name when no level of `chain` from
/// `s` up has it enabled.
pub open spec fn missing_all(chain: Seq<GroupStatusV>, s: int) -> spec_fn(Seq<u8>) -> bool {
    |c: Seq<u8>|
        forall|j: int| s <= j < chain.len() ==> !(#[trigger] chain[j]).controllers.contains(c)
}

/// The requested controllers that no level of `chain` from `s` up has
/// enabled: what the system cannot provide.
pub open spec fn unavailable_from(
    chain: Seq<GroupStatusV>,
    s: int,
    requested: Seq<Seq<u8>>,
) -> Seq<Seq<u8>> {
    requested.filter(missing_all(chain, s))
}

/// Every element of a filtered sequence occurs in the sequence.
proof fn lemma_filter_is_subset<A>(s: Seq<A>, pred: spec_fn(A) -> bool)
    ensures
        forall|k: int|
            0 <= k < s.filter(pred).len() ==> s.contains(#[trigger] s.filter(pred)[k]),
    decreases s.len(),
{
    reveal(Seq::filter);
    if s.len() == 0 {
    } else {
        let dl = s.drop_last();
        lemma_filter_is_subset(dl, pred);
        assert forall|k: int|
            0 <= k < s.filter(pred).len() implies s.contains(s.filter(pred)[k]) by {
            let f = s.filter(pred);
            let fd = dl.filter(pred);
            if pred(s.last()) && k == fd.len() {
                assert(f[k] == s.last());
                assert(s[s.len() - 1] == s.last());
            } else {
                assert(f[k] == fd[k]);
                assert(dl.contains(fd[k]));
                let m = choose|m: int| 0 <= m < dl.len() && dl[m] == fd[k];
                assert(s[m] == fd[k]);
            }
        }
    }
}

/// Filtering by `p` and then by `q` is filtering by their conjunction `pq`.
proof fn lemma_filter_compose<A>(
    s: Seq<A>,
    p: spec_fn(A) -> bool,
    q: spec_fn(A) -> bool,
    pq: spec_fn(A) -> bool,
)
    requires
        forall|x: A| #[trigger] pq(x) == (p(x) && q(x)),
    ensures
        s.filter(p).filter(q) == s.filter(pq),
    decreases s.len(),
{
    reveal(Seq::filter);
    if s.len() == 0 {
    } else {
        let dl = s.drop_last();
        lemma_filter_compose(dl, p, q, pq);
        if p(s.last()) {
            Seq::lemma_filter_push(dl.filter(p), s.last(), q);
            assert(dl.filter(p).push(s.last()) =~= s.filter(p));
        }
        assert(s.filter(p).filter(q) =~= s.filter(pq));
    }
}

/// Filters by predicates that agree on every element of `s` are equal.
proof fn lemma_filter_congruent<A>(s: Seq<A>, p: spec_fn(A) -> bool, q: spec_fn(A) -> bool)
    requires
        forall|x: A| s.contains(x) ==> p(x) == q(x),
    ensures
        s.filter(p) == s.filter(q),
    decreases s.len(),
{
    reveal(Seq::filter);
    if s.len() == 0 {
    } else {
        let dl = s.drop_last();
        assert forall|x: A| dl.contains(x) implies p(x) == q(x) by {
            let m = choose|m: int| 0 <= m < dl.len() && dl[m] == x;
            assert(s[m] == x);
            assert(s.contains(x));
        }
        lemma_filter_congruent(dl, p, q);
        assert(s[s.len() - 1] == s.last());
        assert(s.contains(s.last()));
        assert(s.filter(p) =~= s.filter(q));
    }
}

/// Law: enabling walks to the parent. If the walk from level `s` succeeds,
/// and a requested controller `c` is enabled nowhere from the target up
/// through level `i`, the plan grants `c` at level `i + 1`: the walk
/// transitively enables the controller on every ancestor below the first
/// one that already has it.
pub proof fn lemma_enable_transitive(
    chain: Seq<GroupStatusV>,
    s: int,
    i: int,
    requested: Seq<Seq<u8>>,
    plan: Seq<PlanStep>,
    c: Seq<u8>,
)
    requires
        0 <= s <= i,
        i + 1 < chain.len(),
        enable_plan(chain, s, requested) == Result::<Seq<PlanStep>, ErrorV>::Ok(plan),
        requested.contains(c),
        forall|j: int| s <= j <= i ==> !(#[trigger] chain[j]).controllers.contains(c),
    ensures
        plan.contains(PlanStep::Grant { group: chain[i + 1].group, controller: c }),
    decreases i - s,
{
    assert(requested.len() > 0);
    assert(chain[s].exists);
    let needed = needed_of(requested, chain[s].controllers);
    let m = choose|m: int| 0 <= m < requested.len() && requested[m] == c;
    assert(not_in(chain[s].controllers)(c));
    requested.lemma_filter_contains(not_in(chain[s].controllers), m);
    assert(needed.contains(c));
    assert(needed.len() > 0);
    assert(s + 1 < chain.len());
    assert(chain[s + 1].exists);
    let ep = enable_plan(chain, s + 1, needed);
    assert(ep is Ok);
    let sub = ep->Ok_0;
    let warn: Seq<PlanStep> = if chain[s + 1].populated {
        seq![PlanStep::Warn { group: chain[s + 1].group }]
    } else {
        Seq::<PlanStep>::empty()
    };
    let grants = grants_of(chain[s + 1].group, needed);
    assert(plan == warn + sub + grants);
    if i == s {
        let k = choose|k: int| 0 <= k < needed.len() && needed[k] == c;
        assert(grants[k] == PlanStep::Grant { group: chain[s + 1].group, controller: c });
        assert(plan[warn.len() + sub.len() + k] == grants[k]);
    } else {
        lemma_enable_transitive(chain, s + 1, i, needed, sub, c);
        let g = PlanStep::Grant { group: chain[i + 1].group, controller: c };
        let k = choose|k: int| 0 <= k < sub.len() && sub[k] == g;
        assert(plan[warn.len() + k] == g);
    }
}

/// Law: enabling fails at the root when a requested controller is enabled
/// nowhere in the chain from level `s` up, even though every group exists,
/// and the error lists exactly the requested controllers that are missing
/// everywhere, in request order.
pub proof fn lemma_enable_fails_at_root(
    chain: Seq<GroupStatusV>,
    s: int,
    requested: Seq<Seq<u8>>,
)
    requires
        0 <= s < chain.len(),
        forall|j: int| s <= j < chain.len() ==> (#[trigger] chain[j]).exists,
        unavailable_from(chain, s, requested).len() > 0,
    ensures
        enable_plan(chain, s, requested) == Result::<Seq<PlanStep>, ErrorV>::Err(
            ErrorV::ControllersUnavailable {
                controllers: unavailable_from(chain, s, requested),
            },
        ),
    decreases chain.len() - s,
{
    let u = unavailable_from(chain, s, requested);
    let needed = needed_of(requested, chain[s].controllers);
    requested.lemma_filter_len(missing_all(chain, s));
    assert(requested.len() > 0);
    lemma_filter_is_subset(requested, missing_all(chain, s));
    requested.lemma_filter_pred(missing_all(chain, s), 0);
    let c0 = u[0];
    assert(requested.contains(c0));
    assert(missing_all(chain, s)(c0));
    assert(!chain[s].controllers.contains(c0));
    let m = choose|m: int| 0 <= m < requested.len() && requested[m] == c0;
    requested.lemma_filter_contains(not_in(chain[s].controllers), m);
    assert(needed.contains(c0));
    assert(needed.len() > 0);
    if s == chain.len() - 1 {
        assert forall|x: Seq<u8>|
            requested.contains(x) implies not_in(chain[s].controllers)(x) == missing_all(
            chain,
            s,
        )(x) by {}
        lemma_filter_congruent(requested, not_in(chain[s].controllers), missing_all(chain, s));
        assert(needed == u);
    } else {
        assert forall|x: Seq<u8>| #[trigger]
            missing_all(chain, s)(x) == (not_in(chain[s].controllers)(x) && missing_all(
            chain,
            s + 1,
        )(x)) by {}
        lemma_filter_compose(
            requested,
            not_in(chain[s].controllers),
            missing_all(chain, s + 1),
            missing_all(chain, s),
        );
        assert(unavailable_from(chain, s + 1, needed) == u);
        lemma_enable_fails_at_root(chain, s + 1, needed);
        assert(subtree_plan(chain, s + 1, needed) == Result::<Seq<PlanStep>, ErrorV>::Err(
            ErrorV::ControllersUnavailable { controllers: u },
        ));
    }
}

/// Every group along a well-formed chain has an absolute path, and paths
/// strictly shorten toward the root.
pub proof fn lemma_chain_wf_shrinking(head: Seq<u8>, chain: Seq<GroupStatusV>)
    requires
        is_absolute(head),
        chain_wf(head, chain),
    ensures
        forall|i: int| 0 <= i < chain.len() ==> is_absolute((#[trigger] chain[i]).group),
        forall|i: int|
            0 <= i < chain.len() - 1 ==> (#[trigger] chain[i + 1]).group.len() < chain[
                i
            ].group.len(),
{
    assert forall|i: int| 0 <= i < chain.len() implies is_absolute(chain[i].group) by {
        lemma_chain_abs_at(head, chain, i);
    }
    assert forall|i: int|
        0 <= i < chain.len() - 1 implies (#[trigger] chain[i + 1]).group.len() < chain[
        i
    ].group.len() by {
        lemma_chain_abs_at(head, chain, i);
        crate::cgroup::lemma_parent_shorter(chain[i].group);
    }
}

/// The group at one level of a well-formed chain is absolute.
proof fn lemma_chain_abs_at(head: Seq<u8>, chain: Seq<GroupStatusV>, i: int)
    requires
        is_absolute(head),
        chain_wf(head, chain),
        0 <= i < chain.len(),
    ensures
        is_absolute(chain[i].group),
    decreases i,
{
    if i > 0 {
        lemma_chain_abs_at(head, chain, i - 1);
        crate::cgroup::lemma_parent_shorter(chain[i - 1].group);
    }
}

/// In a successful plan from level `s`, every grant aims at a level past
/// `s`, so no deeper than the parent of the level-`s` group; and grants come
/// in order of the walk, ancestors before descendants.
proof fn lemma_plan_grants(
    chain: Seq<GroupStatusV>,
    s: int,
    requested: Seq<Seq<u8>>,
    plan: Seq<PlanStep>,
)
    requires
        0 <= s < chain.len(),
        forall|i: int|
            0 <= i < chain.len() - 1 ==> (#[trigger] chain[i + 1]).group.len() < chain[
                i
            ].group.len(),
        enable_plan(chain, s, requested) == Result::<Seq<PlanStep>, ErrorV>::Ok(plan),
    ensures
        forall|p: int|
            0 <= p < plan.len() && plan[p] is Grant ==> s + 1 < chain.len() && step_group(
                #[trigger] plan[p],
            ).len() <= chain[s + 1].group.len(),
        forall|p: int, q: int|
            0 <= p < q < plan.len() && plan[p] is Grant && plan[q] is Grant ==> step_group(
                #[trigger] plan[p],
            ).len() <= step_group(#[trigger] plan[q]).len(),
    decreases chain.len() - s,
{
    let needed = needed_of(requested, chain[s].controllers);
    if requested.len() == 0 || needed.len() == 0 {
        assert(plan.len() == 0);
    } else {
        assert(chain[s].exists);
        assert(s + 1 < chain.len());
        assert(chain[s + 1].exists);
        let ep = enable_plan(chain, s + 1, needed);
        assert(ep is Ok);
        let sub = ep->Ok_0;
        let warn: Seq<PlanStep> = if chain[s + 1].populated {
            seq![PlanStep::Warn { group: chain[s + 1].group }]
        } else {
            Seq::<PlanStep>::empty()
        };
        let grants = grants_of(chain[s + 1].group, needed);
        assert(plan == warn + sub + grants);
        lemma_plan_grants(chain, s + 1, needed, sub);
        assert forall|p: int|
            0 <= p < plan.len() && plan[p] is Grant implies s + 1 < chain.len() && step_group(
            plan[p],
        ).len() <= chain[s + 1].group.len() by {
            if p < warn.len() {
                assert(plan[p] == warn[p]);
            } else if p < warn.len() + sub.len() {
                assert(plan[p] == sub[p - warn.len()]);
            } else {
                assert(plan[p] == grants[p - warn.len() - sub.len()]);
            }
        }
        assert forall|p: int, q: int|
            0 <= p < q < plan.len() && plan[p] is Grant && plan[q] is Grant implies step_group(
            plan[p],
        ).len() <= step_group(plan[q]).len() by {
            if p < warn.len() {
                assert(plan[p] == warn[p]);
            } else if p < warn.len() + sub.len() {
                assert(plan[p] == sub[p - warn.len()]);
                if q < warn.len() + sub.len() {
                    assert(plan[q] == sub[q - warn.len()]);
                } else {
                    assert(plan[q] == grants[q - warn.len() - sub.len()]);
                }
            } else {
                assert(plan[p] == grants[p - warn.len() - sub.len()]);
                assert(plan[q] == grants[q - warn.len() - sub.len()]);
            }
        }
    }
}

/// Law: grants come ancestors-first. In a successful plan over a
/// well-formed chain, an earlier grant never aims at a deeper group than a
/// later one, so every ancestor receives its grant before any of its
/// descendants — the order the kernel requires.
pub proof fn lemma_enable_parent_first(
    head: Seq<u8>,
    chain: Seq<GroupStatusV>,
    requested: Seq<Seq<u8>>,
    plan: Seq<PlanStep>,
    p: int,
    q: int,
)
    requires
        is_absolute(head),
        chain_wf(head, chain),
        enable_plan(chain, 0, requested) == Result::<Seq<PlanStep>, ErrorV>::Ok(plan),
        0 <= p < q < plan.len(),
        plan[p] is Grant,
        plan[q] is Grant,
    ensures
        step_group(plan[p]).len() <= step_group(plan[q]).len(),
{
    lemma_chain_wf_shrinking(head, chain);
    lemma_plan_grants(chain, 0, requested, plan);
}

/// Says whether `name` occurs in `list`.
fn contains_name(list: &Vec<Vec<u8>>, name: &[u8]) -> (r: bool)
    ensures
        r == names(list@).contains(name@),
{
    let mut j: usize = 0;
    while j < list.len()
        invariant
            j <= list@.len(),
            forall|k: int| 0 <= k < j ==> names(list@)[k] != name@,
        decreases list@.len() - j,
    {
        if bytes_eq(list[j].as_slice(), name) {
            proof {
                assert(names(list@)[j as int] == name@);
            }
            return true;
        }
        j += 1;
    }
    proof {
        if names(list@).contains(name@) {
            let k = choose|k: int| 0 <= k < names(list@).len() && names(list@)[k] == name@;
            assert(false);
        }
    }
    false
}

} // verus!
