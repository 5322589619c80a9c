//! Reconciliation planning: pure set algebra turning the persisted role set
//! and a requested operation into the roles to persist and the tool deltas to
//! apply.
//!
//! Add never uninstalls; remove uninstalls only tools unique to the removed
//! roles; update is an add step for the target roles followed by a remove
//! step for the roles that leave — callers must apply the installs before the
//! removals, so a tool the target set still needs is never uninstalled in
//! between.

use crate::catalog::lemma_resolved_contains;
use crate::catalog::resolved_set;
use crate::catalog::tool_set;
use crate::catalog::FetchOutcome;
use crate::names::normalized_set;
use crate::names::NameSet;
use crate::text::split_lines;
use vstd::prelude::*;

verus! {

/// The outcome of planning one command: the roles to persist, the tools to
/// install or bring up to date, and the tools to uninstall.
pub struct ReconciliationPlan {
    pub resulting_roles: NameSet,
    pub tools_to_install: NameSet,
    pub tools_to_uninstall: NameSet,
}

impl ReconciliationPlan {
    pub open spec fn wf(&self) -> bool {
        &&& self.resulting_roles.wf()
        &&& self.tools_to_install.wf()
        &&& self.tools_to_uninstall.wf()
    }
}

/// The membership of the role set after adding `requested` (normalized) to
/// `persisted`.
pub open spec fn add_result(persisted: Set<Seq<char>>, requested: Seq<Seq<char>>) -> Set<
    Seq<char>,
> {
    persisted.union(normalized_set(requested))
}

/// Roles after an add command: the persisted roles joined with the requested
/// ones. Adding a role already present changes nothing.
pub fn plan_add_roles(persisted: &NameSet, requested: &Vec<String>) -> (r: NameSet)
    requires
        persisted.wf(),
    ensures
        r.wf(),
        r.set() == add_result(persisted.set(), requested.deep_view()),
{
    let req = NameSet::from_items(requested);
    persisted.union(&req)
}

/// Roles touched by a remove command: those kept and those actually removed.
/// Requested roles that were never persisted remove nothing.
pub fn plan_remove_roles(persisted: &NameSet, requested: &Vec<String>) -> (r: (NameSet, NameSet))
    requires
        persisted.wf(),
    ensures
        r.0.wf(),
        r.1.wf(),
        r.0.set() == persisted.set().difference(normalized_set(requested.deep_view())),
        r.1.set() == persisted.set().intersect(normalized_set(requested.deep_view())),
{
    let req = NameSet::from_items(requested);
    let kept = persisted.difference(&req);
    let removed = persisted.intersection(&req);
    (kept, removed)
}

/// Roles for an update command: the target set exactly, and the persisted
/// roles that must leave. The caller performs the add step for the target
/// before the remove step for the leavers.
pub fn plan_update_roles(persisted: &NameSet, target: &Vec<String>) -> (r: (NameSet, NameSet))
    requires
        persisted.wf(),
    ensures
        r.0.wf(),
        r.1.wf(),
        r.0.set() == normalized_set(target.deep_view()),
        r.1.set() == persisted.set().difference(normalized_set(target.deep_view())),
{
    let tgt = NameSet::from_items(target);
    let to_remove = persisted.difference(&tgt);
    (tgt, to_remove)
}

/// Assembles an add command's plan from the resulting roles and the tools
/// resolved for them: everything resolved is installed or brought up to
/// date, and nothing is uninstalled.
pub fn add_plan(resulting_roles: NameSet, resolved_tools: NameSet) -> (r: ReconciliationPlan)
    requires
        resulting_roles.wf(),
        resolved_tools.wf(),
    ensures
        r.wf(),
        r.resulting_roles == resulting_roles,
        r.tools_to_install == resolved_tools,
        r.tools_to_uninstall.set() == Set::<Seq<char>>::empty(),
{
    ReconciliationPlan {
        resulting_roles,
        tools_to_install: resolved_tools,
        tools_to_uninstall: NameSet::empty(),
    }
}

/// Assembles a remove command's plan: the kept roles persist, nothing is
/// installed, and exactly the removed roles' tools that no kept role needs
/// are uninstalled.
pub fn remove_plan(kept_roles: NameSet, kept_tools: &NameSet, removed_tools: &NameSet) -> (r:
    ReconciliationPlan)
    requires
        kept_roles.wf(),
        kept_tools.wf(),
        removed_tools.wf(),
    ensures
        r.wf(),
        r.resulting_roles == kept_roles,
        r.tools_to_install.set() == Set::<Seq<char>>::empty(),
        r.tools_to_uninstall.set() == removed_tools.set().difference(kept_tools.set()),
{
    let uninstall = removed_tools.difference(kept_tools);
    ReconciliationPlan {
        resulting_roles: kept_roles,
        tools_to_install: NameSet::empty(),
        tools_to_uninstall: uninstall,
    }
}

/// Idempotence of add: adding the same roles to a set they were already
/// added to changes nothing.
pub proof fn lemma_add_idempotent(persisted: Set<Seq<char>>, requested: Seq<Seq<char>>)
    ensures
        add_result(add_result(persisted, requested), requested) == add_result(
            persisted,
            requested,
        ),
{
    assert(add_result(add_result(persisted, requested), requested) =~= add_result(
        persisted,
        requested,
    ));
}

/// Idempotence of add, down to the stored representation: if `once` came
/// from adding `requested` to a persisted set and `twice` from adding
/// `requested` again to `once`, the two are identical.
pub proof fn lemma_add_idempotent_exact(
    once: &NameSet,
    twice: &NameSet,
    persisted: Set<Seq<char>>,
    requested: Seq<Seq<char>>,
)
    requires
        once.wf(),
        twice.wf(),
        once.set() == add_result(persisted, requested),
        twice.set() == add_result(once.set(), requested),
    ensures
        twice.seq() == once.seq(),
{
    lemma_add_idempotent(persisted, requested);
    crate::names::lemma_canonical(twice, once);
}

/// The no-orphan invariant: a tool required by a kept role is never in the
/// uninstall set. `kept_outcomes` are the kept roles' catalog outcomes, and
/// the uninstall set is whatever was removed minus their resolution; any
/// kept role whose fetch succeeded keeps all its tools installed.
pub proof fn lemma_no_orphan(
    kept_outcomes: Seq<FetchOutcome>,
    removed_tools: Set<Seq<char>>,
    i: int,
)
    requires
        0 <= i < kept_outcomes.len(),
        kept_outcomes[i] is Fetched,
    ensures
        removed_tools.difference(resolved_set(kept_outcomes)).disjoint(
            tool_set(split_lines(kept_outcomes[i]->0@)),
        ),
{
    lemma_resolved_contains(kept_outcomes, i);
    let uninstall = removed_tools.difference(resolved_set(kept_outcomes));
    let role_tools = tool_set(split_lines(kept_outcomes[i]->0@));
    assert forall|t: Seq<char>| uninstall.contains(t) implies !role_tools.contains(t) by {
        if role_tools.contains(t) {
            assert(resolved_set(kept_outcomes).contains(t));
        }
    }
}

} // verus!
