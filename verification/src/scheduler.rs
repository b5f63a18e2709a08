//! The scheduler: registers system descriptors per phase, compiles each
//! phase's registration list into execution groups whose members declare
//! pairwise-disjoint component-type sets, and steps the phase/timing
//! model (previous-time bookkeeping, fixed-interval tick planning, the
//! phase-exclusion lock).
//!
//! Compilation is greedy and deterministic: systems are scanned in
//! registration order; the first unplaced system opens a group and claims
//! its declared types; later unplaced systems join while their declared
//! types stay disjoint from the group's claimed set; a system declaring
//! the wildcard type (`COMPONENT_TYPES`) seals its group at once and runs
//! alone. `execution_order` is the mathematical statement of exactly that
//! scan, and the compiler is proved to return it.

use vstd::prelude::*;

use crate::ecs::{ComponentType, System, SystemType, COMPONENT_TYPES};

verus! {

/// The declared type list of each registered system, registration order.
pub open spec fn args_of(systems: Seq<System>) -> Seq<Seq<ComponentType>> {
    systems.map_values(|s: System| s.args@)
}

/// The mathematical view of a compiled group list.
pub open spec fn groups_view(groups: Seq<Vec<usize>>) -> Seq<Seq<usize>> {
    groups.map_values(|g: Vec<usize>| g@)
}

/// Whether a declared list contains the whole-store wildcard token.
pub open spec fn declares_wildcard(args: Seq<ComponentType>) -> bool {
    args.contains(COMPONENT_TYPES)
}

/// A system may join a group iff it does not declare the wildcard and
/// none of its declared types is already claimed by the group.
pub open spec fn can_join(args: Seq<ComponentType>, claimed: Set<ComponentType>) -> bool {
    &&& !declares_wildcard(args)
    &&& args.to_set().disjoint(claimed)
}

/// One greedy scan filling the currently open group: from index `j` on,
/// every not-yet-placed system that may join is appended, its declared
/// types are claimed, and it is marked placed. Returns the members
/// appended, the updated placed flags and the final claimed set.
pub open spec fn fill_group(
    args: Seq<Seq<ComponentType>>,
    visited: Seq<bool>,
    claimed: Set<ComponentType>,
    j: int,
) -> (Seq<usize>, Seq<bool>, Set<ComponentType>)
    decreases args.len() - j,
{
    if j < 0 || j >= args.len() {
        (Seq::<usize>::empty(), visited, claimed)
    } else if !visited[j] && can_join(args[j], claimed) {
        let rec = fill_group(
            args,
            visited.update(j, true),
            claimed.union(args[j].to_set()),
            j + 1,
        );
        (seq![j as usize] + rec.0, rec.1, rec.2)
    } else {
        fill_group(args, visited, claimed, j + 1)
    }
}

/// The full greedy grouping from index `i` on: each not-yet-placed system
/// opens a group; a wildcard declarer seals it alone, anyone else claims
/// its types and the group is filled by `fill_group`.
pub open spec fn build_groups(
    args: Seq<Seq<ComponentType>>,
    visited: Seq<bool>,
    i: int,
) -> Seq<Seq<usize>>
    decreases args.len() - i,
{
    if i < 0 || i >= args.len() {
        Seq::<Seq<usize>>::empty()
    } else if visited[i] {
        build_groups(args, visited, i + 1)
    } else if declares_wildcard(args[i]) {
        seq![seq![i as usize]] + build_groups(args, visited.update(i, true), i + 1)
    } else {
        let rec = fill_group(args, visited.update(i, true), args[i].to_set(), i + 1);
        seq![seq![i as usize] + rec.0] + build_groups(args, rec.1, i + 1)
    }
}

/// The execution order compiled from a registration sequence: a function
/// of the declared type lists alone, so recompiling an unchanged
/// registration list always yields the identical group list.
pub open spec fn execution_order(args: Seq<Seq<ComponentType>>) -> Seq<Seq<usize>> {
    build_groups(args, Seq::new(args.len(), |k: int| false), 0)
}

/// Concatenating declared lists unions their type sets.
proof fn lemma_concat_to_set(a: Seq<ComponentType>, b: Seq<ComponentType>)
    ensures
        (a + b).to_set() == a.to_set().union(b.to_set()),
{
    assert forall|x: ComponentType| #[trigger]
        (a + b).contains(x) == (a.contains(x) || b.contains(x)) by {
        if (a + b).contains(x) {
            let k = choose|k: int| 0 <= k < (a + b).len() && (a + b)[k] == x;
            if k < a.len() {
                assert(a[k] == x);
            } else {
                assert(b[k - a.len()] == x);
            }
        }
        if a.contains(x) {
            let k = choose|k: int| 0 <= k < a.len() && a[k] == x;
            assert((a + b)[k] == x);
        }
        if b.contains(x) {
            let k = choose|k: int| 0 <= k < b.len() && b[k] == x;
            assert((a + b)[a.len() + k] == x);
        }
    }
    assert((a + b).to_set() =~= a.to_set().union(b.to_set()));
}

/// Whether `x` occurs in the declared type list `v`.
fn vec_contains(v: &Vec<ComponentType>, x: ComponentType) -> (r: bool)
    ensures
        r == v@.contains(x),
{
    let n = v.len();
    let mut i: usize = 0;
    while i < n
        invariant
            n == v@.len(),
            i <= n,
            forall|k: int| 0 <= k < i ==> v@[k] != x,
        decreases n - i,
    {
        if v[i] == x {
            return true;
        }
        i = i + 1;
    }
    false
}

/// Whether the declared list `args` shares no type with the claimed list.
fn vec_disjoint_from(args: &Vec<ComponentType>, claimed: &Vec<ComponentType>) -> (r: bool)
    ensures
        r == args@.to_set().disjoint(claimed@.to_set()),
{
    let n = args.len();
    let mut i: usize = 0;
    while i < n
        invariant
            n == args@.len(),
            i <= n,
            forall|k: int| 0 <= k < i ==> !claimed@.contains(#[trigger] args@[k]),
        decreases n - i,
    {
        if vec_contains(claimed, args[i]) {
            proof {
                assert(args@.to_set().contains(args@[i as int]));
                assert(claimed@.to_set().contains(args@[i as int]));
            }
            return false;
        }
        i = i + 1;
    }
    proof {
        assert forall|x: ComponentType|
            args@.to_set().contains(x) implies !claimed@.to_set().contains(x) by {
            let k = choose|k: int| 0 <= k < args@.len() && args@[k] == x;
            assert(!claimed@.contains(args@[k]));
        }
    }
    true
}

/// A copy of a declared type list.
fn copy_types(v: &Vec<ComponentType>) -> (r: Vec<ComponentType>)
    ensures
        r@ == v@,
{
    let n = v.len();
    let mut r: Vec<ComponentType> = Vec::new();
    let mut i: usize = 0;
    while i < n
        invariant
            n == v@.len(),
            i <= n,
            r@.len() == i,
            forall|k: int| 0 <= k < i ==> r@[k] == v@[k],
        decreases n - i,
    {
        r.push(v[i]);
        i = i + 1;
    }
    proof {
        assert(r@ =~= v@);
    }
    r
}

/// Compiles a registration list into its execution order: the greedy
/// grouping `execution_order` describes, deterministic and idempotent in
/// the registration sequence.
pub fn generate_execution_order_for_systems(systems: &Vec<System>) -> (r: Vec<Vec<usize>>)
    ensures
        groups_view(r@) == execution_order(args_of(systems@)),
{
    let ghost args = args_of(systems@);
    let n = systems.len();
    let mut visited: Vec<bool> = Vec::new();
    let mut k0: usize = 0;
    while k0 < n
        invariant
            k0 <= n,
            visited@.len() == k0,
            forall|k: int| 0 <= k < k0 ==> visited@[k] == false,
        decreases n - k0,
    {
        visited.push(false);
        k0 = k0 + 1;
    }
    proof {
        assert(visited@ =~= Seq::new(args.len(), |k: int| false));
        assert(groups_view(Seq::<Vec<usize>>::empty()) =~= Seq::<Seq<usize>>::empty());
        assert(Seq::<Seq<usize>>::empty() + build_groups(args, visited@, 0)
            =~= build_groups(args, visited@, 0));
    }
    let mut order: Vec<Vec<usize>> = Vec::new();
    let mut i: usize = 0;
    while i < n
        invariant
            n == systems@.len(),
            args == args_of(systems@),
            visited@.len() == n,
            i <= n,
            groups_view(order@) + build_groups(args, visited@, i as int) == execution_order(args),
            forall|k: int| 0 <= k < i ==> visited@[k],
        decreases n - i,
    {
        let ghost v_before = visited@;
        if !visited[i] {
            visited.set(i, true);
            let mut group: Vec<usize> = Vec::new();
            group.push(i);
            let mut claimed: Vec<ComponentType> = copy_types(&systems[i].args);
            proof {
                assert(args[i as int] == systems@[i as int].args@);
            }
            let wildcard = vec_contains(&claimed, COMPONENT_TYPES);
            if !wildcard {
                let ghost v_open = visited@;
                let ghost target = fill_group(args, v_open, args[i as int].to_set(), i as int + 1);
                let mut j: usize = i + 1;
                while j < n
                    invariant
                        n == systems@.len(),
                        args == args_of(systems@),
                        visited@.len() == n,
                        i < j <= n,
                        forall|k: int| 0 <= k <= i ==> visited@[k],
                        group@.len() >= 1,
                        group@[0] == i as usize,
                        group@.subrange(1, group@.len() as int) + fill_group(
                            args,
                            visited@,
                            claimed@.to_set(),
                            j as int,
                        ).0 == target.0,
                        fill_group(args, visited@, claimed@.to_set(), j as int).1 == target.1,
                        fill_group(args, visited@, claimed@.to_set(), j as int).2 == target.2,
                    decreases n - j,
                {
                    let ghost v_j = visited@;
                    let ghost c_j = claimed@.to_set();
                    let ghost group_j = group@;
                    proof {
                        assert(args[j as int] == systems@[j as int].args@);
                    }
                    let joinable = !visited[j] && !vec_contains(&systems[j].args, COMPONENT_TYPES)
                        && vec_disjoint_from(&systems[j].args, &claimed);
                    if joinable {
                        group.push(j);
                        visited.set(j, true);
                        let ghost c_pre = claimed@;
                        let m = systems[j].args.len();
                        let mut k: usize = 0;
                        proof {
                            assert(claimed@ =~= c_pre + systems@[j as int].args@.subrange(0, 0));
                        }
                        while k < m
                            invariant
                                m == systems@[j as int].args@.len(),
                                k <= m,
                                n == systems@.len(),
                                j < n,
                                args == args_of(systems@),
                                claimed@ == c_pre + systems@[j as int].args@.subrange(0, k as int),
                            decreases m - k,
                        {
                            let ghost k_old = k as int;
                            claimed.push(systems[j].args[k]);
                            k = k + 1;
                            proof {
                                assert(systems@[j as int].args@.subrange(0, k_old + 1)
                                    =~= systems@[j as int].args@.subrange(0, k_old).push(
                                    systems@[j as int].args@[k_old],
                                ));
                                assert(claimed@ =~= c_pre + systems@[j as int].args@.subrange(
                                    0,
                                    k as int,
                                ));
                            }
                        }
                        proof {
                            assert(systems@[j as int].args@.subrange(0, m as int)
                                =~= systems@[j as int].args@);
                            assert(claimed@ =~= c_pre + args[j as int]);
                            lemma_concat_to_set(c_pre, args[j as int]);
                            assert(claimed@.to_set() == c_j.union(args[j as int].to_set()));
                            assert(!v_j[j as int] && can_join(args[j as int], c_j));
                            let rec = fill_group(
                                args,
                                v_j.update(j as int, true),
                                c_j.union(args[j as int].to_set()),
                                j as int + 1,
                            );
                            assert(fill_group(args, v_j, c_j, j as int) == (
                                seq![j as usize] + rec.0,
                                rec.1,
                                rec.2,
                            ));
                            assert(visited@ == v_j.update(j as int, true));
                            assert(group@.subrange(1, group@.len() as int) =~= group_j.subrange(
                                1,
                                group_j.len() as int,
                            ).push(j as usize));
                            assert(group@.subrange(1, group@.len() as int) + rec.0
                                =~= group_j.subrange(1, group_j.len() as int) + (seq![j as usize]
                                + rec.0));
                        }
                    } else {
                        proof {
                            assert(fill_group(args, v_j, c_j, j as int) == fill_group(
                                args,
                                v_j,
                                c_j,
                                j as int + 1,
                            ));
                        }
                    }
                    j = j + 1;
                }
                proof {
                    assert(fill_group(args, visited@, claimed@.to_set(), n as int).0
                        == Seq::<usize>::empty());
                    assert(group@.subrange(1, group@.len() as int) + Seq::<usize>::empty()
                        =~= group@.subrange(1, group@.len() as int));
                    assert(group@ =~= seq![i as usize] + target.0);
                    assert(visited@ == target.1);
                    assert(build_groups(args, v_before, i as int) == seq![seq![i as usize]
                        + target.0] + build_groups(args, target.1, i as int + 1));
                    assert(groups_view(order@.push(group)) =~= groups_view(order@).push(group@));
                    assert(groups_view(order@.push(group)) + build_groups(
                        args,
                        visited@,
                        i as int + 1,
                    ) =~= groups_view(order@) + build_groups(args, v_before, i as int));
                }
            } else {
                proof {
                    assert(declares_wildcard(args[i as int]));
                    assert(group@ =~= seq![i as usize]);
                    assert(build_groups(args, v_before, i as int) == seq![seq![i as usize]]
                        + build_groups(args, visited@, i as int + 1));
                    assert(groups_view(order@.push(group)) =~= groups_view(order@).push(group@));
                    assert(groups_view(order@.push(group)) + build_groups(
                        args,
                        visited@,
                        i as int + 1,
                    ) =~= groups_view(order@) + build_groups(args, v_before, i as int));
                }
            }
            order.push(group);
        } else {
            proof {
                assert(build_groups(args, visited@, i as int) == build_groups(
                    args,
                    visited@,
                    i as int + 1,
                ));
            }
        }
        i = i + 1;
    }
    proof {
        assert(build_groups(args, visited@, n as int) == Seq::<Seq<usize>>::empty());
        assert(groups_view(order@) + Seq::<Seq<usize>>::empty() =~= groups_view(order@));
    }
    order
}

/// Members appended by `fill_group` lie at or after `j`, none declares
/// the wildcard, each one's declared set is disjoint from the claimed set
/// the group started with, and their declared sets are pairwise disjoint.
proof fn lemma_fill_group_props(
    args: Seq<Seq<ComponentType>>,
    visited: Seq<bool>,
    claimed: Set<ComponentType>,
    j: int,
)
    requires
        visited.len() == args.len(),
        args.len() <= usize::MAX,
        0 <= j,
    ensures
        ({
            let rec = fill_group(args, visited, claimed, j);
            &&& rec.1.len() == visited.len()
            &&& forall|k: int|
                0 <= k < rec.0.len() ==> j <= (#[trigger] rec.0[k]) as int && (rec.0[k] as int)
                    < args.len()
            &&& forall|k: int|
                0 <= k < rec.0.len() ==> !declares_wildcard(args[(#[trigger] rec.0[k]) as int])
            &&& forall|k: int|
                0 <= k < rec.0.len() ==> args[(#[trigger] rec.0[k]) as int].to_set().disjoint(
                    claimed,
                )
            &&& forall|k1: int, k2: int|
                #![trigger rec.0[k1], rec.0[k2]]
                0 <= k1 < rec.0.len() && 0 <= k2 < rec.0.len() && k1 != k2 ==> args[rec.0[k1] as int].to_set().disjoint(args[rec.0[k2] as int].to_set())
        }),
    decreases args.len() - j,
{
    if j >= args.len() {
    } else if !visited[j] && can_join(args[j], claimed) {
        let claimed2 = claimed.union(args[j].to_set());
        lemma_fill_group_props(args, visited.update(j, true), claimed2, j + 1);
        let rec2 = fill_group(args, visited.update(j, true), claimed2, j + 1);
        let rec = fill_group(args, visited, claimed, j);
        assert(rec.0 == seq![j as usize] + rec2.0);
        assert forall|k: int|
            0 <= k < rec.0.len() implies j <= (#[trigger] rec.0[k]) as int && (rec.0[k] as int)
            < args.len() && !declares_wildcard(args[rec.0[k] as int]) && args[rec.0[
            k
        ] as int].to_set().disjoint(claimed) by {
            if k == 0 {
                assert(rec.0[0] == j as usize);
            } else {
                assert(rec.0[k] == rec2.0[k - 1]);
                assert(args[rec2.0[k - 1] as int].to_set().disjoint(claimed2));
            }
        }
        assert forall|k1: int, k2: int|
            #![trigger rec.0[k1], rec.0[k2]]
            0 <= k1 < rec.0.len() && 0 <= k2 < rec.0.len() && k1 != k2 implies args[rec.0[k1] as int].to_set().disjoint(
            args[rec.0[k2] as int].to_set(),
        ) by {
            if k1 == 0 {
                assert(rec.0[k2] == rec2.0[k2 - 1]);
                assert(args[rec2.0[k2 - 1] as int].to_set().disjoint(claimed2));
            } else if k2 == 0 {
                assert(rec.0[k1] == rec2.0[k1 - 1]);
                assert(args[rec2.0[k1 - 1] as int].to_set().disjoint(claimed2));
            } else {
                assert(rec.0[k1] == rec2.0[k1 - 1]);
                assert(rec.0[k2] == rec2.0[k2 - 1]);
            }
        }
    } else {
        lemma_fill_group_props(args, visited, claimed, j + 1);
    }
}

/// Every group the greedy grouping produces is nonempty, its members are
/// registration indices, their declared sets are pairwise disjoint, and a
/// wildcard declarer is always alone in its group.
proof fn lemma_build_groups_props(args: Seq<Seq<ComponentType>>, visited: Seq<bool>, i: int)
    requires
        visited.len() == args.len(),
        args.len() <= usize::MAX,
        0 <= i,
    ensures
        ({
            let gs = build_groups(args, visited, i);
            &&& forall|g: int| 0 <= g < gs.len() ==> (#[trigger] gs[g]).len() >= 1
            &&& forall|g: int, k: int|
                #![trigger gs[g][k]]
                0 <= g < gs.len() && 0 <= k < gs[g].len() ==> (gs[g][k] as int) < args.len()
            &&& forall|g: int, k1: int, k2: int|
                #![trigger gs[g][k1], gs[g][k2]]
                0 <= g < gs.len() && 0 <= k1 < gs[g].len() && 0 <= k2 < gs[g].len() && k1 != k2
                    ==> args[gs[g][k1] as int].to_set().disjoint(args[gs[g][k2] as int].to_set())
            &&& forall|g: int, k: int|
                #![trigger gs[g][k]]
                0 <= g < gs.len() && 0 <= k < gs[g].len() && declares_wildcard(
                    args[gs[g][k] as int],
                ) ==> gs[g].len() == 1
        }),
    decreases args.len() - i,
{
    if i >= args.len() {
        assert(build_groups(args, visited, i).len() == 0);
    } else if visited[i] {
        lemma_build_groups_props(args, visited, i + 1);
        assert(build_groups(args, visited, i) == build_groups(args, visited, i + 1));
    } else if declares_wildcard(args[i]) {
        lemma_build_groups_props(args, visited.update(i, true), i + 1);
        let gs = build_groups(args, visited, i);
        let rest = build_groups(args, visited.update(i, true), i + 1);
        assert(gs == seq![seq![i as usize]] + rest);
        assert forall|g: int| 0 <= g < gs.len() implies (#[trigger] gs[g]).len() >= 1 by {
            if g > 0 {
                assert(gs[g] == rest[g - 1]);
            }
        }
        assert forall|g: int, k: int|
            #![trigger gs[g][k]]
            0 <= g < gs.len() && 0 <= k < gs[g].len() implies (gs[g][k] as int) < args.len()
            && (declares_wildcard(args[gs[g][k] as int]) ==> gs[g].len() == 1) by {
            if g == 0 {
                assert(gs[0] == seq![i as usize]);
                assert(gs[0][0] == i as usize);
            } else {
                assert(gs[g] == rest[g - 1]);
            }
        }
        assert forall|g: int, k1: int, k2: int|
            #![trigger gs[g][k1], gs[g][k2]]
            0 <= g < gs.len() && 0 <= k1 < gs[g].len() && 0 <= k2 < gs[g].len() && k1 != k2
            implies args[gs[g][k1] as int].to_set().disjoint(args[gs[g][k2] as int].to_set()) by {
            if g == 0 {
                assert(gs[0].len() == 1);
            } else {
                assert(gs[g] == rest[g - 1]);
            }
        }
    } else {
        let v_open = visited.update(i, true);
        let c_open = args[i].to_set();
        let rec = fill_group(args, v_open, c_open, i + 1);
        lemma_fill_group_props(args, v_open, c_open, i + 1);
        lemma_build_groups_props(args, rec.1, i + 1);
        let gs = build_groups(args, visited, i);
        let rest = build_groups(args, rec.1, i + 1);
        let first = seq![i as usize] + rec.0;
        assert(gs == seq![first] + rest);
        assert forall|g: int| 0 <= g < gs.len() implies (#[trigger] gs[g]).len() >= 1 by {
            if g == 0 {
                assert(gs[0] == first);
            } else {
                assert(gs[g] == rest[g - 1]);
            }
        }
        assert forall|g: int, k: int|
            #![trigger gs[g][k]]
            0 <= g < gs.len() && 0 <= k < gs[g].len() implies (gs[g][k] as int) < args.len()
            && (declares_wildcard(args[gs[g][k] as int]) ==> gs[g].len() == 1) by {
            if g == 0 {
                assert(gs[0] == first);
                if k == 0 {
                    assert(first[0] == i as usize);
                } else {
                    assert(first[k] == rec.0[k - 1]);
                    assert(!declares_wildcard(args[rec.0[k - 1] as int]));
                }
            } else {
                assert(gs[g] == rest[g - 1]);
            }
        }
        assert forall|g: int, k1: int, k2: int|
            #![trigger gs[g][k1], gs[g][k2]]
            0 <= g < gs.len() && 0 <= k1 < gs[g].len() && 0 <= k2 < gs[g].len() && k1 != k2
            implies args[gs[g][k1] as int].to_set().disjoint(args[gs[g][k2] as int].to_set()) by {
            if g == 0 {
                assert(gs[0] == first);
                if k1 == 0 {
                    assert(first[k2] == rec.0[k2 - 1]);
                    assert(args[rec.0[k2 - 1] as int].to_set().disjoint(c_open));
                } else if k2 == 0 {
                    assert(first[k1] == rec.0[k1 - 1]);
                    assert(args[rec.0[k1 - 1] as int].to_set().disjoint(c_open));
                } else {
                    assert(first[k1] == rec.0[k1 - 1]);
                    assert(first[k2] == rec.0[k2 - 1]);
                }
            } else {
                assert(gs[g] == rest[g - 1]);
            }
        }
    }
}

/// Whether registration index `x` appears in some group of `gs`.
pub open spec fn placed_in(gs: Seq<Seq<usize>>, x: usize) -> bool {
    exists|g: int, k: int| 0 <= g < gs.len() && 0 <= k < gs[g].len() && (#[trigger] gs[g][k]) == x
}

/// Placement bookkeeping of `fill_group`: members are unplaced indices
/// at or after `j` in ascending scan order, and the returned placed
/// flags are the old ones plus exactly the members.
proof fn lemma_fill_group_placement(
    args: Seq<Seq<ComponentType>>,
    visited: Seq<bool>,
    claimed: Set<ComponentType>,
    j: int,
)
    requires
        visited.len() == args.len(),
        args.len() <= usize::MAX,
        0 <= j,
    ensures
        ({
            let rec = fill_group(args, visited, claimed, j);
            &&& rec.1.len() == visited.len()
            &&& forall|k: int|
                0 <= k < rec.0.len() ==> j <= (#[trigger] rec.0[k]) as int && (rec.0[k] as int)
                    < args.len() && !visited[rec.0[k] as int]
            &&& forall|k1: int, k2: int|
                #![trigger rec.0[k1], rec.0[k2]]
                0 <= k1 < k2 < rec.0.len() ==> rec.0[k1] < rec.0[k2]
        }),
    decreases args.len() - j,
{
    if j >= args.len() {
    } else if !visited[j] && can_join(args[j], claimed) {
        let v2 = visited.update(j, true);
        let c2 = claimed.union(args[j].to_set());
        lemma_fill_group_placement(args, v2, c2, j + 1);
        let rec2 = fill_group(args, v2, c2, j + 1);
        let rec = fill_group(args, visited, claimed, j);
        assert(rec.0 == seq![j as usize] + rec2.0);
        assert forall|k: int|
            0 <= k < rec.0.len() implies j <= (#[trigger] rec.0[k]) as int && (rec.0[k] as int)
            < args.len() && !visited[rec.0[k] as int] by {
            if k == 0 {
                assert(rec.0[0] == j as usize);
            } else {
                assert(rec.0[k] == rec2.0[k - 1]);
                assert(!v2[rec2.0[k - 1] as int]);
            }
        }
        assert forall|k1: int, k2: int|
            #![trigger rec.0[k1], rec.0[k2]]
            0 <= k1 < k2 < rec.0.len() implies rec.0[k1] < rec.0[k2] by {
            if k1 == 0 {
                assert(rec.0[k2] == rec2.0[k2 - 1]);
                assert(j + 1 <= rec2.0[k2 - 1] as int);
            } else {
                assert(rec.0[k1] == rec2.0[k1 - 1]);
                assert(rec.0[k2] == rec2.0[k2 - 1]);
            }
        }
    } else {
        lemma_fill_group_placement(args, visited, claimed, j + 1);
    }
}

/// Pointwise placed-flag bookkeeping of `fill_group`: index `x` ends up
/// marked placed iff it already was, or it joined as a member.
proof fn lemma_fill_group_visited_at(
    args: Seq<Seq<ComponentType>>,
    visited: Seq<bool>,
    claimed: Set<ComponentType>,
    j: int,
    x: usize,
)
    requires
        visited.len() == args.len(),
        args.len() <= usize::MAX,
        0 <= j,
        (x as int) < visited.len(),
    ensures
        ({
            let rec = fill_group(args, visited, claimed, j);
            rec.1[x as int] == (visited[x as int] || rec.0.contains(x))
        }),
    decreases args.len() - j,
{
    let rec = fill_group(args, visited, claimed, j);
    if j >= args.len() {
        assert(!rec.0.contains(x));
    } else if !visited[j] && can_join(args[j], claimed) {
        let v2 = visited.update(j, true);
        let c2 = claimed.union(args[j].to_set());
        lemma_fill_group_visited_at(args, v2, c2, j + 1, x);
        let rec2 = fill_group(args, v2, c2, j + 1);
        assert(rec.0 == seq![j as usize] + rec2.0);
        if rec.0.contains(x) {
            let k = choose|k: int| 0 <= k < rec.0.len() && rec.0[k] == x;
            if k == 0 {
                assert(x == j as usize);
            } else {
                assert(rec2.0[k - 1] == x);
                assert(rec2.0.contains(x));
            }
        }
        if x == j as usize {
            assert(rec.0[0] == x);
            assert(rec.0.contains(x));
        }
        if rec2.0.contains(x) {
            let k = choose|k: int| 0 <= k < rec2.0.len() && rec2.0[k] == x;
            assert(rec.0[k + 1] == x);
            assert(rec.0.contains(x));
        }
    } else {
        lemma_fill_group_visited_at(args, visited, claimed, j + 1, x);
    }
}

/// Placement bookkeeping of the greedy grouping: every group is
/// nonempty, every member is an unplaced index at or after `i`, members
/// within a group ascend, groups ascend by their first member, no index
/// appears twice, and every unplaced index from `i` on is placed.
proof fn lemma_build_groups_placement(args: Seq<Seq<ComponentType>>, visited: Seq<bool>, i: int)
    requires
        visited.len() == args.len(),
        args.len() <= usize::MAX,
        0 <= i,
    ensures
        ({
            let gs = build_groups(args, visited, i);
            &&& forall|g: int| 0 <= g < gs.len() ==> (#[trigger] gs[g]).len() >= 1
            &&& forall|g: int, k: int|
                #![trigger gs[g][k]]
                0 <= g < gs.len() && 0 <= k < gs[g].len() ==> i <= gs[g][k] as int && (
                gs[g][k] as int) < args.len() && !visited[gs[g][k] as int]
            &&& forall|g: int, k1: int, k2: int|
                #![trigger gs[g][k1], gs[g][k2]]
                0 <= g < gs.len() && 0 <= k1 < k2 < gs[g].len() ==> gs[g][k1] < gs[g][k2]
            &&& forall|g1: int, g2: int|
                #![trigger gs[g1], gs[g2]]
                0 <= g1 < g2 < gs.len() ==> gs[g1][0] < gs[g2][0]
            &&& forall|g1: int, k1: int, g2: int, k2: int|
                #![trigger gs[g1][k1], gs[g2][k2]]
                0 <= g1 < gs.len() && 0 <= k1 < gs[g1].len() && 0 <= g2 < gs.len() && 0 <= k2
                    < gs[g2].len() && !(g1 == g2 && k1 == k2) ==> gs[g1][k1] != gs[g2][k2]
            &&& forall|x: usize|
                i <= (x as int) < args.len() && !visited[x as int] ==> #[trigger] placed_in(gs, x)
        }),
    decreases args.len() - i,
{
    if i >= args.len() {
    } else if visited[i] {
        lemma_build_groups_placement(args, visited, i + 1);
        assert(build_groups(args, visited, i) == build_groups(args, visited, i + 1));
    } else if declares_wildcard(args[i]) {
        let v2 = visited.update(i, true);
        lemma_build_groups_placement(args, v2, i + 1);
        let gs = build_groups(args, visited, i);
        let rest = build_groups(args, v2, i + 1);
        assert(gs == seq![seq![i as usize]] + rest);
        assert(gs[0] == seq![i as usize]);
        assert forall|g: int| 0 <= g < gs.len() implies (#[trigger] gs[g]).len() >= 1 by {
            if g > 0 {
                assert(gs[g] == rest[g - 1]);
            }
        }
        assert forall|g: int, k: int|
            #![trigger gs[g][k]]
            0 <= g < gs.len() && 0 <= k < gs[g].len() implies i <= gs[g][k] as int && (
        gs[g][k] as int) < args.len() && !visited[gs[g][k] as int] by {
            if g == 0 {
                assert(gs[0][0] == i as usize);
            } else {
                assert(gs[g] == rest[g - 1]);
                assert(!v2[rest[g - 1][k] as int]);
            }
        }
        assert forall|g: int, k1: int, k2: int|
            #![trigger gs[g][k1], gs[g][k2]]
            0 <= g < gs.len() && 0 <= k1 < k2 < gs[g].len() implies gs[g][k1] < gs[g][k2] by {
            if g > 0 {
                assert(gs[g] == rest[g - 1]);
            }
        }
        assert forall|g1: int, g2: int|
            #![trigger gs[g1], gs[g2]]
            0 <= g1 < g2 < gs.len() implies gs[g1][0] < gs[g2][0] by {
            if g1 == 0 {
                assert(gs[g2] == rest[g2 - 1]);
                assert(i + 1 <= rest[g2 - 1][0] as int);
            } else {
                assert(gs[g1] == rest[g1 - 1]);
                assert(gs[g2] == rest[g2 - 1]);
            }
        }
        assert forall|g1: int, k1: int, g2: int, k2: int|
            #![trigger gs[g1][k1], gs[g2][k2]]
            0 <= g1 < gs.len() && 0 <= k1 < gs[g1].len() && 0 <= g2 < gs.len() && 0 <= k2
            < gs[g2].len() && !(g1 == g2 && k1 == k2) implies gs[g1][k1] != gs[g2][k2] by {
            if g1 > 0 {
                assert(gs[g1] == rest[g1 - 1]);
            }
            if g2 > 0 {
                assert(gs[g2] == rest[g2 - 1]);
            }
            if g1 == 0 && g2 > 0 {
                assert(i + 1 <= rest[g2 - 1][k2] as int);
            }
            if g2 == 0 && g1 > 0 {
                assert(i + 1 <= rest[g1 - 1][k1] as int);
            }
        }
        assert forall|x: usize|
            i <= (x as int) < args.len() && !visited[x as int] implies #[trigger] placed_in(
            gs,
            x,
        ) by {
            if x as int == i {
                assert(gs[0][0] == x);
            } else {
                assert(!v2[x as int]);
                assert(placed_in(rest, x));
                let (g, k) = choose|g: int, k: int|
                    0 <= g < rest.len() && 0 <= k < rest[g].len() && rest[g][k] == x;
                assert(gs[g + 1] == rest[g]);
                assert(gs[g + 1][k] == x);
            }
        }
    } else {
        let v2 = visited.update(i, true);
        let c2 = args[i].to_set();
        let rec = fill_group(args, v2, c2, i + 1);
        lemma_fill_group_placement(args, v2, c2, i + 1);
        lemma_build_groups_placement(args, rec.1, i + 1);
        let gs = build_groups(args, visited, i);
        let rest = build_groups(args, rec.1, i + 1);
        let first = seq![i as usize] + rec.0;
        assert(gs == seq![first] + rest);
        assert(gs[0] == first);
        assert(first[0] == i as usize);
        assert forall|g: int| 0 <= g < gs.len() implies (#[trigger] gs[g]).len() >= 1 by {
            if g > 0 {
                assert(gs[g] == rest[g - 1]);
            }
        }
        assert forall|g: int, k: int|
            #![trigger gs[g][k]]
            0 <= g < gs.len() && 0 <= k < gs[g].len() implies i <= gs[g][k] as int && (
        gs[g][k] as int) < args.len() && !visited[gs[g][k] as int] by {
            if g == 0 {
                if k > 0 {
                    assert(first[k] == rec.0[k - 1]);
                    assert(i + 1 <= rec.0[k - 1] as int);
                    assert(!v2[rec.0[k - 1] as int]);
                }
            } else {
                assert(gs[g] == rest[g - 1]);
                let m = rest[g - 1][k];
                assert(!rec.1[m as int]);
                lemma_fill_group_visited_at(args, v2, c2, i + 1, m);
            }
        }
        assert forall|g: int, k1: int, k2: int|
            #![trigger gs[g][k1], gs[g][k2]]
            0 <= g < gs.len() && 0 <= k1 < k2 < gs[g].len() implies gs[g][k1] < gs[g][k2] by {
            if g == 0 {
                if k1 == 0 {
                    assert(first[k2] == rec.0[k2 - 1]);
                    assert(i + 1 <= rec.0[k2 - 1] as int);
                } else {
                    assert(first[k1] == rec.0[k1 - 1]);
                    assert(first[k2] == rec.0[k2 - 1]);
                }
            } else {
                assert(gs[g] == rest[g - 1]);
            }
        }
        assert forall|g1: int, g2: int|
            #![trigger gs[g1], gs[g2]]
            0 <= g1 < g2 < gs.len() implies gs[g1][0] < gs[g2][0] by {
            if g1 == 0 {
                assert(gs[g2] == rest[g2 - 1]);
                assert(i + 1 <= rest[g2 - 1][0] as int);
            } else {
                assert(gs[g1] == rest[g1 - 1]);
                assert(gs[g2] == rest[g2 - 1]);
            }
        }
        assert forall|g1: int, k1: int, g2: int, k2: int|
            #![trigger gs[g1][k1], gs[g2][k2]]
            0 <= g1 < gs.len() && 0 <= k1 < gs[g1].len() && 0 <= g2 < gs.len() && 0 <= k2
            < gs[g2].len() && !(g1 == g2 && k1 == k2) implies gs[g1][k1] != gs[g2][k2] by {
            if g1 == 0 && g2 == 0 {
                if k1 < k2 {
                    assert(gs[0][k1] < gs[0][k2]);
                } else {
                    assert(gs[0][k2] < gs[0][k1]);
                }
            }
            if g1 == 0 && g2 > 0 {
                assert(gs[g2] == rest[g2 - 1]);
                let m = rest[g2 - 1][k2];
                assert(!rec.1[m as int]);
                lemma_fill_group_visited_at(args, v2, c2, i + 1, m);
                assert(!rec.0.contains(m));
                if k1 == 0 {
                    assert(i + 1 <= m as int);
                } else {
                    assert(first[k1] == rec.0[k1 - 1]);
                    assert(rec.0.contains(rec.0[k1 - 1]));
                }
            }
            if g2 == 0 && g1 > 0 {
                assert(gs[g1] == rest[g1 - 1]);
                let m = rest[g1 - 1][k1];
                assert(!rec.1[m as int]);
                lemma_fill_group_visited_at(args, v2, c2, i + 1, m);
                assert(!rec.0.contains(m));
                if k2 == 0 {
                    assert(i + 1 <= m as int);
                } else {
                    assert(first[k2] == rec.0[k2 - 1]);
                    assert(rec.0.contains(rec.0[k2 - 1]));
                }
            }
            if g1 > 0 && g2 > 0 {
                assert(gs[g1] == rest[g1 - 1]);
                assert(gs[g2] == rest[g2 - 1]);
            }
        }
        assert forall|x: usize|
            i <= (x as int) < args.len() && !visited[x as int] implies #[trigger] placed_in(
            gs,
            x,
        ) by {
            if x as int == i {
                assert(gs[0][0] == x);
            } else {
                lemma_fill_group_visited_at(args, v2, c2, i + 1, x);
                if rec.0.contains(x) {
                    let k = choose|k: int| 0 <= k < rec.0.len() && rec.0[k] == x;
                    assert(first[k + 1] == x);
                    assert(gs[0][k + 1] == x);
                } else {
                    assert(!rec.1[x as int]);
                    assert(placed_in(rest, x));
                    let (g, k) = choose|g: int, k: int|
                        0 <= g < rest.len() && 0 <= k < rest[g].len() && rest[g][k] == x;
                    assert(gs[g + 1] == rest[g]);
                    assert(gs[g + 1][k] == x);
                }
            }
        }
    }
}

/// A system declaring no types joins any group it is scanned into: from
/// scan position `j` at or before it, `fill_group` always takes it.
proof fn lemma_fill_group_takes_no_args(
    args: Seq<Seq<ComponentType>>,
    visited: Seq<bool>,
    claimed: Set<ComponentType>,
    j: int,
    x: usize,
)
    requires
        visited.len() == args.len(),
        args.len() <= usize::MAX,
        0 <= j <= x as int,
        (x as int) < args.len(),
        !visited[x as int],
        args[x as int].len() == 0,
    ensures
        fill_group(args, visited, claimed, j).0.contains(x),
    decreases args.len() - j,
{
    let rec = fill_group(args, visited, claimed, j);
    assert(!declares_wildcard(args[x as int]));
    assert forall|a: ComponentType|
        args[x as int].to_set().contains(a) implies !claimed.contains(a) by {
        assert(!args[x as int].contains(a));
    }
    if j == x as int {
        assert(rec.0[0] == x);
        assert(rec.0.contains(x));
    } else if !visited[j] && can_join(args[j], claimed) {
        let v2 = visited.update(j, true);
        let c2 = claimed.union(args[j].to_set());
        lemma_fill_group_takes_no_args(args, v2, c2, j + 1, x);
        let rec2 = fill_group(args, v2, c2, j + 1);
        let k = choose|k: int| 0 <= k < rec2.0.len() && rec2.0[k] == x;
        assert(rec.0[k + 1] == x);
        assert(rec.0.contains(x));
    } else {
        lemma_fill_group_takes_no_args(args, visited, claimed, j + 1, x);
    }
}

/// The groups before `g` in `gs` are all sealed wildcard groups: each
/// one's opener declares the wildcard.
pub open spec fn earlier_groups_sealed(
    args: Seq<Seq<ComponentType>>,
    gs: Seq<Seq<usize>>,
    g: int,
) -> bool {
    forall|g2: int| 0 <= g2 < g ==> declares_wildcard(args[(#[trigger] gs[g2])[0] as int])
}

/// A not-yet-placed system declaring no types lands in the first group
/// from `i` on whose opener does not declare the wildcard.
proof fn lemma_build_groups_no_args(
    args: Seq<Seq<ComponentType>>,
    visited: Seq<bool>,
    i: int,
    x: usize,
)
    requires
        visited.len() == args.len(),
        args.len() <= usize::MAX,
        0 <= i <= x as int,
        (x as int) < args.len(),
        !visited[x as int],
        args[x as int].len() == 0,
    ensures
        ({
            let gs = build_groups(args, visited, i);
            exists|g: int, k: int|
                0 <= g < gs.len() && 0 <= k < gs[g].len() && (#[trigger] gs[g][k]) == x
                    && earlier_groups_sealed(args, gs, g)
        }),
    decreases args.len() - i,
{
    let gs = build_groups(args, visited, i);
    assert(!declares_wildcard(args[x as int]));
    if visited[i] {
        lemma_build_groups_no_args(args, visited, i + 1, x);
        assert(build_groups(args, visited, i) == build_groups(args, visited, i + 1));
    } else if i == x as int {
        let v2 = visited.update(i, true);
        let rec = fill_group(args, v2, args[i].to_set(), i + 1);
        assert(gs == seq![seq![i as usize] + rec.0] + build_groups(args, rec.1, i + 1));
        assert(gs[0][0] == x);
    } else if declares_wildcard(args[i]) {
        let v2 = visited.update(i, true);
        lemma_build_groups_no_args(args, v2, i + 1, x);
        let rest = build_groups(args, v2, i + 1);
        assert(gs == seq![seq![i as usize]] + rest);
        let (g, k) = choose|g: int, k: int|
            0 <= g < rest.len() && 0 <= k < rest[g].len() && (#[trigger] rest[g][k]) == x
                && earlier_groups_sealed(args, rest, g);
        assert(gs[g + 1] == rest[g]);
        assert(gs[g + 1][k] == x);
        assert forall|g2: int| 0 <= g2 < g + 1 implies declares_wildcard(
            args[(#[trigger] gs[g2])[0] as int],
        ) by {
            if g2 == 0 {
                assert(gs[0] == seq![i as usize]);
                assert(gs[0][0] == i as usize);
            } else {
                assert(gs[g2] == rest[g2 - 1]);
            }
        }
        assert(earlier_groups_sealed(args, gs, g + 1));
    } else {
        let v2 = visited.update(i, true);
        let c2 = args[i].to_set();
        let rec = fill_group(args, v2, c2, i + 1);
        assert(gs == seq![seq![i as usize] + rec.0] + build_groups(args, rec.1, i + 1));
        lemma_fill_group_takes_no_args(args, v2, c2, i + 1, x);
        let k = choose|k: int| 0 <= k < rec.0.len() && rec.0[k] == x;
        assert(gs[0] == seq![i as usize] + rec.0);
        assert(gs[0][k + 1] == x);
    }
}

/// Law (no-args joins the first group): a system declaring no types is a
/// universal non-conflicting system — it is placed in the first compiled
/// group it is scanned into, which is the first group whose opener does
/// not declare the wildcard.
pub proof fn lemma_no_args_joins_first_group(args: Seq<Seq<ComponentType>>, x: usize)
    requires
        args.len() <= usize::MAX,
        (x as int) < args.len(),
        args[x as int].len() == 0,
    ensures
        exists|g: int, k: int|
            0 <= g < execution_order(args).len() && 0 <= k < execution_order(args)[g].len() && (
            #[trigger] execution_order(args)[g][k]) == x && earlier_groups_sealed(
                args,
                execution_order(args),
                g,
            ),
{
    let v0 = Seq::new(args.len(), |k: int| false);
    lemma_build_groups_no_args(args, v0, 0, x);
    let gs = build_groups(args, v0, 0);
    assert(execution_order(args) == gs);
    let (g, k) = choose|g: int, k: int|
        0 <= g < gs.len() && 0 <= k < gs[g].len() && (#[trigger] gs[g][k]) == x
            && earlier_groups_sealed(args, gs, g);
    assert(execution_order(args)[g][k] == x);
    assert(earlier_groups_sealed(args, execution_order(args), g));
}

/// Law (complete placement and order): compilation places every
/// registered system in exactly one group exactly once; members within a
/// group appear in scan order (ascending registration index), and groups
/// are ordered by the registration index of their first member.
pub proof fn lemma_every_system_placed_once(args: Seq<Seq<ComponentType>>)
    requires
        args.len() <= usize::MAX,
    ensures
        forall|x: usize|
            (x as int) < args.len() ==> #[trigger] placed_in(execution_order(args), x),
        forall|g1: int, k1: int, g2: int, k2: int|
            #![trigger execution_order(args)[g1][k1], execution_order(args)[g2][k2]]
            0 <= g1 < execution_order(args).len() && 0 <= k1 < execution_order(args)[g1].len() && 0
                <= g2 < execution_order(args).len() && 0 <= k2 < execution_order(args)[g2].len()
                && !(g1 == g2 && k1 == k2) ==> execution_order(args)[g1][k1] != execution_order(
                args,
            )[g2][k2],
        forall|g: int, k1: int, k2: int|
            #![trigger execution_order(args)[g][k1], execution_order(args)[g][k2]]
            0 <= g < execution_order(args).len() && 0 <= k1 < k2 < execution_order(args)[g].len()
                ==> execution_order(args)[g][k1] < execution_order(args)[g][k2],
        forall|g1: int, g2: int|
            #![trigger execution_order(args)[g1], execution_order(args)[g2]]
            0 <= g1 < g2 < execution_order(args).len() ==> execution_order(args)[g1][0]
                < execution_order(args)[g2][0],
{
    lemma_build_groups_placement(args, Seq::new(args.len(), |k: int| false), 0);
}

/// Law (compilation determinism): the compiled execution order is a pure
/// function of the registration sequence's declared type lists, so
/// compiling the same registration sequence twice yields identical group
/// lists.
pub proof fn lemma_compilation_deterministic(
    args1: Seq<Seq<ComponentType>>,
    args2: Seq<Seq<ComponentType>>,
)
    requires
        args1 == args2,
    ensures
        execution_order(args1) == execution_order(args2),
{
}

/// Law (disjointness invariant): in every compiled group, the declared
/// type sets of the members are pairwise disjoint; every group is
/// nonempty and its members are registration indices.
pub proof fn lemma_groups_pairwise_disjoint(args: Seq<Seq<ComponentType>>)
    requires
        args.len() <= usize::MAX,
    ensures
        forall|g: int|
            0 <= g < execution_order(args).len() ==> (#[trigger] execution_order(
                args,
            )[g]).len() >= 1,
        forall|g: int, k: int|
            #![trigger execution_order(args)[g][k]]
            0 <= g < execution_order(args).len() && 0 <= k < execution_order(args)[g].len()
                ==> (execution_order(args)[g][k] as int) < args.len(),
        forall|g: int, k1: int, k2: int|
            #![trigger execution_order(args)[g][k1], execution_order(args)[g][k2]]
            0 <= g < execution_order(args).len() && 0 <= k1 < execution_order(args)[g].len() && 0
                <= k2 < execution_order(args)[g].len() && k1 != k2
                ==> args[execution_order(args)[g][k1] as int].to_set().disjoint(
                args[execution_order(args)[g][k2] as int].to_set(),
            ),
{
    lemma_build_groups_props(args, Seq::new(args.len(), |k: int| false), 0);
}

/// Law (wildcard exclusivity): any system declaring the wildcard type is
/// placed alone in its own group, regardless of what else is registered
/// before or after it.
pub proof fn lemma_wildcard_runs_alone(args: Seq<Seq<ComponentType>>)
    requires
        args.len() <= usize::MAX,
    ensures
        forall|g: int, k: int|
            #![trigger execution_order(args)[g][k]]
            0 <= g < execution_order(args).len() && 0 <= k < execution_order(args)[g].len()
                && declares_wildcard(args[execution_order(args)[g][k] as int])
                ==> execution_order(args)[g].len() == 1,
{
    lemma_build_groups_props(args, Seq::new(args.len(), |k: int| false), 0);
}

/// Delta time of a variable-rate phase call: current time minus the
/// previously recorded time, in microseconds (zero if the clock stepped
/// backwards, which a monotonic driver clock never does).
pub open spec fn update_dt(prev_micros: u64, now_micros: u64) -> u64 {
    if now_micros >= prev_micros {
        (now_micros - prev_micros) as u64
    } else {
        0u64
    }
}

/// End-of-tick plan of the fixed-interval loop: how long to sleep before
/// the next tick, and the overrun to log. Under the interval the sleep is
/// the remainder and the overrun zero; at or over it the sleep is zero
/// (the next tick starts at once, no catching up) and the overrun is the
/// excess.
pub open spec fn fixed_tick_plan(interval_micros: u64, elapsed_micros: u64) -> (u64, u64) {
    if elapsed_micros < interval_micros {
        ((interval_micros - elapsed_micros) as u64, 0u64)
    } else {
        (0u64, (elapsed_micros - interval_micros) as u64)
    }
}

/// Registers system descriptors per phase, keeps each phase's compiled
/// execution order, and steps the timing and the phase-exclusion lock.
/// The driver owns the clock and the runtime: it passes the current time
/// into the phase-step functions, runs the groups they select, and holds
/// the lock around each phase body.
pub struct Scheduler {
    pub init_systems: Vec<System>,
    pub update_systems: Vec<System>,
    pub fixed_update_systems: Vec<System>,
    pub close_systems: Vec<System>,
    pub init_execution_order: Vec<Vec<usize>>,
    pub update_execution_order: Vec<Vec<usize>>,
    pub fixed_update_execution_order: Vec<Vec<usize>>,
    pub close_execution_order: Vec<Vec<usize>>,
    pub locked: bool,
    pub fixed_update_interval: u64,
    pub prev_time: u64,
}

impl Scheduler {
    /// The registration list of a phase.
    pub open spec fn systems_seq(self, system_type: SystemType) -> Seq<System> {
        match system_type {
            SystemType::Init => self.init_systems@,
            SystemType::Update => self.update_systems@,
            SystemType::FixedUpdate => self.fixed_update_systems@,
            SystemType::Close => self.close_systems@,
        }
    }

    /// The stored execution order of a phase, as group index lists.
    pub open spec fn order_seq(self, system_type: SystemType) -> Seq<Seq<usize>> {
        match system_type {
            SystemType::Init => groups_view(self.init_execution_order@),
            SystemType::Update => groups_view(self.update_execution_order@),
            SystemType::FixedUpdate => groups_view(self.fixed_update_execution_order@),
            SystemType::Close => groups_view(self.close_execution_order@),
        }
    }

    /// Every phase's stored order is the compilation of its current
    /// registration list.
    pub open spec fn orders_compiled(self) -> bool {
        forall|system_type: SystemType| #[trigger]
            self.order_seq(system_type) == execution_order(
                args_of(self.systems_seq(system_type)),
            )
    }

    /// Whether one attempt to take the phase-exclusion lock would
    /// succeed: it does iff nobody holds the lock.
    pub open spec fn try_lock_would_succeed(self) -> bool {
        !self.locked
    }

    /// A scheduler with no systems registered, every order compiled (and
    /// empty), the lock free, and the given fixed-update interval in
    /// microseconds.
    pub fn new(fixed_update_interval: u64) -> (r: Scheduler)
        ensures
            forall|system_type: SystemType| #[trigger] r.systems_seq(system_type).len() == 0,
            r.orders_compiled(),
            !r.locked,
            r.fixed_update_interval == fixed_update_interval,
            r.prev_time == 0,
    {
        let r = Scheduler {
            init_systems: Vec::new(),
            update_systems: Vec::new(),
            fixed_update_systems: Vec::new(),
            close_systems: Vec::new(),
            init_execution_order: Vec::new(),
            update_execution_order: Vec::new(),
            fixed_update_execution_order: Vec::new(),
            close_execution_order: Vec::new(),
            locked: false,
            fixed_update_interval,
            prev_time: 0,
        };
        proof {
            assert(args_of(Seq::<System>::empty()) =~= Seq::<Seq<ComponentType>>::empty());
            assert(execution_order(Seq::<Seq<ComponentType>>::empty())
                == Seq::<Seq<usize>>::empty());
            assert(groups_view(Seq::<Vec<usize>>::empty()) =~= Seq::<Seq<usize>>::empty());
            assert forall|system_type: SystemType| #[trigger]
                r.order_seq(system_type) == execution_order(
                    args_of(r.systems_seq(system_type)),
                ) by {
                match system_type {
                    SystemType::Init => {},
                    SystemType::Update => {},
                    SystemType::FixedUpdate => {},
                    SystemType::Close => {},
                }
            }
        }
        r
    }

    /// Registers a descriptor for a phase and recompiles that phase's
    /// execution order at once; the other phases are untouched.
    pub fn add_system(&mut self, system: System, system_type: SystemType)
        ensures
            final(self).systems_seq(system_type) == old(self).systems_seq(system_type).push(
                system,
            ),
            final(self).order_seq(system_type) == execution_order(
                args_of(final(self).systems_seq(system_type)),
            ),
            forall|u: SystemType|
                u != system_type ==> #[trigger] final(self).systems_seq(u) == old(
                    self,
                ).systems_seq(u),
            forall|u: SystemType|
                u != system_type ==> #[trigger] final(self).order_seq(u) == old(self).order_seq(u),
            old(self).orders_compiled() ==> final(self).orders_compiled(),
            final(self).locked == old(self).locked,
            final(self).fixed_update_interval == old(self).fixed_update_interval,
            final(self).prev_time == old(self).prev_time,
    {
        match system_type {
            SystemType::Init => {
                self.init_systems.push(system);
                let order = generate_execution_order_for_systems(&self.init_systems);
                self.init_execution_order = order;
            },
            SystemType::Update => {
                self.update_systems.push(system);
                let order = generate_execution_order_for_systems(&self.update_systems);
                self.update_execution_order = order;
            },
            SystemType::FixedUpdate => {
                self.fixed_update_systems.push(system);
                let order = generate_execution_order_for_systems(&self.fixed_update_systems);
                self.fixed_update_execution_order = order;
            },
            SystemType::Close => {
                self.close_systems.push(system);
                let order = generate_execution_order_for_systems(&self.close_systems);
                self.close_execution_order = order;
            },
        };
        proof {
            if old(self).orders_compiled() {
                assert forall|u: SystemType| #[trigger]
                    self.order_seq(u) == execution_order(args_of(self.systems_seq(u))) by {
                    if u != system_type {
                        assert(old(self).order_seq(u) == execution_order(
                            args_of(old(self).systems_seq(u)),
                        ));
                    }
                }
            }
        }
    }

    /// Registers a descriptor without recompiling: the stored execution
    /// orders of every phase stay as they were, so the caller must call
    /// `generate_execution_order` before driving the phase.
    pub fn add_system_without_execution_order_generation(
        &mut self,
        system: System,
        system_type: SystemType,
    )
        ensures
            final(self).systems_seq(system_type) == old(self).systems_seq(system_type).push(
                system,
            ),
            forall|u: SystemType|
                u != system_type ==> #[trigger] final(self).systems_seq(u) == old(
                    self,
                ).systems_seq(u),
            forall|u: SystemType| #[trigger]
                final(self).order_seq(u) == old(self).order_seq(u),
            final(self).locked == old(self).locked,
            final(self).fixed_update_interval == old(self).fixed_update_interval,
            final(self).prev_time == old(self).prev_time,
    {
        match system_type {
            SystemType::Init => self.init_systems.push(system),
            SystemType::Update => self.update_systems.push(system),
            SystemType::FixedUpdate => self.fixed_update_systems.push(system),
            SystemType::Close => self.close_systems.push(system),
        };
    }

    /// Recompiles every phase's execution order from its current
    /// registration list.
    pub fn generate_execution_order(&mut self)
        ensures
            forall|u: SystemType| #[trigger]
                final(self).systems_seq(u) == old(self).systems_seq(u),
            final(self).orders_compiled(),
            final(self).locked == old(self).locked,
            final(self).fixed_update_interval == old(self).fixed_update_interval,
            final(self).prev_time == old(self).prev_time,
    {
        let order = generate_execution_order_for_systems(&self.init_systems);
        self.init_execution_order = order;
        let order = generate_execution_order_for_systems(&self.update_systems);
        self.update_execution_order = order;
        let order = generate_execution_order_for_systems(&self.fixed_update_systems);
        self.fixed_update_execution_order = order;
        let order = generate_execution_order_for_systems(&self.close_systems);
        self.close_execution_order = order;
    }

    /// Phase step for Init: captures `now_micros` as the previous time;
    /// delta time for the one-shot initialization call is zero. The
    /// driver takes the lock around running the Init groups.
    pub fn init(&mut self, now_micros: u64) -> (dt: u64)
        ensures
            dt == 0,
            final(self).prev_time == now_micros,
            final(self).locked == old(self).locked,
            final(self).fixed_update_interval == old(self).fixed_update_interval,
            forall|u: SystemType| #[trigger]
                final(self).systems_seq(u) == old(self).systems_seq(u),
            forall|u: SystemType| #[trigger] final(self).order_seq(u) == old(self).order_seq(u),
    {
        self.prev_time = now_micros;
        0
    }

    /// Phase step for Update: delta time is the time since the previous
    /// Update (or Init) call, and `now_micros` becomes the new previous
    /// time. The driver takes the lock around running the Update groups.
    pub fn update(&mut self, now_micros: u64) -> (dt: u64)
        ensures
            dt == update_dt(old(self).prev_time, now_micros),
            final(self).prev_time == now_micros,
            final(self).locked == old(self).locked,
            final(self).fixed_update_interval == old(self).fixed_update_interval,
            forall|u: SystemType| #[trigger]
                final(self).systems_seq(u) == old(self).systems_seq(u),
            forall|u: SystemType| #[trigger] final(self).order_seq(u) == old(self).order_seq(u),
    {
        let dt = if now_micros >= self.prev_time {
            now_micros - self.prev_time
        } else {
            0
        };
        self.prev_time = now_micros;
        dt
    }

    /// Phase step for FixedUpdate: delta time is the configured interval,
    /// not a measurement, and the recorded previous time is untouched.
    pub fn fixed_update(&self) -> (dt: u64)
        ensures
            dt == self.fixed_update_interval,
    {
        self.fixed_update_interval
    }

    /// Phase step for Close: computed like Update, run once at shutdown.
    pub fn close(&mut self, now_micros: u64) -> (dt: u64)
        ensures
            dt == update_dt(old(self).prev_time, now_micros),
            final(self).prev_time == now_micros,
            final(self).locked == old(self).locked,
            final(self).fixed_update_interval == old(self).fixed_update_interval,
            forall|u: SystemType| #[trigger]
                final(self).systems_seq(u) == old(self).systems_seq(u),
            forall|u: SystemType| #[trigger] final(self).order_seq(u) == old(self).order_seq(u),
    {
        let dt = if now_micros >= self.prev_time {
            now_micros - self.prev_time
        } else {
            0
        };
        self.prev_time = now_micros;
        dt
    }

    /// End-of-tick step of the fixed-interval loop: how long the driver
    /// sleeps before the next tick and the overrun to log, from how long
    /// the tick actually took.
    pub fn after_fixed_tick(&self, elapsed_micros: u64) -> (r: (u64, u64))
        ensures
            r == fixed_tick_plan(self.fixed_update_interval, elapsed_micros),
    {
        if elapsed_micros < self.fixed_update_interval {
            (self.fixed_update_interval - elapsed_micros, 0)
        } else {
            (0, elapsed_micros - self.fixed_update_interval)
        }
    }

    /// One attempt to take the phase-exclusion lock: succeeds iff nobody
    /// holds it. A phase driver retries after a short sleep until it
    /// succeeds, runs its groups, then releases. Doubles as the escape
    /// hatch for bootstrapping a long-running fixed-update task outside a
    /// phase call — caller's responsibility.
    pub fn force_lock(&mut self) -> (r: bool)
        ensures
            r == old(self).try_lock_would_succeed(),
            final(self).locked,
            r ==> !old(self).locked,
            !r ==> *final(self) == *old(self),
            final(self).fixed_update_interval == old(self).fixed_update_interval,
            final(self).prev_time == old(self).prev_time,
            forall|u: SystemType| #[trigger]
                final(self).systems_seq(u) == old(self).systems_seq(u),
            forall|u: SystemType| #[trigger] final(self).order_seq(u) == old(self).order_seq(u),
    {
        if self.locked {
            false
        } else {
            self.locked = true;
            true
        }
    }

    /// Releases the phase-exclusion lock unconditionally.
    pub fn force_unlock(&mut self)
        ensures
            !final(self).locked,
            final(self).fixed_update_interval == old(self).fixed_update_interval,
            final(self).prev_time == old(self).prev_time,
            forall|u: SystemType| #[trigger]
                final(self).systems_seq(u) == old(self).systems_seq(u),
            forall|u: SystemType| #[trigger] final(self).order_seq(u) == old(self).order_seq(u),
    {
        self.locked = false;
    }
}

/// Law (update dt correctness): after Init at `t_init` records `t_init`,
/// an Update at `t0` yields dt exactly `t0 - t_init` and records `t0`,
/// and a second Update at `t1` yields dt exactly `t1 - t0`.
pub proof fn lemma_update_dt_correct(t_init: u64, t0: u64, t1: u64)
    requires
        t_init <= t0 <= t1,
    ensures
        update_dt(t_init, t0) == t0 - t_init,
        update_dt(t0, t1) == t1 - t0,
{
}

/// Law (fixed-update cadence): consecutive fixed ticks are spaced at
/// least one interval apart — absent overrun the planned sleep pads the
/// tick to exactly the interval; on overrun no delay is added and the
/// overrun amount is reported.
pub proof fn lemma_fixed_cadence(interval_micros: u64, elapsed_micros: u64)
    ensures
        elapsed_micros + fixed_tick_plan(interval_micros, elapsed_micros).0 >= interval_micros,
        elapsed_micros <= interval_micros ==> elapsed_micros + fixed_tick_plan(
            interval_micros,
            elapsed_micros,
        ).0 == interval_micros,
        elapsed_micros >= interval_micros ==> fixed_tick_plan(interval_micros, elapsed_micros).0
            == 0 && fixed_tick_plan(interval_micros, elapsed_micros).1 == elapsed_micros
            - interval_micros,
{
}

/// Law (mutual exclusion): while one phase driver holds the lock, any
/// other driver's attempt fails, so Update and FixedUpdate bodies never
/// overlap — the failed attempter leaves the scheduler unchanged and
/// retries after its backoff sleep.
pub proof fn lemma_lock_mutual_exclusion(s: Scheduler)
    requires
        s.locked,
    ensures
        !s.try_lock_would_succeed(),
{
}

} // verus!
