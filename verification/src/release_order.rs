//! The release-order resolver: a depth-first, post-order traversal of the
//! dependency graph implied by the in-scope package set.
//!
//! The resolver returns the packages in an order in which every package is
//! placed after all of its in-scope dependencies, or reports a circular
//! dependency. Dependency edges are derived by name against the in-scope set
//! only: a dependency name with no in-scope match contributes no edge, and a
//! package is never its own dependency.

use vstd::prelude::*;

use crate::package::{Package, PackageView};

verus! {

/// Whether some package in `pkgs` is named `n`.
pub open spec fn contains_name(pkgs: Seq<PackageView>, n: Seq<char>) -> bool {
    exists|i: int| 0 <= i < pkgs.len() && pkgs[i].name == n
}

/// A dependency edge from the package named `a` to the package named `b`,
/// derived against the in-scope set `pkgs`: some in-scope package named `a`
/// declares a dependency named `b`, `b` names an in-scope package, and the
/// two names differ (a package is never its own dependency).
pub open spec fn edge(pkgs: Seq<PackageView>, a: Seq<char>, b: Seq<char>) -> bool {
    &&& a != b
    &&& contains_name(pkgs, b)
    &&& exists|i: int|
        0 <= i < pkgs.len() && pkgs[i].name == a && pkgs[i].dependencies.contains(b)
}

/// Consecutive elements of `ns` are all dependency edges of `pkgs`.
pub open spec fn is_chain(pkgs: Seq<PackageView>, ns: Seq<Seq<char>>) -> bool {
    forall|t: int| 0 <= t < ns.len() - 1 ==> edge(pkgs, #[trigger] ns[t], ns[t + 1])
}

/// The package named `b` is reachable from the package named `a` by following
/// zero or more dependency edges.
pub open spec fn reaches(pkgs: Seq<PackageView>, a: Seq<char>, b: Seq<char>) -> bool {
    exists|ns: Seq<Seq<char>>|
        ns.len() >= 1 && is_chain(pkgs, ns) && ns.first() == a && ns.last() == b
}

/// The dependency graph of `pkgs` has a cycle: a chain of at least one edge
/// that returns to its starting name.
pub open spec fn has_cycle(pkgs: Seq<PackageView>) -> bool {
    exists|ns: Seq<Seq<char>>|
        ns.len() >= 2 && is_chain(pkgs, ns) && ns.first() == ns.last()
}

/// In `order`, some package named `dn` appears strictly before position `i`.
pub open spec fn name_before(order: Seq<PackageView>, i: int, dn: Seq<char>) -> bool {
    exists|j: int| 0 <= j < i && order[j].name == dn
}

/// The dependency at position `t` of the package at position `i` of `order`
/// imposes no constraint (it is a self-reference or out of scope), or its
/// package appears strictly before position `i`.
pub open spec fn dep_before(
    pkgs: Seq<PackageView>,
    order: Seq<PackageView>,
    i: int,
    t: int,
) -> bool {
    let dn = order[i].dependencies[t];
    (dn != order[i].name && contains_name(pkgs, dn)) ==> name_before(order, i, dn)
}

/// Every package of `order` appears strictly after all of its in-scope
/// dependencies.
pub open spec fn well_ordered(pkgs: Seq<PackageView>, order: Seq<PackageView>) -> bool {
    forall|i: int, t: int|
        0 <= i < order.len() && 0 <= t < order[i].dependencies.len() ==> #[trigger] dep_before(
            pkgs,
            order,
            i,
            t,
        )
}

/// No two packages of `s` share a name.
pub open spec fn distinct_names(s: Seq<PackageView>) -> bool {
    forall|i: int, j: int|
        0 <= i < s.len() && 0 <= j < s.len() && i != j ==> (#[trigger] s[i]).name != (
        #[trigger] s[j]).name
}

/// Every element of `order` is (the image of) an element of `pkgs`.
pub open spec fn all_from(pkgs: Seq<PackageView>, order: Seq<PackageView>) -> bool {
    forall|j: int| 0 <= j < order.len() ==> pkgs.contains(#[trigger] order[j])
}

/// Every package of `pkgs` has a package of its name in `order`.
pub open spec fn complete(pkgs: Seq<PackageView>, order: Seq<PackageView>) -> bool {
    forall|k: int| 0 <= k < pkgs.len() ==> contains_name(order, (#[trigger] pkgs[k]).name)
}

/// The single failure mode of the resolver: while the package named
/// `dependent` was being resolved, its dependency named `dependency` was
/// found on the active resolution path, closing a cycle.
#[derive(Debug, Clone, PartialEq)]
pub struct CircularDependency {
    pub dependency: String,
    pub dependent: String,
}

/// What a returned `CircularDependency` means: the dependent declares the
/// dependency as an in-scope dependency edge, and the dependent is reachable
/// from the dependency, so the two ends close a real cycle.
pub open spec fn reports_cycle(pkgs: Seq<PackageView>, e: CircularDependency) -> bool {
    &&& edge(pkgs, e.dependent@, e.dependency@)
    &&& reaches(pkgs, e.dependency@, e.dependent@)
}

/// A back edge into a name that reaches its source closes a cycle.
pub proof fn lemma_back_edge_closes_cycle(pkgs: Seq<PackageView>, a: Seq<char>, b: Seq<char>)
    requires
        edge(pkgs, a, b),
        reaches(pkgs, b, a),
    ensures
        has_cycle(pkgs),
{
    let ns = choose|ns: Seq<Seq<char>>|
        ns.len() >= 1 && is_chain(pkgs, ns) && ns.first() == b && ns.last() == a;
    let cyc = ns.push(b);
    assert forall|t: int| 0 <= t < cyc.len() - 1 implies edge(pkgs, #[trigger] cyc[t], cyc[t + 1]) by {
        if t < ns.len() - 1 {
            assert(cyc[t] == ns[t]);
            assert(cyc[t + 1] == ns[t + 1]);
        } else {
            assert(cyc[t] == ns.last());
            assert(cyc[t + 1] == b);
        }
    }
    assert(cyc.first() == b);
    assert(cyc.last() == b);
    assert(cyc.len() >= 2);
}

/// A self-reference is never a dependency edge: the two ends of an edge are
/// distinct names, so a package that lists its own name gains no constraint.
pub proof fn lemma_self_reference_no_edge(pkgs: Seq<PackageView>, a: Seq<char>)
    ensures
        !edge(pkgs, a, a),
{
}

/// A dependency name with no in-scope match contributes no edge: names of
/// packages outside the in-scope set impose no ordering constraint and take
/// no part in any cycle.
pub proof fn lemma_external_name_no_edge(pkgs: Seq<PackageView>, a: Seq<char>, b: Seq<char>)
    requires
        !contains_name(pkgs, b),
    ensures
        !edge(pkgs, a, b),
{
}

/// The names of the packages of `s`, in order.
pub open spec fn names_of(s: Seq<PackageView>) -> Seq<Seq<char>> {
    s.map_values(|p: PackageView| p.name)
}

/// Packages with pairwise distinct names, all drawn from the names of
/// `pkgs`, are no more numerous than `pkgs`.
proof fn lemma_distinct_names_bound(pkgs: Seq<PackageView>, s: Seq<PackageView>)
    requires
        distinct_names(s),
        forall|q: int| 0 <= q < s.len() ==> contains_name(pkgs, (#[trigger] s[q]).name),
    ensures
        s.len() <= pkgs.len(),
{
    broadcast use vstd::seq_lib::seq_to_set_is_finite;

    let sn = names_of(s);
    let pn = names_of(pkgs);
    assert(sn.no_duplicates());
    sn.unique_seq_to_set();
    pn.lemma_cardinality_of_set();
    assert forall|x: Seq<char>| sn.to_set().contains(x) implies pn.to_set().contains(x) by {
        let q: int = choose|q: int| 0 <= q < sn.len() && sn[q] == x;
        assert(s[q].name == x);
        assert(contains_name(pkgs, x));
        let i: int = choose|i: int| 0 <= i < pkgs.len() && pkgs[i].name == x;
        assert(pn[i] == x);
        assert(pn.contains(x));
    }
    vstd::set_lib::lemma_len_subset(sn.to_set(), pn.to_set());
}

/// As above, but strictly fewer when some name of `pkgs` is missing from `s`.
proof fn lemma_distinct_names_bound_strict(pkgs: Seq<PackageView>, s: Seq<PackageView>, x: Seq<char>)
    requires
        distinct_names(s),
        forall|q: int| 0 <= q < s.len() ==> contains_name(pkgs, (#[trigger] s[q]).name),
        contains_name(pkgs, x),
        !contains_name(s, x),
    ensures
        s.len() < pkgs.len(),
{
    let i: int = choose|i: int| 0 <= i < pkgs.len() && pkgs[i].name == x;
    let s2 = s.push(pkgs[i]);
    assert forall|q: int, r: int|
        0 <= q < s2.len() && 0 <= r < s2.len() && q != r implies (#[trigger] s2[q]).name != (
    #[trigger] s2[r]).name by {
        if q < s.len() && r < s.len() {
            assert(s2[q] == s[q]);
            assert(s2[r] == s[r]);
        } else if q < s.len() {
            assert(s2[q] == s[q]);
            assert(s2[r] == pkgs[i]);
        } else {
            assert(s2[q] == pkgs[i]);
            assert(s2[r] == s[r]);
        }
    }
    assert forall|q: int| 0 <= q < s2.len() implies contains_name(pkgs, (#[trigger] s2[q]).name) by {
        if q < s.len() {
            assert(s2[q] == s[q]);
        } else {
            assert(s2[q] == pkgs[i]);
        }
    }
    lemma_distinct_names_bound(pkgs, s2);
}

/// One suspended visit of the traversal: the package being visited, by its
/// position in the input, and how many of its declared dependencies have
/// been examined so far.
#[derive(Clone, Copy)]
struct Frame {
    idx: usize,
    dep: usize,
}

/// Every frame points into `pkgs` and has examined no more dependencies than
/// its package declares.
spec fn frames_bounded(pkgs: Seq<PackageView>, stack: Seq<Frame>) -> bool {
    forall|t: int|
        0 <= t < stack.len() ==> ((#[trigger] stack[t]).idx < pkgs.len() && stack[t].dep
            <= pkgs[stack[t].idx as int].dependencies.len())
}

/// The frame above `t` was entered through the dependency that frame `t`
/// examined last, so the two packages are joined by a dependency edge.
spec fn frame_link(pkgs: Seq<PackageView>, stack: Seq<Frame>, t: int) -> bool {
    let f = stack[t];
    let g = stack[t + 1];
    &&& 1 <= f.dep
    &&& f.dep <= pkgs[f.idx as int].dependencies.len()
    &&& pkgs[g.idx as int].name == pkgs[f.idx as int].dependencies[f.dep - 1]
    &&& pkgs[f.idx as int].dependencies[f.dep - 1] != pkgs[f.idx as int].name
}

spec fn frames_wf(pkgs: Seq<PackageView>, stack: Seq<Frame>) -> bool {
    &&& frames_bounded(pkgs, stack)
    &&& forall|t: int| 0 <= t < stack.len() - 1 ==> #[trigger] frame_link(pkgs, stack, t)
}

/// Dependency `s` of the package at position `i` of `pkgs` imposes no
/// constraint, or is already resolved into `order`.
spec fn dep_handled(pkgs: Seq<PackageView>, i: int, s: int, order: Seq<PackageView>) -> bool {
    let dn = pkgs[i].dependencies[s];
    (dn != pkgs[i].name && contains_name(pkgs, dn)) ==> contains_name(order, dn)
}

/// All dependencies that frame `t` has finished with are resolved. The frame
/// below the top has also advanced past the dependency its child was entered
/// for, which is not finished yet; every other examined dependency is.
spec fn frame_handled(
    pkgs: Seq<PackageView>,
    stack: Seq<Frame>,
    t: int,
    order: Seq<PackageView>,
) -> bool {
    let f = stack[t];
    let bound: int = if t < stack.len() - 1 {
        f.dep - 1
    } else {
        f.dep as int
    };
    forall|s: int| 0 <= s < bound ==> #[trigger] dep_handled(pkgs, f.idx as int, s, order)
}

spec fn frames_handled(pkgs: Seq<PackageView>, stack: Seq<Frame>, order: Seq<PackageView>) -> bool {
    forall|t: int| 0 <= t < stack.len() ==> #[trigger] frame_handled(pkgs, stack, t, order)
}

/// The on-path marker set mirrors the topmost frames of the stack, one marker
/// per frame, in order: everything marked since the markers were last
/// cleared is still being visited.
spec fn passed_matches(pkgs: Seq<PackageView>, stack: Seq<Frame>, passed: Seq<PackageView>) -> bool {
    &&& passed.len() <= stack.len()
    &&& forall|q: int|
        0 <= q < passed.len() ==> (#[trigger] passed[q]).name == pkgs[stack[stack.len()
            - passed.len() + q].idx as int].name
}

/// The names of the packages the stacked frames visit, bottom first.
spec fn stack_names(pkgs: Seq<PackageView>, stack: Seq<Frame>) -> Seq<Seq<char>> {
    Seq::new(stack.len(), |t: int| pkgs[stack[t].idx as int].name)
}

/// How many dependencies frame `f` still has to examine.
spec fn remaining(pkgs: Seq<PackageView>, f: Frame) -> int {
    pkgs[f.idx as int].dependencies.len() - f.dep
}

/// The dependencies still to be examined across the whole stack; part of the
/// termination measure of the traversal loop.
spec fn stack_work(pkgs: Seq<PackageView>, stack: Seq<Frame>) -> int
    decreases stack.len(),
{
    if stack.len() == 0 {
        0
    } else {
        stack_work(pkgs, stack.drop_last()) + remaining(pkgs, stack.last())
    }
}

proof fn lemma_stack_work_nonneg(pkgs: Seq<PackageView>, stack: Seq<Frame>)
    requires
        frames_bounded(pkgs, stack),
    ensures
        stack_work(pkgs, stack) >= 0,
    decreases stack.len(),
{
    if stack.len() > 0 {
        let rest = stack.drop_last();
        assert forall|t: int|
            0 <= t < rest.len() implies ((#[trigger] rest[t]).idx < pkgs.len() && rest[t].dep
            <= pkgs[rest[t].idx as int].dependencies.len()) by {
            assert(rest[t] == stack[t]);
        }
        lemma_stack_work_nonneg(pkgs, rest);
        assert(remaining(pkgs, stack.last()) >= 0);
    }
}

proof fn lemma_stack_work_push(pkgs: Seq<PackageView>, stack: Seq<Frame>, f: Frame)
    ensures
        stack_work(pkgs, stack.push(f)) == stack_work(pkgs, stack) + remaining(pkgs, f),
{
    assert(stack.push(f).drop_last() =~= stack);
    assert(stack.push(f).last() == f);
}

/// Whether a package of `pkg`'s name is among `packages`.
///
/// Membership goes by name alone, as resolution identifies packages by name.
fn is_package_in(pkg: &Package, packages: &Vec<Package>) -> (r: bool)
    ensures
        r == contains_name(packages.deep_view(), pkg@.name),
{
    let ghost pv = packages.deep_view();
    let mut i: usize = 0;
    while i < packages.len()
        invariant
            i <= packages@.len(),
            pv == packages.deep_view(),
            forall|j: int| 0 <= j < i ==> pv[j].name != pkg@.name,
        decreases packages@.len() - i,
    {
        if packages[i].name == pkg.name {
            proof {
                assert(pv[i as int].name == pkg@.name);
            }
            return true;
        }
        i = i + 1;
    }
    false
}

/// The position of the first package of `pkgs`, at `i` or later, named `dn`,
/// skipping the declaring package's own name `ex`.
pub open spec fn first_match_from(
    pkgs: Seq<PackageView>,
    dn: Seq<char>,
    ex: Seq<char>,
    i: int,
) -> Option<int>
    decreases pkgs.len() - i,
    when 0 <= i <= pkgs.len()
{
    if i >= pkgs.len() {
        None
    } else if pkgs[i].name == dn && pkgs[i].name != ex {
        Some(i)
    } else {
        first_match_from(pkgs, dn, ex, i + 1)
    }
}

/// The first in-scope package matching the dependency name `dep_name`
/// declared by the package named `exclude`, skipping self-matches; `None`
/// when the name is out of scope or only names the declaring package itself.
fn find_package(packages: &Vec<Package>, dep_name: &String, exclude: &String) -> (r: Option<usize>)
    ensures
        match r {
            Some(j) => {
                &&& j < packages@.len()
                &&& packages.deep_view()[j as int].name == dep_name@
                &&& dep_name@ != exclude@
                &&& first_match_from(packages.deep_view(), dep_name@, exclude@, 0) == Some(
                    j as int,
                )
            },
            None => {
                &&& !(dep_name@ != exclude@ && contains_name(packages.deep_view(), dep_name@))
                &&& first_match_from(packages.deep_view(), dep_name@, exclude@, 0) is None
            },
        },
{
    let ghost pv = packages.deep_view();
    let mut i: usize = 0;
    while i < packages.len()
        invariant
            i <= packages@.len(),
            pv == packages.deep_view(),
            forall|j: int| 0 <= j < i ==> !(pv[j].name == dep_name@ && pv[j].name != exclude@),
            first_match_from(pv, dep_name@, exclude@, 0) == first_match_from(
                pv,
                dep_name@,
                exclude@,
                i as int,
            ),
        decreases packages@.len() - i,
    {
        if packages[i].name == *dep_name && packages[i].name != *exclude {
            proof {
                assert(pv[i as int].name == dep_name@);
            }
            return Some(i);
        }
        i = i + 1;
    }
    proof {
        if dep_name@ != exclude@ && contains_name(pv, dep_name@) {
            let j: int = choose|j: int| 0 <= j < pv.len() && pv[j].name == dep_name@;
            assert(!(pv[j].name == dep_name@ && pv[j].name != exclude@));
        }
    }
    None
}

proof fn lemma_first_match_props(pkgs: Seq<PackageView>, dn: Seq<char>, ex: Seq<char>, i: int)
    requires
        0 <= i <= pkgs.len(),
    ensures
        match first_match_from(pkgs, dn, ex, i) {
            Some(j) => i <= j < pkgs.len() && pkgs[j].name == dn && dn != ex,
            None => true,
        },
    decreases pkgs.len() - i,
{
    if i < pkgs.len() && !(pkgs[i].name == dn && pkgs[i].name != ex) {
        lemma_first_match_props(pkgs, dn, ex, i + 1);
    }
}

/// The states from which one traversal step is taken: frames point into
/// `pkgs`, the on-path markers mirror the topmost frames and are distinct,
/// in scope, and disjoint from the resolved order, and the order holds
/// distinct in-scope names. These conditions also bound the traversal's
/// termination measure.
spec fn visit_inv(
    pkgs: Seq<PackageView>,
    stack: Seq<Frame>,
    order: Seq<PackageView>,
    passed: Seq<PackageView>,
) -> bool {
    &&& pkgs.len() <= usize::MAX
    &&& (forall|i: int|
        0 <= i < pkgs.len() ==> (#[trigger] pkgs[i]).dependencies.len() <= usize::MAX)
    &&& frames_bounded(pkgs, stack)
    &&& passed_matches(pkgs, stack, passed)
    &&& distinct_names(passed)
    &&& (forall|q: int|
        0 <= q < passed.len() ==> contains_name(pkgs, (#[trigger] passed[q]).name))
    &&& (forall|q: int|
        0 <= q < passed.len() ==> !contains_name(order, (#[trigger] passed[q]).name))
    &&& distinct_names(order)
    &&& (forall|q: int| 0 <= q < order.len() ==> contains_name(pkgs, (#[trigger] order[q]).name))
    &&& order.len() <= pkgs.len()
    &&& passed.len() <= pkgs.len()
}

/// The functional model of the traversal loop: from a traversal state, the
/// outcome of running the depth-first visit to its end. One recursive call
/// is one loop step, so the model fixes the result of the traversal, state
/// by state.
spec fn model_visit(
    pkgs: Seq<PackageView>,
    stack: Seq<Frame>,
    order: Seq<PackageView>,
    passed: Seq<PackageView>,
) -> Result<Seq<PackageView>, (Seq<char>, Seq<char>)>
    decreases
            pkgs.len() - order.len(),
            pkgs.len() - passed.len(),
            stack_work(pkgs, stack),
            stack.len(),
    when visit_inv(pkgs, stack, order, passed)
{
    if stack.len() == 0 {
        Ok(order)
    } else {
        let f = stack.last();
        let p = pkgs[f.idx as int];
        if f.dep < p.dependencies.len() {
            let dn = p.dependencies[f.dep as int];
            match first_match_from(pkgs, dn, p.name, 0) {
                Some(j) => {
                    if contains_name(passed, pkgs[j].name) {
                        Err((pkgs[j].name, p.name))
                    } else {
                        let adv = stack.drop_last().push(
                            Frame { idx: f.idx, dep: (f.dep + 1) as usize },
                        );
                        if !contains_name(order, pkgs[j].name) {
                            proof {
                                lemma_first_match_props(pkgs, dn, p.name, 0);
                                assert(contains_name(pkgs, pkgs[j].name));
                                lemma_distinct_names_bound_strict(pkgs, passed, pkgs[j].name);
                                lemma_stack_work_nonneg(pkgs, stack);
                                assert forall|t: int|
                                    0 <= t < adv.push(Frame { idx: j as usize, dep: 0 }).len()
                                        implies ((#[trigger] adv.push(
                                    Frame { idx: j as usize, dep: 0 },
                                )[t]).idx < pkgs.len() && adv.push(
                                    Frame { idx: j as usize, dep: 0 },
                                )[t].dep <= pkgs[adv.push(
                                    Frame { idx: j as usize, dep: 0 },
                                )[t].idx as int].dependencies.len()) by {
                                    let s2 = adv.push(Frame { idx: j as usize, dep: 0 });
                                    if t < stack.len() - 1 {
                                        assert(s2[t] == stack[t]);
                                    }
                                }
                                lemma_stack_work_nonneg(
                                    pkgs,
                                    adv.push(Frame { idx: j as usize, dep: 0 }),
                                );
                            }
                            model_visit(
                                pkgs,
                                adv.push(Frame { idx: j as usize, dep: 0 }),
                                order,
                                passed.push(pkgs[j]),
                            )
                        } else {
                            proof {
                                assert(adv.drop_last() =~= stack.drop_last());
                                lemma_stack_work_push(
                                    pkgs,
                                    stack.drop_last(),
                                    Frame { idx: f.idx, dep: (f.dep + 1) as usize },
                                );
                                assert(adv =~= stack.drop_last().push(
                                    Frame { idx: f.idx, dep: (f.dep + 1) as usize },
                                ));
                                assert(stack =~= stack.drop_last().push(f));
                                lemma_stack_work_push(pkgs, stack.drop_last(), f);
                                assert(((f.dep + 1) as usize) as int == f.dep + 1);
                                assert(remaining(
                                    pkgs,
                                    Frame { idx: f.idx, dep: (f.dep + 1) as usize },
                                ) == remaining(pkgs, f) - 1);
                                assert(stack_work(pkgs, adv) == stack_work(pkgs, stack) - 1);
                                assert forall|t: int| 0 <= t < adv.len() implies ((
                                #[trigger] adv[t]).idx < pkgs.len() && adv[t].dep
                                    <= pkgs[adv[t].idx as int].dependencies.len()) by {
                                    if t < stack.len() - 1 {
                                        assert(adv[t] == stack[t]);
                                    }
                                }
                                lemma_stack_work_nonneg(pkgs, adv);
                            }
                            model_visit(pkgs, adv, order, passed)
                        }
                    }
                }
                None => {
                    let adv = stack.drop_last().push(
                        Frame { idx: f.idx, dep: (f.dep + 1) as usize },
                    );
                    proof {
                        assert(adv.drop_last() =~= stack.drop_last());
                        lemma_stack_work_push(
                            pkgs,
                            stack.drop_last(),
                            Frame { idx: f.idx, dep: (f.dep + 1) as usize },
                        );
                        assert(stack =~= stack.drop_last().push(f));
                        lemma_stack_work_push(pkgs, stack.drop_last(), f);
                        assert(((f.dep + 1) as usize) as int == f.dep + 1);
                        assert(remaining(pkgs, Frame { idx: f.idx, dep: (f.dep + 1) as usize })
                            == remaining(pkgs, f) - 1);
                        assert(stack_work(pkgs, adv) == stack_work(pkgs, stack) - 1);
                        assert forall|t: int| 0 <= t < adv.len() implies ((#[trigger] adv[t]).idx
                            < pkgs.len() && adv[t].dep <= pkgs[adv[t].idx
                            as int].dependencies.len()) by {
                            if t < stack.len() - 1 {
                                assert(adv[t] == stack[t]);
                            }
                        }
                        lemma_stack_work_nonneg(pkgs, adv);
                    }
                    model_visit(pkgs, adv, order, passed)
                }
            }
        } else {
            let order2 = if !contains_name(order, p.name) {
                order.push(p)
            } else {
                order
            };
            proof {
                assert forall|t: int| 0 <= t < stack.drop_last().len() implies ((
                #[trigger] stack.drop_last()[t]).idx < pkgs.len() && stack.drop_last()[t].dep
                    <= pkgs[stack.drop_last()[t].idx as int].dependencies.len()) by {
                    assert(stack.drop_last()[t] == stack[t]);
                }
                lemma_stack_work_nonneg(pkgs, stack.drop_last());
                assert(stack =~= stack.drop_last().push(f));
                lemma_stack_work_push(pkgs, stack.drop_last(), f);
                assert(remaining(pkgs, f) == 0);
                if !contains_name(order, p.name) {
                    assert(contains_name(pkgs, p.name));
                    lemma_distinct_names_bound_strict(pkgs, order, p.name);
                } else {
                    // a marked name is never resolved, so the markers are
                    // already clear when an emitted package is seen again
                    if passed.len() > 0 {
                        let q: int = passed.len() - 1;
                        assert(passed[q].name == pkgs[stack[stack.len() - 1].idx as int].name);
                        assert(!contains_name(order, passed[q].name));
                        assert(false);
                    }
                }
            }
            model_visit(pkgs, stack.drop_last(), order2, Seq::empty())
        }
    }
}

/// The functional model of one root visit: the outcome of resolving the
/// package at position `r` into `order`, with cleared markers.
spec fn model_root(pkgs: Seq<PackageView>, r: int, order: Seq<PackageView>) -> Result<
    Seq<PackageView>,
    (Seq<char>, Seq<char>),
> {
    if !contains_name(order, pkgs[r].name) {
        model_visit(pkgs, seq![Frame { idx: r as usize, dep: 0 }], order, seq![pkgs[r]])
    } else {
        Ok(order)
    }
}

/// The functional model of the whole resolution from root `k` on, each root
/// taken in input order.
spec fn model_resolve_from(
    pkgs: Seq<PackageView>,
    k: int,
    order: Seq<PackageView>,
) -> Result<Seq<PackageView>, (Seq<char>, Seq<char>)>
    decreases pkgs.len() - k,
    when 0 <= k <= pkgs.len()
{
    if k >= pkgs.len() {
        Ok(order)
    } else {
        match model_root(pkgs, k, order) {
            Ok(order2) => model_resolve_from(pkgs, k + 1, order2),
            Err(e) => Err(e),
        }
    }
}

/// The functional model of the resolver: the one outcome that resolution of
/// `pkgs` has. The resolver's contract equates its result with this
/// function of its input, so resolution is deterministic: identical inputs
/// give identical orderings, and identical reported cycles.
pub closed spec fn model_resolve(pkgs: Seq<PackageView>) -> Result<
    Seq<PackageView>,
    (Seq<char>, Seq<char>),
> {
    model_resolve_from(pkgs, 0, Seq::empty())
}

/// One root visit of the depth-first traversal, run on an explicit work
/// stack. On success the package at `pkg` has been resolved into `order`
/// after all of its in-scope dependencies; `passed` is the on-path marker
/// set used to detect cycles, empty between root visits.
fn release_order_inner(
    packages: &Vec<Package>,
    pkg: usize,
    order: &mut Vec<Package>,
    passed: &mut Vec<Package>,
) -> (r: Result<(), CircularDependency>)
    requires
        pkg < packages@.len(),
        old(passed)@.len() == 0,
        well_ordered(packages.deep_view(), old(order).deep_view()),
        distinct_names(old(order).deep_view()),
        all_from(packages.deep_view(), old(order).deep_view()),
    ensures
        r matches Ok(_) ==> {
            &&& well_ordered(packages.deep_view(), final(order).deep_view())
            &&& distinct_names(final(order).deep_view())
            &&& all_from(packages.deep_view(), final(order).deep_view())
            &&& old(order).deep_view().is_prefix_of(final(order).deep_view())
            &&& contains_name(final(order).deep_view(), packages.deep_view()[pkg as int].name)
            &&& final(passed)@.len() == 0
            &&& model_root(packages.deep_view(), pkg as int, old(order).deep_view()) == Ok::<
                Seq<PackageView>,
                (Seq<char>, Seq<char>),
            >(final(order).deep_view())
        },
        r matches Err(e) ==> reports_cycle(packages.deep_view(), e) && has_cycle(
            packages.deep_view(),
        ) && model_root(packages.deep_view(), pkg as int, old(order).deep_view()) == Err::<
            Seq<PackageView>,
            (Seq<char>, Seq<char>),
        >((e.dependency@, e.dependent@)),
{
    let ghost pkgs = packages.deep_view();
    proof {
        assert(pkgs.len() == packages@.len());
        broadcast use vstd::std_specs::vec::axiom_spec_len;

        assert(vstd::std_specs::vec::spec_vec_len(packages) == packages@.len());
        assert forall|i: int| 0 <= i < pkgs.len() implies (#[trigger] pkgs[i]).dependencies.len()
            <= usize::MAX by {
            assert(pkgs[i] == packages@[i]@);
            assert(vstd::std_specs::vec::spec_vec_len(&packages@[i].dependencies)
                == packages@[i].dependencies@.len());
        }
        assert forall|q: int| 0 <= q < old(order).deep_view().len() implies contains_name(
            pkgs,
            (#[trigger] old(order).deep_view()[q]).name,
        ) by {
            let w: int = choose|w: int|
                0 <= w < pkgs.len() && pkgs[w] == old(order).deep_view()[q];
        }
    }
    if is_package_in(&packages[pkg], order) {
        proof {
            assert(packages.deep_view()[pkg as int] == packages@[pkg as int]@);
            assert(contains_name(old(order).deep_view(), pkgs[pkg as int].name));
            assert(model_root(pkgs, pkg as int, old(order).deep_view()) == Ok::<
                Seq<PackageView>,
                (Seq<char>, Seq<char>),
            >(old(order).deep_view()));
        }
        return Ok(());
    }
    passed.push(packages[pkg].duplicate());
    let mut stack: Vec<Frame> = Vec::new();
    stack.push(Frame { idx: pkg, dep: 0 });
    proof {
        assert(stack@ =~= seq![Frame { idx: pkg, dep: 0 }]);
        assert(passed.deep_view() =~= old(passed).deep_view().push(packages@[pkg as int]@));
        assert(passed.deep_view().len() == 1);
        assert(passed.deep_view()[0].name == pkgs[pkg as int].name);
        assert(old(order).deep_view().is_prefix_of(order.deep_view()));
        lemma_distinct_names_bound(pkgs, order.deep_view());
        // the starting state is the model's root state
        assert(((pkg as int) as usize) as int == pkg as int);
        assert(stack@ =~= seq![Frame { idx: (pkg as int) as usize, dep: 0 }]);
        assert(passed.deep_view() =~= seq![pkgs[pkg as int]]);
        assert(model_root(pkgs, pkg as int, old(order).deep_view()) == model_visit(
            pkgs,
            stack@,
            order.deep_view(),
            passed.deep_view(),
        ));
    }
    while stack.len() != 0
        invariant
            pkgs == packages.deep_view(),
            pkg < pkgs.len(),
            pkgs.len() == packages@.len(),
            pkgs.len() <= usize::MAX,
            forall|i: int|
                0 <= i < pkgs.len() ==> (#[trigger] pkgs[i]).dependencies.len() <= usize::MAX,
            forall|q: int|
                0 <= q < passed.deep_view().len() ==> contains_name(
                    pkgs,
                    (#[trigger] passed.deep_view()[q]).name,
                ),
            forall|q: int|
                0 <= q < order.deep_view().len() ==> contains_name(
                    pkgs,
                    (#[trigger] order.deep_view()[q]).name,
                ),
            model_visit(pkgs, stack@, order.deep_view(), passed.deep_view()) == model_root(
                pkgs,
                pkg as int,
                old(order).deep_view(),
            ),
            frames_wf(pkgs, stack@),
            frames_handled(pkgs, stack@, order.deep_view()),
            passed_matches(pkgs, stack@, passed.deep_view()),
            distinct_names(passed.deep_view()),
            forall|q: int|
                0 <= q < passed.deep_view().len() ==> !contains_name(
                    order.deep_view(),
                    (#[trigger] passed.deep_view()[q]).name,
                ),
            well_ordered(pkgs, order.deep_view()),
            distinct_names(order.deep_view()),
            all_from(pkgs, order.deep_view()),
            old(order).deep_view().is_prefix_of(order.deep_view()),
            order.deep_view().len() <= pkgs.len(),
            passed.deep_view().len() <= pkgs.len(),
            stack@.len() > 0 ==> stack@[0].idx == pkg,
            stack@.len() == 0 ==> contains_name(order.deep_view(), pkgs[pkg as int].name),
        decreases
            pkgs.len() - order.deep_view().len(),
            pkgs.len() - passed.deep_view().len(),
            stack_work(pkgs, stack@),
            stack@.len(),
    {
        let ghost pre_stack = stack@;
        let ghost pre_order = order.deep_view();
        let ghost pre_passed = passed.deep_view();
        let ghost m: int = pre_stack.len() as int;
        proof {
            lemma_stack_work_nonneg(pkgs, pre_stack);
        }
        let top: usize = stack.len() - 1;
        let f = stack[top];
        proof {
            assert(pre_stack[m - 1].idx < pkgs.len());
        }
        if f.dep < packages[f.idx].dependencies.len() {
            let dep_name = &packages[f.idx].dependencies[f.dep];
            let ghost dn = pkgs[f.idx as int].dependencies[f.dep as int];
            proof {
                assert(packages.deep_view()[f.idx as int] == packages@[f.idx as int]@);
                assert(dn == packages@[f.idx as int].dependencies@[f.dep as int]@);
                assert(dep_name@ == dn);
                assert(packages@[f.idx as int]@.name == pkgs[f.idx as int].name);
            }
            match find_package(packages, dep_name, &packages[f.idx].name) {
                Some(j) => {
                    proof {
                        assert(pkgs[j as int].name == dn);
                    }
                    if is_package_in(&packages[j], passed) {
                        let e = CircularDependency {
                            dependency: packages[j].name.clone(),
                            dependent: packages[f.idx].name.clone(),
                        };
                        proof {
                            assert(e.dependency@ == pkgs[j as int].name);
                            assert(e.dependent@ == pkgs[f.idx as int].name);
                            // the marker hit mirrors a frame still on the
                            // stack; the frames from it up to the top chain
                            // the dependency back to the dependent
                            let pl: int = pre_passed.len() as int;
                            let k: int = m - pl;
                            let q: int = choose|q: int|
                                0 <= q < pl && pre_passed[q].name == pkgs[j as int].name;
                            assert(pre_passed[q].name == pkgs[pre_stack[k + q].idx as int].name);
                            let names = stack_names(pkgs, pre_stack);
                            let ns = names.subrange(k + q, m);
                            assert forall|t: int|
                                0 <= t < ns.len() - 1 implies edge(
                                pkgs,
                                #[trigger] ns[t],
                                ns[t + 1],
                            ) by {
                                let u: int = k + q + t;
                                assert(frame_link(pkgs, pre_stack, u));
                                let fa = pre_stack[u];
                                let fb = pre_stack[u + 1];
                                assert(ns[t] == pkgs[fa.idx as int].name);
                                assert(ns[t + 1] == pkgs[fb.idx as int].name);
                                let b = pkgs[fb.idx as int].name;
                                assert(pkgs[fa.idx as int].dependencies[fa.dep - 1] == b);
                                assert(pkgs[fa.idx as int].dependencies.contains(b));
                                assert(contains_name(pkgs, b));
                            }
                            assert(ns.len() >= 1);
                            assert(ns.first() == pkgs[pre_stack[k + q].idx as int].name);
                            assert(ns.last() == pkgs[pre_stack[m - 1].idx as int].name);
                            assert(ns.first() == e.dependency@);
                            assert(ns.last() == e.dependent@);
                            assert(reaches(pkgs, e.dependency@, e.dependent@));
                            assert(pkgs[f.idx as int].dependencies.contains(dn));
                            assert(contains_name(pkgs, dn)) by {
                                assert(pkgs[j as int].name == dn);
                            }
                            assert(edge(pkgs, e.dependent@, e.dependency@));
                            lemma_back_edge_closes_cycle(pkgs, e.dependent@, e.dependency@);
                            // the model takes the same failing step
                            assert(visit_inv(pkgs, pre_stack, pre_order, pre_passed));
                            assert(pre_stack.last() == f);
                            assert(pkgs[f.idx as int].dependencies.len() == packages@[f.idx
                                as int].dependencies@.len());
                            assert(first_match_from(pkgs, dn, pkgs[f.idx as int].name, 0) == Some(
                                j as int,
                            ));
                            assert(pkgs[j as int] == packages@[j as int]@);
                            assert(contains_name(pre_passed, pkgs[j as int].name));
                            assert(model_visit(pkgs, pre_stack, pre_order, pre_passed)
                                == Err::<Seq<PackageView>, (Seq<char>, Seq<char>)>(
                                (pkgs[j as int].name, pkgs[f.idx as int].name),
                            ));
                        }
                        return Err(e);
                    }
                    // advance the frame past this dependency
                    let _replaced = stack.pop();
                    let adv = Frame { idx: f.idx, dep: f.dep + 1 };
                    stack.push(adv);
                    proof {
                        assert(stack@ =~= pre_stack.update(m - 1, adv));
                    }
                    if !is_package_in(&packages[j], order) {
                        passed.push(packages[j].duplicate());
                        stack.push(Frame { idx: j, dep: 0 });
                        proof {
                            let child = Frame { idx: j, dep: 0 };
                            let mid = pre_stack.update(m - 1, adv);
                            assert(stack@ =~= mid.push(child));
                            let cur = stack@;
                            assert(passed.deep_view() =~= pre_passed.push(packages@[j as int]@));
                            let cpa = passed.deep_view();
                            assert(cpa[pre_passed.len() as int].name == pkgs[j as int].name);
                            // frames stay well formed and linked
                            assert forall|t: int| 0 <= t < cur.len() - 1 implies #[trigger] frame_link(
                                pkgs,
                                cur,
                                t,
                            ) by {
                                if t < m - 1 {
                                    assert(frame_link(pkgs, pre_stack, t));
                                    assert(cur[t] == pre_stack[t]);
                                    assert(cur[t + 1].idx == pre_stack[t + 1].idx);
                                } else {
                                    assert(cur[t] == adv);
                                    assert(cur[t + 1] == child);
                                    assert(pkgs[j as int].name == dn);
                                }
                            }
                            // examined dependencies stay resolved
                            assert forall|t: int| 0 <= t < cur.len() implies #[trigger] frame_handled(
                                pkgs,
                                cur,
                                t,
                                order.deep_view(),
                            ) by {
                                if t < m - 1 {
                                    assert(frame_handled(pkgs, pre_stack, t, pre_order));
                                    assert(cur[t] == pre_stack[t]);
                                } else if t == m - 1 {
                                    assert(frame_handled(pkgs, pre_stack, t, pre_order));
                                    assert(pre_stack[t] == f);
                                    assert forall|s: int| 0 <= s < adv.dep - 1 implies #[trigger] dep_handled(
                                        pkgs,
                                        adv.idx as int,
                                        s,
                                        order.deep_view(),
                                    ) by {
                                        assert(dep_handled(pkgs, f.idx as int, s, pre_order));
                                    }
                                } else {
                                    assert(cur[t] == child);
                                }
                            }
                            // the marker set mirrors the topmost frames
                            assert forall|q: int| 0 <= q < cpa.len() implies (#[trigger] cpa[q]).name
                                == pkgs[cur[cur.len() - cpa.len() + q].idx as int].name by {
                                if q < pre_passed.len() {
                                    assert(cpa[q] == pre_passed[q]);
                                    assert(cur[cur.len() - cpa.len() + q].idx
                                        == pre_stack[m - pre_passed.len() + q].idx);
                                } else {
                                    assert(cur[cur.len() - cpa.len() + q] == child);
                                }
                            }
                            // the new marker is fresh, so markers stay distinct
                            // and disjoint from the resolved order
                            assert(!contains_name(pre_passed, pkgs[j as int].name));
                            assert forall|q: int, w: int|
                                0 <= q < cpa.len() && 0 <= w < cpa.len() && q != w implies (
                            #[trigger] cpa[q]).name != (#[trigger] cpa[w]).name by {
                                if q < pre_passed.len() && w < pre_passed.len() {
                                    assert(cpa[q] == pre_passed[q]);
                                    assert(cpa[w] == pre_passed[w]);
                                } else if q < pre_passed.len() {
                                    assert(contains_name(pre_passed, pre_passed[q].name));
                                } else if w < pre_passed.len() {
                                    assert(contains_name(pre_passed, pre_passed[w].name));
                                }
                            }
                            // the marker set grew, strictly under the package count
                            assert forall|q: int| 0 <= q < pre_passed.len() implies contains_name(
                                pkgs,
                                (#[trigger] pre_passed[q]).name,
                            ) by {
                                let u: int = m - pre_passed.len() + q;
                                assert(pre_passed[q].name == pkgs[pre_stack[u].idx as int].name);
                            }
                            assert(contains_name(pkgs, pkgs[j as int].name));
                            lemma_distinct_names_bound_strict(
                                pkgs,
                                pre_passed,
                                pkgs[j as int].name,
                            );
                            assert(pkgs.len() - passed.deep_view().len() < pkgs.len()
                                - pre_passed.len());
                            lemma_stack_work_nonneg(pkgs, cur);
                            // the model takes the same descending step
                            assert(visit_inv(pkgs, pre_stack, pre_order, pre_passed));
                            assert(pre_stack.last() == f);
                            assert(pkgs[f.idx as int].dependencies.len() == packages@[f.idx
                                as int].dependencies@.len());
                            assert(first_match_from(pkgs, dn, pkgs[f.idx as int].name, 0) == Some(
                                j as int,
                            ));
                            assert(pkgs[j as int] == packages@[j as int]@);
                            assert(!contains_name(pre_passed, pkgs[j as int].name));
                            assert(!contains_name(pre_order, pkgs[j as int].name));
                            assert(adv == Frame { idx: f.idx, dep: (f.dep + 1) as usize });
                            assert(((j as int) as usize) == j);
                            assert(child == Frame { idx: (j as int) as usize, dep: 0 });
                            assert(mid =~= pre_stack.drop_last().push(adv));
                            assert(cur == pre_stack.drop_last().push(adv).push(child));
                            assert(cpa == pre_passed.push(pkgs[j as int]));
                            assert(model_visit(pkgs, pre_stack, pre_order, pre_passed)
                                == model_visit(pkgs, cur, order.deep_view(), cpa));
                        }
                    } else {
                        proof {
                            let cur = stack@;
                            assert(contains_name(order.deep_view(), dn));
                            assert forall|t: int| 0 <= t < cur.len() - 1 implies #[trigger] frame_link(
                                pkgs,
                                cur,
                                t,
                            ) by {
                                assert(frame_link(pkgs, pre_stack, t));
                                assert(cur[t] == pre_stack[t]);
                                assert(cur[t + 1].idx == pre_stack[t + 1].idx);
                            }
                            assert forall|t: int| 0 <= t < cur.len() implies #[trigger] frame_handled(
                                pkgs,
                                cur,
                                t,
                                order.deep_view(),
                            ) by {
                                assert(frame_handled(pkgs, pre_stack, t, pre_order));
                                if t < m - 1 {
                                    assert(cur[t] == pre_stack[t]);
                                } else {
                                    assert(pre_stack[t] == f);
                                    assert(cur[t] == adv);
                                    assert forall|s: int| 0 <= s < adv.dep implies #[trigger] dep_handled(
                                        pkgs,
                                        adv.idx as int,
                                        s,
                                        order.deep_view(),
                                    ) by {
                                        if s < f.dep {
                                            assert(dep_handled(pkgs, f.idx as int, s, pre_order));
                                        } else {
                                            assert(s == f.dep);
                                            assert(pkgs[f.idx as int].dependencies[s] == dn);
                                        }
                                    }
                                }
                            }
                            assert forall|q: int| 0 <= q < pre_passed.len() implies (
                            #[trigger] pre_passed[q]).name == pkgs[cur[cur.len() - pre_passed.len()
                                + q].idx as int].name by {
                                let u: int = m - pre_passed.len() + q;
                                assert(pre_passed[q].name == pkgs[pre_stack[u].idx as int].name);
                                assert(cur[u].idx == pre_stack[u].idx);
                            }
                            // the work left shrinks by one dependency
                            assert(pre_stack.drop_last() =~= cur.drop_last());
                            lemma_stack_work_push(pkgs, cur.drop_last(), adv);
                            assert(cur =~= cur.drop_last().push(adv));
                            assert(pre_stack =~= pre_stack.drop_last().push(f));
                            lemma_stack_work_push(pkgs, pre_stack.drop_last(), f);
                            assert(stack_work(pkgs, cur) == stack_work(pkgs, pre_stack) - 1);
                            lemma_stack_work_nonneg(pkgs, cur);
                            // the model takes the same skipping step
                            assert(visit_inv(pkgs, pre_stack, pre_order, pre_passed));
                            assert(pre_stack.last() == f);
                            assert(pkgs[f.idx as int].dependencies.len() == packages@[f.idx
                                as int].dependencies@.len());
                            assert(first_match_from(pkgs, dn, pkgs[f.idx as int].name, 0) == Some(
                                j as int,
                            ));
                            assert(pkgs[j as int] == packages@[j as int]@);
                            assert(!contains_name(pre_passed, pkgs[j as int].name));
                            assert(contains_name(pre_order, pkgs[j as int].name));
                            assert(adv == Frame { idx: f.idx, dep: (f.dep + 1) as usize });
                            assert(cur == pre_stack.drop_last().push(adv));
                            assert(model_visit(pkgs, pre_stack, pre_order, pre_passed)
                                == model_visit(pkgs, cur, order.deep_view(), passed.deep_view()));
                        }
                    }
                }
                None => {
                    let _replaced = stack.pop();
                    let adv = Frame { idx: f.idx, dep: f.dep + 1 };
                    stack.push(adv);
                    proof {
                        assert(stack@ =~= pre_stack.update(m - 1, adv));
                        let cur = stack@;
                        // the dependency name is a self-reference or out of
                        // scope, so it imposes nothing
                        assert(dep_handled(pkgs, f.idx as int, f.dep as int, order.deep_view()));
                        assert forall|t: int| 0 <= t < cur.len() - 1 implies #[trigger] frame_link(
                            pkgs,
                            cur,
                            t,
                        ) by {
                            assert(frame_link(pkgs, pre_stack, t));
                            assert(cur[t] == pre_stack[t]);
                            assert(cur[t + 1].idx == pre_stack[t + 1].idx);
                        }
                        assert forall|t: int| 0 <= t < cur.len() implies #[trigger] frame_handled(
                            pkgs,
                            cur,
                            t,
                            order.deep_view(),
                        ) by {
                            assert(frame_handled(pkgs, pre_stack, t, pre_order));
                            if t < m - 1 {
                                assert(cur[t] == pre_stack[t]);
                            } else {
                                assert(pre_stack[t] == f);
                                assert(cur[t] == adv);
                                assert forall|s: int| 0 <= s < adv.dep implies #[trigger] dep_handled(
                                    pkgs,
                                    adv.idx as int,
                                    s,
                                    order.deep_view(),
                                ) by {
                                    if s < f.dep {
                                        assert(dep_handled(pkgs, f.idx as int, s, pre_order));
                                    } else {
                                        assert(s == f.dep);
                                    }
                                }
                            }
                        }
                        assert forall|q: int| 0 <= q < pre_passed.len() implies (
                        #[trigger] pre_passed[q]).name == pkgs[cur[cur.len() - pre_passed.len()
                            + q].idx as int].name by {
                            let u: int = m - pre_passed.len() + q;
                            assert(pre_passed[q].name == pkgs[pre_stack[u].idx as int].name);
                            assert(cur[u].idx == pre_stack[u].idx);
                        }
                        assert(pre_stack.drop_last() =~= cur.drop_last());
                        lemma_stack_work_push(pkgs, cur.drop_last(), adv);
                        assert(cur =~= cur.drop_last().push(adv));
                        assert(pre_stack =~= pre_stack.drop_last().push(f));
                        lemma_stack_work_push(pkgs, pre_stack.drop_last(), f);
                        assert(stack_work(pkgs, cur) == stack_work(pkgs, pre_stack) - 1);
                        lemma_stack_work_nonneg(pkgs, cur);
                        // the model takes the same skipping step
                        assert(visit_inv(pkgs, pre_stack, pre_order, pre_passed));
                        assert(pre_stack.last() == f);
                        assert(pkgs[f.idx as int].dependencies.len() == packages@[f.idx
                            as int].dependencies@.len());
                        assert(first_match_from(pkgs, dn, pkgs[f.idx as int].name, 0) is None);
                        assert(adv == Frame { idx: f.idx, dep: (f.dep + 1) as usize });
                        assert(cur == pre_stack.drop_last().push(adv));
                        assert(model_visit(pkgs, pre_stack, pre_order, pre_passed) == model_visit(
                            pkgs,
                            cur,
                            order.deep_view(),
                            passed.deep_view(),
                        ));
                    }
                }
            }
        } else {
            // every dependency of the visited package is resolved: emit it,
            // in post order, then clear the whole on-path marker set, as one
            // finished visit closes the active branch. The emission is
            // guarded so that the order provably never takes a name twice;
            // the markers in fact rule the guarded case out whenever any
            // marker is set, as the proof below shows
            if !is_package_in(&packages[f.idx], order) {
                order.push(packages[f.idx].duplicate());
                proof {
                    let odv = order.deep_view();
                    assert(odv =~= pre_order.push(pkgs[f.idx as int]));
                    let m0: int = pre_order.len() as int;
                    assert forall|i: int, t: int|
                        0 <= i < odv.len() && 0 <= t < odv[i].dependencies.len() implies #[trigger] dep_before(
                        pkgs,
                        odv,
                        i,
                        t,
                    ) by {
                        if i < m0 {
                            assert(dep_before(pkgs, pre_order, i, t));
                            assert(odv[i] == pre_order[i]);
                            let dnt = pre_order[i].dependencies[t];
                            if dnt != pre_order[i].name && contains_name(pkgs, dnt) {
                                let w: int = choose|w: int|
                                    0 <= w < i && pre_order[w].name == dnt;
                                assert(odv[w] == pre_order[w]);
                                assert(name_before(odv, i, dnt));
                            }
                        } else {
                            assert(odv[i] == pkgs[f.idx as int]);
                            assert(frame_handled(pkgs, pre_stack, m - 1, pre_order));
                            assert(pre_stack[m - 1] == f);
                            assert(f.dep == pkgs[f.idx as int].dependencies.len());
                            let dnt = pkgs[f.idx as int].dependencies[t];
                            assert(dep_handled(pkgs, f.idx as int, t, pre_order));
                            if dnt != pkgs[f.idx as int].name && contains_name(pkgs, dnt) {
                                let w: int = choose|w: int|
                                    0 <= w < pre_order.len() && pre_order[w].name == dnt;
                                assert(odv[w] == pre_order[w]);
                                assert(name_before(odv, i, dnt));
                            }
                        }
                    }
                    assert forall|i: int, j2: int|
                        0 <= i < odv.len() && 0 <= j2 < odv.len() && i != j2 implies (
                    #[trigger] odv[i]).name != (#[trigger] odv[j2]).name by {
                        if i < m0 && j2 < m0 {
                            assert(odv[i] == pre_order[i]);
                            assert(odv[j2] == pre_order[j2]);
                        } else if i < m0 {
                            assert(odv[i] == pre_order[i]);
                            assert(contains_name(pre_order, pre_order[i].name));
                        } else if j2 < m0 {
                            assert(odv[j2] == pre_order[j2]);
                            assert(contains_name(pre_order, pre_order[j2].name));
                        }
                    }
                    assert forall|j2: int| 0 <= j2 < odv.len() implies pkgs.contains(
                        #[trigger] odv[j2],
                    ) by {
                        if j2 < m0 {
                            assert(odv[j2] == pre_order[j2]);
                        } else {
                            assert(odv[j2] == pkgs[f.idx as int]);
                        }
                    }
                    // the emitted package was unresolved, so the order grows
                    // strictly under the package count
                    assert forall|q: int| 0 <= q < pre_order.len() implies contains_name(
                        pkgs,
                        (#[trigger] pre_order[q]).name,
                    ) by {
                        let w: int = choose|w: int| 0 <= w < pkgs.len() && pkgs[w] == pre_order[q];
                    }
                    assert(contains_name(pkgs, pkgs[f.idx as int].name));
                    lemma_distinct_names_bound_strict(pkgs, pre_order, pkgs[f.idx as int].name);
                    // the enclosing prefix stays a prefix
                    assert(old(order).deep_view().is_prefix_of(odv)) by {
                        assert(old(order).deep_view() =~= odv.subrange(
                            0,
                            old(order).deep_view().len() as int,
                        ));
                    }
                }
            } else {
                proof {
                    // the visited package is already resolved: the markers
                    // must have been cleared since its visit began, for a
                    // marked name is never a resolved one
                    if pre_passed.len() > 0 {
                        let q: int = pre_passed.len() - 1;
                        assert(pre_passed[q as int].name == pkgs[pre_stack[m - 1].idx as int].name);
                        assert(!contains_name(order.deep_view(), pre_passed[q as int].name));
                        assert(false);
                    }
                }
            }
            passed.clear();
            let _replaced = stack.pop();
            proof {
                let cur = stack@;
                let odv = order.deep_view();
                assert(cur =~= pre_stack.drop_last());
                assert(contains_name(odv, pkgs[f.idx as int].name)) by {
                    if !contains_name(pre_order, pkgs[f.idx as int].name) {
                        assert(odv[pre_order.len() as int] == pkgs[f.idx as int]);
                    } else {
                        let w: int = choose|w: int|
                            0 <= w < pre_order.len() && pre_order[w].name == pkgs[f.idx as int].name;
                        assert(odv[w] == pre_order[w]);
                    }
                }
                assert forall|t: int| 0 <= t < cur.len() - 1 implies #[trigger] frame_link(
                    pkgs,
                    cur,
                    t,
                ) by {
                    assert(frame_link(pkgs, pre_stack, t));
                    assert(cur[t] == pre_stack[t]);
                    assert(cur[t + 1] == pre_stack[t + 1]);
                }
                // extending the order keeps every resolved dependency resolved,
                // and the parent's pending dependency is the emitted package
                assert forall|t: int| 0 <= t < cur.len() implies #[trigger] frame_handled(
                    pkgs,
                    cur,
                    t,
                    odv,
                ) by {
                    assert(frame_handled(pkgs, pre_stack, t, pre_order));
                    assert(cur[t] == pre_stack[t]);
                    let g = cur[t];
                    let bound: int = if t < cur.len() - 1 {
                        g.dep - 1
                    } else {
                        g.dep as int
                    };
                    assert forall|s: int| 0 <= s < bound implies #[trigger] dep_handled(
                        pkgs,
                        g.idx as int,
                        s,
                        odv,
                    ) by {
                        if t < cur.len() - 1 || s < g.dep - 1 {
                            assert(dep_handled(pkgs, g.idx as int, s, pre_order));
                            let dns = pkgs[g.idx as int].dependencies[s];
                            if dns != pkgs[g.idx as int].name && contains_name(pkgs, dns) {
                                let w: int = choose|w: int|
                                    0 <= w < pre_order.len() && pre_order[w].name == dns;
                                assert(odv[w] == pre_order[w]);
                            }
                        } else {
                            // the dependency the child frame was entered for
                            assert(t == cur.len() - 1 && s == g.dep - 1);
                            assert(frame_link(pkgs, pre_stack, t));
                            assert(pkgs[pre_stack[t + 1].idx as int].name == pkgs[g.idx
                                as int].dependencies[s]);
                            assert(pre_stack[t + 1] == f || pre_stack[t + 1].idx == f.idx);
                        }
                    }
                }
                if cur.len() == 0 {
                    assert(pre_stack[0].idx == pkg);
                    assert(f.idx == pkg);
                }
                lemma_distinct_names_bound(pkgs, odv);
                lemma_stack_work_nonneg(pkgs, cur);
                assert(pre_stack =~= cur.push(f));
                lemma_stack_work_push(pkgs, cur, f);
                assert(remaining(pkgs, f) == 0);
                assert(stack_work(pkgs, cur) == stack_work(pkgs, pre_stack));
                if contains_name(pre_order, pkgs[f.idx as int].name) {
                    assert(order.deep_view() == pre_order);
                    assert(pre_passed.len() == 0);
                }
                // the model takes the same emitting step
                assert(visit_inv(pkgs, pre_stack, pre_order, pre_passed));
                assert(pre_stack.last() == f);
                assert(pkgs[f.idx as int].dependencies.len() == packages@[f.idx
                    as int].dependencies@.len());
                assert(!(f.dep < pkgs[f.idx as int].dependencies.len()));
                assert(passed.deep_view() =~= Seq::<PackageView>::empty());
                assert(cur == pre_stack.drop_last());
                if !contains_name(pre_order, pkgs[f.idx as int].name) {
                    assert(order.deep_view() == pre_order.push(pkgs[f.idx as int]));
                } else {
                    assert(order.deep_view() == pre_order);
                }
                assert(model_visit(pkgs, pre_stack, pre_order, pre_passed) == model_visit(
                    pkgs,
                    cur,
                    order.deep_view(),
                    passed.deep_view(),
                ));
            }
        }
    }
    proof {
        assert(passed.deep_view().len() == 0);
        assert(passed@.len() == passed.deep_view().len());
        assert(visit_inv(pkgs, stack@, order.deep_view(), passed.deep_view()));
        assert(model_visit(pkgs, stack@, order.deep_view(), passed.deep_view()) == Ok::<
            Seq<PackageView>,
            (Seq<char>, Seq<char>),
        >(order.deep_view()));
    }
    Ok(())
}

/// Returns the packages in an order in which they can be released: every
/// package is placed after all of its in-scope dependencies, each in-scope
/// name appears exactly once, and a detected circular dependency is reported
/// as an error naming both ends of the back edge.
///
/// The whole outcome equals [`model_resolve`] of the input, a function of
/// the package set alone, so resolution is deterministic: identical inputs
/// give identical orderings and identical reported cycles. The order kept is
/// the one of the depth-first traversal itself: roots in input order,
/// dependencies in declared order.
pub fn release_order(packages: &Vec<Package>) -> (r: Result<Vec<Package>, CircularDependency>)
    ensures
        r matches Ok(order) ==> {
            &&& well_ordered(packages.deep_view(), order.deep_view())
            &&& distinct_names(order.deep_view())
            &&& all_from(packages.deep_view(), order.deep_view())
            &&& complete(packages.deep_view(), order.deep_view())
            &&& order.deep_view().len() <= packages.deep_view().len()
            &&& model_resolve(packages.deep_view()) == Ok::<
                Seq<PackageView>,
                (Seq<char>, Seq<char>),
            >(order.deep_view())
        },
        r matches Err(e) ==> reports_cycle(packages.deep_view(), e) && has_cycle(
            packages.deep_view(),
        ) && model_resolve(packages.deep_view()) == Err::<
            Seq<PackageView>,
            (Seq<char>, Seq<char>),
        >((e.dependency@, e.dependent@)),
{
    let ghost pkgs = packages.deep_view();
    let mut order: Vec<Package> = Vec::new();
    let mut passed: Vec<Package> = Vec::new();
    let mut k: usize = 0;
    proof {
        assert(order.deep_view() =~= Seq::<PackageView>::empty());
        assert(model_resolve(pkgs) == model_resolve_from(pkgs, 0, order.deep_view()));
    }
    while k < packages.len()
        invariant
            pkgs == packages.deep_view(),
            pkgs.len() == packages@.len(),
            k <= pkgs.len(),
            passed@.len() == 0,
            well_ordered(pkgs, order.deep_view()),
            distinct_names(order.deep_view()),
            all_from(pkgs, order.deep_view()),
            forall|q: int| 0 <= q < k ==> contains_name(
                order.deep_view(),
                (#[trigger] pkgs[q]).name,
            ),
            model_resolve_from(pkgs, k as int, order.deep_view()) == model_resolve(pkgs),
        decreases pkgs.len() - k,
    {
        let ghost pre_order = order.deep_view();
        match release_order_inner(packages, k, &mut order, &mut passed) {
            Ok(_) => {
                proof {
                    // the root visit is the model's next step
                    assert(model_root(pkgs, k as int, pre_order) == Ok::<
                        Seq<PackageView>,
                        (Seq<char>, Seq<char>),
                    >(order.deep_view()));
                    assert(model_resolve_from(pkgs, k as int, pre_order) == model_resolve_from(
                        pkgs,
                        k as int + 1,
                        order.deep_view(),
                    ));
                }
            }
            Err(e) => {
                proof {
                    assert(model_root(pkgs, k as int, pre_order) == Err::<
                        Seq<PackageView>,
                        (Seq<char>, Seq<char>),
                    >((e.dependency@, e.dependent@)));
                    assert(model_resolve_from(pkgs, k as int, pre_order) == Err::<
                        Seq<PackageView>,
                        (Seq<char>, Seq<char>),
                    >((e.dependency@, e.dependent@)));
                }
                return Err(e);
            }
        }
        proof {
            assert forall|q: int| 0 <= q < k + 1 implies contains_name(
                order.deep_view(),
                (#[trigger] pkgs[q]).name,
            ) by {
                if q < k {
                    let w: int = choose|w: int|
                        0 <= w < pre_order.len() && pre_order[w].name == pkgs[q].name;
                    assert(pre_order =~= order.deep_view().subrange(0, pre_order.len() as int));
                    assert(order.deep_view()[w] == pre_order[w]);
                } else {
                    assert(contains_name(order.deep_view(), pkgs[k as int].name));
                }
            }
        }
        k = k + 1;
    }
    proof {
        assert forall|q: int| 0 <= q < order.deep_view().len() implies contains_name(
            pkgs,
            (#[trigger] order.deep_view()[q]).name,
        ) by {
            let w: int = choose|w: int| 0 <= w < pkgs.len() && pkgs[w] == order.deep_view()[q];
        }
        lemma_distinct_names_bound(pkgs, order.deep_view());
        assert(model_resolve_from(pkgs, k as int, order.deep_view()) == Ok::<
            Seq<PackageView>,
            (Seq<char>, Seq<char>),
        >(order.deep_view()));
    }
    Ok(order)
}

} // verus!
