//! The dependency resolver: one-hop filtering of a target's raw dependency
//! strings against the target index, and the transitive closure by
//! synchronous frontier expansion with a visited set.

use vstd::prelude::*;
use vstd::seq_lib::seq_to_set_is_finite;
use vstd::set_lib::{lemma_len_subset, lemma_len_union};

use rayon::iter::{IntoParallelRefIterator, ParallelIterator};

use crate::index::{TargetIndex, lemma_lookup_target_found, lookup_target};
use crate::model::{Target, TargetView, target_views};
use crate::text::{basename, basename_of, contains_seq, ends_with, str_contains, str_eq,
    str_ends_with};

verus! {

/// The filter on a dependency's basename: shared objects are kept, and so is
/// anything that is not a static archive; only a literal static-archive
/// basename is dropped.
pub open spec fn admits_basename(b: Seq<char>) -> bool {
    contains_seq(b, ".so"@) || !ends_with(b, ".a"@)
}

/// What `one_hop` returns: for each raw dependency, its basename, kept when
/// the filter admits it and the index resolves it, in dependency order.
pub open spec fn one_hop_views(deps: Seq<Seq<char>>, idx: Seq<TargetView>) -> Seq<TargetView>
    decreases deps.len(),
{
    if deps.len() == 0 {
        Seq::empty()
    } else {
        let rest = one_hop_views(deps.drop_last(), idx);
        let b = basename_of(deps.last());
        if admits_basename(b) {
            match lookup_target(idx, b) {
                Some(t) => rest.push(t),
                None => rest,
            }
        } else {
            rest
        }
    }
}

/// For each raw dependency string on `target`, keep its final path component
/// only if it looks like a shared object or is not a static archive, then
/// only if the index knows it, and resolve it to the index's target.
pub fn one_hop(target: &Target, idx: &TargetIndex) -> (r: Vec<Target>)
    ensures
        target_views(r@) == one_hop_views(target@.dependencies, idx@),
{
    let mut r: Vec<Target> = Vec::new();
    let mut i: usize = 0;
    while i < target.dependencies.len()
        invariant
            i <= target.dependencies@.len(),
            target_views(r@) == one_hop_views(
                target@.dependencies.subrange(0, i as int),
                idx@,
            ),
        decreases target.dependencies@.len() - i,
    {
        let ghost deps = target@.dependencies;
        let ghost before = target_views(r@);
        let dep: &String = &target.dependencies[i];
        let b = basename(dep.as_str());
        let keep = str_contains(b, ".so") || !str_ends_with(b, ".a");
        if keep {
            match idx.get(b) {
                Some(t) => {
                    let c = t.clone();
                    r.push(c);
                    proof {
                        assert(target_views(r@) =~= before.push(t@));
                    }
                },
                None => {},
            }
        }
        proof {
            assert(deps.subrange(0, i + 1).drop_last() =~= deps.subrange(0, i as int));
            assert(deps.subrange(0, i + 1).last() == deps[i as int]);
        }
        i += 1;
    }
    proof {
        assert(target@.dependencies.subrange(0, target@.dependencies.len() as int)
            =~= target@.dependencies);
    }
    r
}

/// Every resolved one-hop dependency is an entry of the index under its own
/// name: nothing unresolved leaks through.
pub proof fn lemma_one_hop_resolved(deps: Seq<Seq<char>>, idx: Seq<TargetView>)
    ensures
        forall|k: int| 0 <= k < one_hop_views(deps, idx).len()
            ==> lookup_target(idx, #[trigger] one_hop_views(deps, idx)[k].name)
                == Some(one_hop_views(deps, idx)[k]),
    decreases deps.len(),
{
    if deps.len() > 0 {
        lemma_one_hop_resolved(deps.drop_last(), idx);
        let rest = one_hop_views(deps.drop_last(), idx);
        let b = basename_of(deps.last());
        if admits_basename(b) && lookup_target(idx, b) is Some {
            let t = lookup_target(idx, b)->Some_0;
            lemma_lookup_target_found(idx, b, t);
            assert(one_hop_views(deps, idx) == rest.push(t));
            assert(forall|k: int| 0 <= k < rest.len()
                ==> one_hop_views(deps, idx)[k] == rest[k]);
        }
    }
}

/// Every one-hop output is an entry of the index's target sequence.
pub proof fn lemma_one_hop_subset(deps: Seq<Seq<char>>, idx: Seq<TargetView>)
    ensures
        forall|k: int| 0 <= k < one_hop_views(deps, idx).len()
            ==> exists|m: int| 0 <= m < idx.len()
                && idx[m] == #[trigger] one_hop_views(deps, idx)[k],
{
    lemma_one_hop_resolved(deps, idx);
    assert forall|k: int| 0 <= k < one_hop_views(deps, idx).len()
        implies exists|m: int| 0 <= m < idx.len()
            && idx[m] == #[trigger] one_hop_views(deps, idx)[k] by {
        let t = one_hop_views(deps, idx)[k];
        lemma_lookup_target_found(idx, t.name, t);
    }
}

/// Every one-hop output's name passes the basename filter; in particular a
/// name that ends in `.a` can only appear when it also contains `.so`.
pub proof fn lemma_one_hop_admitted(deps: Seq<Seq<char>>, idx: Seq<TargetView>)
    ensures
        forall|k: int| 0 <= k < one_hop_views(deps, idx).len()
            ==> admits_basename(#[trigger] one_hop_views(deps, idx)[k].name),
    decreases deps.len(),
{
    if deps.len() > 0 {
        lemma_one_hop_admitted(deps.drop_last(), idx);
        let rest = one_hop_views(deps.drop_last(), idx);
        let b = basename_of(deps.last());
        if admits_basename(b) && lookup_target(idx, b) is Some {
            let t = lookup_target(idx, b)->Some_0;
            lemma_lookup_target_found(idx, b, t);
            assert(one_hop_views(deps, idx) == rest.push(t));
            assert(forall|k: int| 0 <= k < rest.len()
                ==> one_hop_views(deps, idx)[k] == rest[k]);
        }
    }
}

/// On an index none of whose names both contains `.so` and ends in `.a`, no
/// one-hop output name ends in `.a`, and a dependency whose basename ends in
/// `.a` never resolves to anything, whatever the index holds.
pub proof fn lemma_one_hop_no_archive(deps: Seq<Seq<char>>, idx: Seq<TargetView>)
    requires
        forall|m: int| 0 <= m < idx.len()
            ==> !(contains_seq(#[trigger] idx[m].name, ".so"@)
                && ends_with(idx[m].name, ".a"@)),
    ensures
        forall|k: int| 0 <= k < one_hop_views(deps, idx).len()
            ==> !ends_with(#[trigger] one_hop_views(deps, idx)[k].name, ".a"@),
{
    lemma_one_hop_admitted(deps, idx);
    lemma_one_hop_subset(deps, idx);
}

/// One dependency edge of the target graph: `b` is a resolved one-hop
/// dependency of `a`.
pub open spec fn hop_step(idx: Seq<TargetView>, a: TargetView, b: TargetView) -> bool {
    one_hop_views(a.dependencies, idx).contains(b)
}

/// A dependency path of length `n` from `a` to `b`.
pub open spec fn path_reaches(
    idx: Seq<TargetView>,
    a: TargetView,
    b: TargetView,
    n: nat,
) -> bool
    decreases n,
{
    if n == 0 {
        a == b
    } else {
        exists|c: TargetView|
            hop_step(idx, a, c) && path_reaches(idx, c, b, (n - 1) as nat)
    }
}

/// `b` lies in the reflexive-transitive closure of `hop_step` from `a`.
pub open spec fn reaches(idx: Seq<TargetView>, a: TargetView, b: TargetView) -> bool {
    exists|n: nat| path_reaches(idx, a, b, n)
}

/// `b` is reachable from some element of `seed`.
pub open spec fn reachable_from(
    seed: Seq<TargetView>,
    idx: Seq<TargetView>,
    b: TargetView,
) -> bool {
    exists|j: int| 0 <= j < seed.len() && reaches(idx, seed[j], b)
}

/// Some entry of `ts` carries `name`.
pub open spec fn contains_name(ts: Seq<TargetView>, name: Seq<char>) -> bool {
    exists|k: int| 0 <= k < ts.len() && ts[k].name == name
}

/// Every entry of `ts` is the index's entry for its own name.
pub open spec fn resolved_targets(ts: Seq<TargetView>, idx: Seq<TargetView>) -> bool {
    forall|j: int| 0 <= j < ts.len()
        ==> lookup_target(idx, (#[trigger] ts[j]).name) == Some(ts[j])
}

/// No two entries of `ts` share a name.
pub open spec fn distinct_names(ts: Seq<TargetView>) -> bool {
    forall|i: int, j: int| 0 <= i < j < ts.len() ==> ts[i].name != ts[j].name
}

/// What `closure` returns: a duplicate-free enumeration, resolved against the
/// index, of exactly the targets reachable from the seed.
pub open spec fn closure_post(
    seed: Seq<TargetView>,
    idx: Seq<TargetView>,
    r: Seq<TargetView>,
) -> bool {
    &&& distinct_names(r)
    &&& resolved_targets(r, idx)
    &&& forall|k: int| 0 <= k < r.len() ==> reachable_from(seed, idx, #[trigger] r[k])
    &&& forall|b: TargetView| #[trigger] reachable_from(seed, idx, b)
        ==> contains_name(r, b.name)
    &&& forall|j: int| 0 <= j < seed.len()
        ==> contains_name(r, (#[trigger] seed[j]).name)
}

/// The names of a sequence of targets, in order.
pub open spec fn names_of(ts: Seq<TargetView>) -> Seq<Seq<char>> {
    ts.map_values(|t: TargetView| t.name)
}

/// A duplicate-free target sequence whose names all occur in `seed` or in
/// `idx` cannot outgrow the two together.
proof fn lemma_closure_len_bound(
    r: Seq<TargetView>,
    seed: Seq<TargetView>,
    idx: Seq<TargetView>,
)
    requires
        distinct_names(r),
        forall|k: int| 0 <= k < r.len()
            ==> contains_name(seed, (#[trigger] r[k]).name)
                || contains_name(idx, r[k].name),
    ensures
        r.len() <= seed.len() + idx.len(),
{
    broadcast use seq_to_set_is_finite;
    broadcast use vstd::set::group_set_axioms;

    let rn = names_of(r);
    let sn = names_of(seed);
    let inn = names_of(idx);
    assert(rn.no_duplicates());
    rn.unique_seq_to_set();
    sn.lemma_cardinality_of_set();
    inn.lemma_cardinality_of_set();
    assert forall|x: Seq<char>| rn.to_set().contains(x)
        implies sn.to_set().union(inn.to_set()).contains(x) by {
        let k = choose|k: int| 0 <= k < rn.len() && rn[k] == x;
        assert(r[k].name == x);
        if contains_name(seed, x) {
            let j = choose|j: int| 0 <= j < seed.len() && seed[j].name == x;
            assert(sn[j] == x);
            assert(sn.contains(x));
        } else {
            let j = choose|j: int| 0 <= j < idx.len() && idx[j].name == x;
            assert(inn[j] == x);
            assert(inn.contains(x));
        }
    }
    assert(rn.to_set().subset_of(sn.to_set().union(inn.to_set())));
    lemma_len_union::<Seq<char>>(sn.to_set(), inn.to_set());
    lemma_len_subset::<Seq<char>>(rn.to_set(), sn.to_set().union(inn.to_set()));
}

/// A step appended to a path is again a path.
proof fn lemma_path_extend(
    idx: Seq<TargetView>,
    a: TargetView,
    b: TargetView,
    c: TargetView,
    n: nat,
)
    requires
        path_reaches(idx, a, b, n),
        hop_step(idx, b, c),
    ensures
        path_reaches(idx, a, c, (n + 1) as nat),
    decreases n,
{
    if n == 0 {
        assert(path_reaches(idx, c, c, 0));
    } else {
        let d = choose|d: TargetView|
            hop_step(idx, a, d) && path_reaches(idx, d, b, (n - 1) as nat);
        lemma_path_extend(idx, d, b, c, (n - 1) as nat);
        assert(hop_step(idx, a, d) && path_reaches(idx, d, c, n));
    }
}

/// Everything the frontier `ts` produces in one synchronous expansion:
/// the concatenation, in frontier order, of each member's one-hop result.
pub open spec fn expand_views(ts: Seq<TargetView>, idx: Seq<TargetView>) -> Seq<TargetView>
    decreases ts.len(),
{
    if ts.len() == 0 {
        Seq::empty()
    } else {
        expand_views(ts.drop_last(), idx) + one_hop_views(ts.last().dependencies, idx)
    }
}

/// An element of the expansion is a one-hop dependency of some frontier
/// member, and conversely every such dependency occurs in the expansion.
proof fn lemma_expand_decompose(ts: Seq<TargetView>, idx: Seq<TargetView>)
    ensures
        forall|k: int| 0 <= k < expand_views(ts, idx).len()
            ==> exists|m: int| 0 <= m < ts.len()
                && hop_step(idx, ts[m], #[trigger] expand_views(ts, idx)[k]),
        forall|m: int, b: TargetView| 0 <= m < ts.len() && #[trigger] hop_step(idx, ts[m], b)
            ==> expand_views(ts, idx).contains(b),
    decreases ts.len(),
{
    if ts.len() > 0 {
        let rest = ts.drop_last();
        lemma_expand_decompose(rest, idx);
        let re = expand_views(rest, idx);
        let hop = one_hop_views(ts.last().dependencies, idx);
        assert(expand_views(ts, idx) == re + hop);
        assert forall|k: int| 0 <= k < expand_views(ts, idx).len()
            implies exists|m: int| 0 <= m < ts.len()
                && hop_step(idx, ts[m], #[trigger] expand_views(ts, idx)[k]) by {
            if k < re.len() {
                let m = choose|m: int| 0 <= m < rest.len() && hop_step(idx, rest[m], re[k]);
                assert(ts[m] == rest[m]);
                assert(hop_step(idx, ts[m], expand_views(ts, idx)[k]));
            } else {
                let b = expand_views(ts, idx)[k];
                assert(b == hop[k - re.len()]);
                assert(hop.contains(b));
                assert(hop_step(idx, ts[ts.len() - 1], b));
            }
        }
        assert forall|m: int, b: TargetView|
            0 <= m < ts.len() && #[trigger] hop_step(idx, ts[m], b)
            implies expand_views(ts, idx).contains(b) by {
            if m < ts.len() - 1 {
                assert(rest[m] == ts[m]);
                assert(expand_views(rest, idx).contains(b));
                let k = choose|k: int| 0 <= k < re.len() && re[k] == b;
                assert(expand_views(ts, idx)[k] == b);
            } else {
                let k = choose|k: int| 0 <= k < hop.len() && hop[k] == b;
                assert(expand_views(ts, idx)[re.len() + k] == b);
            }
        }
    }
}

/// Relies on rayon's `par_iter`, `map`, `flatten` and `collect` over a slice
/// of the vector: collecting a parallel iterator into a `Vec` preserves the
/// order of the source, so the result equals the sequential concatenation of
/// `one_hop` over the slice, which `expand_views` states.
#[verifier::external_body]
fn expand_frontier(v: &Vec<Target>, from: usize, idx: &TargetIndex) -> (r: Vec<Target>)
    requires
        from <= v@.len(),
    ensures
        target_views(r@) == expand_views(
            target_views(v@).subrange(from as int, v@.len() as int),
            idx@,
        ),
{
    v[from..].par_iter().map(|t| one_hop(t, idx)).flatten().collect()
}

/// Whether some entry of `v` carries `name`.
fn contains_target_name(v: &Vec<Target>, name: &str) -> (r: bool)
    ensures
        r == contains_name(target_views(v@), name@),
{
    let mut i: usize = 0;
    while i < v.len()
        invariant
            i <= v@.len(),
            forall|k: int| 0 <= k < i ==> target_views(v@)[k].name != name@,
        decreases v@.len() - i,
    {
        if str_eq(v[i].name.as_str(), name) {
            proof {
                assert(target_views(v@)[i as int].name == name@);
            }
            return true;
        }
        i += 1;
    }
    false
}

/// From a member of `r`, every path leads to a name already in `r`, provided
/// `r` is closed under one-hop expansion of its members.
proof fn lemma_closure_complete(
    idx: Seq<TargetView>,
    r: Seq<TargetView>,
    a: TargetView,
    b: TargetView,
    n: nat,
)
    requires
        path_reaches(idx, a, b, n),
        exists|k: int| 0 <= k < r.len() && r[k] == a,
        resolved_targets(r, idx),
        forall|m: int, c: TargetView|
            0 <= m < r.len() && #[trigger] hop_step(idx, r[m], c)
                ==> contains_name(r, c.name),
    ensures
        contains_name(r, b.name),
    decreases n,
{
    let k = choose|k: int| 0 <= k < r.len() && r[k] == a;
    if n == 0 {
        assert(r[k].name == b.name);
    } else {
        let c = choose|c: TargetView|
            hop_step(idx, a, c) && path_reaches(idx, c, b, (n - 1) as nat);
        assert(hop_step(idx, r[k], c));
        assert(contains_name(r, c.name));
        lemma_one_hop_resolved(a.dependencies, idx);
        let kc = choose|kc: int|
            0 <= kc < one_hop_views(a.dependencies, idx).len()
                && one_hop_views(a.dependencies, idx)[kc] == c;
        assert(lookup_target(idx, c.name) == Some(c));
        let ke = choose|ke: int| 0 <= ke < r.len() && r[ke].name == c.name;
        assert(lookup_target(idx, r[ke].name) == Some(r[ke]));
        assert(r[ke] == c);
        lemma_closure_complete(idx, r, c, b, (n - 1) as nat);
    }
}

/// Whatever a resolved target reaches is itself resolved: every later node
/// of a path is drawn from the index by a one-hop lookup.
pub proof fn lemma_reached_resolved(
    idx: Seq<TargetView>,
    a: TargetView,
    t: TargetView,
    n: nat,
)
    requires
        path_reaches(idx, a, t, n),
        lookup_target(idx, a.name) == Some(a),
    ensures
        lookup_target(idx, t.name) == Some(t),
    decreases n,
{
    if n > 0 {
        let c = choose|c: TargetView|
            hop_step(idx, a, c) && path_reaches(idx, c, t, (n - 1) as nat);
        lemma_one_hop_resolved(a.dependencies, idx);
        let kc = choose|kc: int|
            0 <= kc < one_hop_views(a.dependencies, idx).len()
                && one_hop_views(a.dependencies, idx)[kc] == c;
        assert(lookup_target(idx, c.name) == Some(c));
        lemma_reached_resolved(idx, c, t, (n - 1) as nat);
    }
}

/// The working state of the closure expansion: no duplicate names, every
/// entry resolved against the index, every entry reachable from the seed,
/// and every name drawn from the seed or the index.
pub open spec fn closure_state(
    seed: Seq<TargetView>,
    idx: Seq<TargetView>,
    rv: Seq<TargetView>,
) -> bool {
    &&& distinct_names(rv)
    &&& resolved_targets(rv, idx)
    &&& forall|k: int| 0 <= k < rv.len() ==> reachable_from(seed, idx, #[trigger] rv[k])
    &&& forall|k: int| 0 <= k < rv.len()
        ==> contains_name(seed, (#[trigger] rv[k]).name) || contains_name(idx, rv[k].name)
}

/// Appends `t` to the working list unless its name is already present,
/// keeping the working state and never touching what is already there.
#[verifier::loop_isolation(false)]
fn insert_new(
    r: &mut Vec<Target>,
    t: &Target,
    Ghost(seedv): Ghost<Seq<TargetView>>,
    Ghost(idxv): Ghost<Seq<TargetView>>,
)
    requires
        closure_state(seedv, idxv, target_views(old(r)@)),
        reachable_from(seedv, idxv, t@),
        contains_name(seedv, t@.name) || contains_name(idxv, t@.name),
        lookup_target(idxv, t@.name) == Some(t@),
    ensures
        closure_state(seedv, idxv, target_views(final(r)@)),
        contains_name(target_views(final(r)@), t@.name),
        final(r)@.len() >= old(r)@.len(),
        target_views(final(r)@).subrange(0, old(r)@.len() as int) == target_views(old(r)@),
        forall|nm: Seq<char>| #[trigger] contains_name(target_views(old(r)@), nm)
            ==> contains_name(target_views(final(r)@), nm),
        target_views(final(r)@).len() <= seedv.len() + idxv.len(),
{
    let ghost rv = target_views(r@);
    if !contains_target_name(r, t.name.as_str()) {
        let c = t.clone();
        r.push(c);
        proof {
            assert(target_views(r@) =~= rv.push(t@));
            assert(target_views(r@).subrange(0, rv.len() as int) =~= rv);
            assert(target_views(r@)[rv.len() as int] == t@);
            assert forall|nm: Seq<char>| #[trigger] contains_name(rv, nm)
                implies contains_name(target_views(r@), nm) by {
                let k = choose|k: int| 0 <= k < rv.len() && rv[k].name == nm;
                assert(target_views(r@)[k].name == nm);
            }
            lemma_closure_len_bound(target_views(r@), seedv, idxv);
        }
    } else {
        proof {
            assert(target_views(r@).subrange(0, rv.len() as int) =~= rv);
            lemma_closure_len_bound(rv, seedv, idxv);
        }
    }
}

/// Works one expansion pass into the visited list: every element of `fresh`
/// whose name is new is appended; afterwards every `fresh` name is present,
/// and what was there before is untouched.
#[verifier::loop_isolation(false)]
fn absorb_level(
    r: &mut Vec<Target>,
    fresh: &Vec<Target>,
    Ghost(seedv): Ghost<Seq<TargetView>>,
    Ghost(idxv): Ghost<Seq<TargetView>>,
    Ghost(frontier): Ghost<Seq<TargetView>>,
)
    requires
        closure_state(seedv, idxv, target_views(old(r)@)),
        target_views(fresh@) == expand_views(frontier, idxv),
        forall|m: int| 0 <= m < frontier.len()
            ==> reachable_from(seedv, idxv, #[trigger] frontier[m]),
    ensures
        closure_state(seedv, idxv, target_views(final(r)@)),
        final(r)@.len() >= old(r)@.len(),
        target_views(final(r)@).subrange(0, old(r)@.len() as int) == target_views(old(r)@),
        forall|nm: Seq<char>| #[trigger] contains_name(target_views(old(r)@), nm)
            ==> contains_name(target_views(final(r)@), nm),
        forall|kk: int| 0 <= kk < target_views(fresh@).len()
            ==> contains_name(
                target_views(final(r)@),
                (#[trigger] target_views(fresh@)[kk]).name,
            ),
        target_views(final(r)@).len() <= seedv.len() + idxv.len(),
{
    let ghost orig = target_views(r@);
    let ghost fresh_v = target_views(fresh@);
    proof {
        lemma_expand_decompose(frontier, idxv);
        lemma_closure_len_bound(orig, seedv, idxv);
    }
    let mut k: usize = 0;
    while k < fresh.len()
        invariant
            k <= fresh_v.len(),
            closure_state(seedv, idxv, target_views(r@)),
            r@.len() >= orig.len(),
            target_views(r@).subrange(0, orig.len() as int) == orig,
            target_views(r@).len() <= seedv.len() + idxv.len(),
            forall|nm: Seq<char>| #[trigger] contains_name(orig, nm)
                ==> contains_name(target_views(r@), nm),
            forall|kk: int| 0 <= kk < k
                ==> contains_name(target_views(r@), (#[trigger] fresh_v[kk]).name),
        decreases fresh_v.len() - k,
    {
        let ghost before = target_views(r@);
        proof {
            let b = fresh_v[k as int];
            let m = choose|m: int|
                0 <= m < frontier.len() && hop_step(idxv, frontier[m], b);
            lemma_one_hop_resolved(frontier[m].dependencies, idxv);
            let kb = choose|kb: int|
                0 <= kb < one_hop_views(frontier[m].dependencies, idxv).len()
                    && one_hop_views(frontier[m].dependencies, idxv)[kb] == b;
            assert(lookup_target(idxv, b.name) == Some(b));
            lemma_lookup_target_found(idxv, b.name, b);
            assert(contains_name(idxv, b.name));
            let j = choose|j: int|
                0 <= j < seedv.len() && reaches(idxv, seedv[j], frontier[m]);
            let n = choose|n: nat| #[trigger] path_reaches(idxv, seedv[j], frontier[m], n);
            lemma_path_extend(idxv, seedv[j], frontier[m], b, n);
            assert(reaches(idxv, seedv[j], b));
            assert(reachable_from(seedv, idxv, b));
        }
        insert_new(r, &fresh[k], Ghost(seedv), Ghost(idxv));
        proof {
            assert(target_views(r@).subrange(0, orig.len() as int)
                =~= before.subrange(0, orig.len() as int));
        }
        k += 1;
    }
}

/// A visited list in the working state that holds every seed name and is
/// closed under one-hop expansion of its members enumerates the
/// reflexive-transitive closure of the seed.
proof fn lemma_closure_wrap(
    seedv: Seq<TargetView>,
    idxv: Seq<TargetView>,
    rv: Seq<TargetView>,
)
    requires
        resolved_targets(seedv, idxv),
        closure_state(seedv, idxv, rv),
        forall|j: int| 0 <= j < seedv.len()
            ==> contains_name(rv, (#[trigger] seedv[j]).name),
        forall|m: int, c: TargetView|
            0 <= m < rv.len() && #[trigger] hop_step(idxv, rv[m], c)
                ==> contains_name(rv, c.name),
    ensures
        closure_post(seedv, idxv, rv),
{
    assert forall|b: TargetView| #[trigger] reachable_from(seedv, idxv, b)
        implies contains_name(rv, b.name) by {
        let j = choose|j: int| 0 <= j < seedv.len() && reaches(idxv, seedv[j], b);
        let n = choose|n: nat| #[trigger] path_reaches(idxv, seedv[j], b, n);
        let ke = choose|ke: int| 0 <= ke < rv.len() && rv[ke].name == seedv[j].name;
        assert(lookup_target(idxv, rv[ke].name) == Some(rv[ke]));
        assert(lookup_target(idxv, seedv[j].name) == Some(seedv[j]));
        assert(rv[ke] == seedv[j]);
        lemma_closure_complete(idxv, rv, seedv[j], b, n);
    }
}

/// After one absorbed pass, everything the list's first `new_start` members
/// produce in one hop is present by name.
proof fn lemma_level_closed(
    seedv: Seq<TargetView>,
    idxv: Seq<TargetView>,
    base: Seq<TargetView>,
    rv: Seq<TargetView>,
    fresh_v: Seq<TargetView>,
    start: int,
)
    requires
        0 <= start <= base.len(),
        base.len() <= rv.len(),
        rv.subrange(0, base.len() as int) == base,
        fresh_v == expand_views(base.subrange(start, base.len() as int), idxv),
        forall|kk: int| 0 <= kk < fresh_v.len()
            ==> contains_name(rv, (#[trigger] fresh_v[kk]).name),
        forall|m: int, c: TargetView|
            0 <= m < start && #[trigger] hop_step(idxv, base[m], c)
                ==> contains_name(base, c.name),
        forall|nm: Seq<char>| #[trigger] contains_name(base, nm) ==> contains_name(rv, nm),
    ensures
        forall|m: int, c: TargetView|
            0 <= m < base.len() && #[trigger] hop_step(idxv, rv[m], c)
                ==> contains_name(rv, c.name),
{
    let frontier = base.subrange(start, base.len() as int);
    lemma_expand_decompose(frontier, idxv);
    assert forall|m: int, c: TargetView|
        0 <= m < base.len() && #[trigger] hop_step(idxv, rv[m], c)
        implies contains_name(rv, c.name) by {
        assert(rv[m] == rv.subrange(0, base.len() as int)[m]);
        assert(rv[m] == base[m]);
        if start <= m {
            assert(base[m] == frontier[m - start]);
            assert(hop_step(idxv, frontier[m - start], c));
            assert(expand_views(frontier, idxv).contains(c));
            let kk = choose|kk: int| 0 <= kk < fresh_v.len() && fresh_v[kk] == c;
            assert(contains_name(rv, fresh_v[kk].name));
        }
    }
}

/// Starting from `seed`, repeatedly expands the most recently appended
/// frontier in one synchronous pass and appends whatever the pass produced
/// that is not yet present, keyed by target name, until a pass adds nothing.
/// Each name is expanded at most once, so the loop terminates on every
/// dependency graph, cyclic ones included, and the result enumerates the
/// reflexive-transitive closure of `one_hop` over the seed without duplicate
/// names.
#[verifier::rlimit(100)]
#[verifier::spinoff_prover]
#[verifier::loop_isolation(false)]
pub fn closure(seed: &Vec<Target>, idx: &TargetIndex) -> (r: Vec<Target>)
    requires
        resolved_targets(target_views(seed@), idx@),
    ensures
        closure_post(target_views(seed@), idx@, target_views(r@)),
{
    let ghost seedv = target_views(seed@);
    let ghost idxv = idx@;
    let mut r: Vec<Target> = Vec::new();
    let mut i: usize = 0;
    while i < seed.len()
        invariant
            i <= seed@.len(),
            closure_state(seedv, idxv, target_views(r@)),
            target_views(r@).len() <= seedv.len() + idxv.len(),
            forall|j: int| 0 <= j < i
                ==> contains_name(target_views(r@), (#[trigger] seedv[j]).name),
        decreases seed@.len() - i,
    {
        proof {
            assert(path_reaches(idxv, seedv[i as int], seedv[i as int], 0));
            assert(reaches(idxv, seedv[i as int], seedv[i as int]));
            assert(reachable_from(seedv, idxv, seedv[i as int]));
            assert(contains_name(seedv, seedv[i as int].name));
        }
        insert_new(&mut r, &seed[i], Ghost(seedv), Ghost(idxv));
        i += 1;
    }
    let mut start: usize = 0;
    while start < r.len()
        invariant
            start <= r@.len(),
            closure_state(seedv, idxv, target_views(r@)),
            target_views(r@).len() <= seedv.len() + idxv.len(),
            forall|j: int| 0 <= j < seedv.len()
                ==> contains_name(target_views(r@), (#[trigger] seedv[j]).name),
            forall|m: int, c: TargetView|
                0 <= m < start && #[trigger] hop_step(idxv, target_views(r@)[m], c)
                    ==> contains_name(target_views(r@), c.name),
        decreases seedv.len() + idxv.len() + 1 - start,
    {
        let ghost base = target_views(r@);
        let ghost frontier = base.subrange(start as int, base.len() as int);
        let fresh = expand_frontier(&r, start, idx);
        let new_start = r.len();
        absorb_level(&mut r, &fresh, Ghost(seedv), Ghost(idxv), Ghost(frontier));
        proof {
            lemma_level_closed(
                seedv,
                idxv,
                base,
                target_views(r@),
                target_views(fresh@),
                start as int,
            );
        }
        start = new_start;
    }
    proof {
        lemma_closure_wrap(seedv, idxv, target_views(r@));
    }
    r
}

} // verus!

