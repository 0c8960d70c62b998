//! The operations a caller asks for: listing the linkable targets, checking
//! one target's immediate dependencies, and generating the whole document.

use vstd::prelude::*;
use vstd::string::StringExecFns;

use crate::emit::{TraceType, generate_ebpf, generate_stap, rendered};
use crate::index::{ObjectIndex, TargetIndex, lemma_lookup_target_found, lookup_target,
    object_views};
use crate::model::{Collection, LinkScript, STATIC, EXEC, Target, TargetView, TraceError,
    script_targets, string_views, target_views};
use crate::resolve::{closure, closure_post, contains_name, lemma_reached_resolved, one_hop,
    one_hop_views, path_reaches, reaches, reachable_from, resolved_targets};
use crate::symbols::{collect_symbols, collected_views, first_missing, first_missing_dep,
    lemma_first_missing_none, trace_views};

verus! {

/// One line of the listing: a target classified as an executable (`EXEC`)
/// or a dynamic library (`DYNL`), with its name and output path.
pub struct ListedTarget {
    pub is_exec: bool,
    pub name: String,
    pub abs_path: String,
}

pub ghost struct ListedTargetView {
    pub is_exec: bool,
    pub name: Seq<char>,
    pub abs_path: Seq<char>,
}

impl View for ListedTarget {
    type V = ListedTargetView;

    open spec fn view(&self) -> ListedTargetView {
        ListedTargetView {
            is_exec: self.is_exec,
            name: self.name@,
            abs_path: self.abs_path@,
        }
    }
}

/// The views of a sequence of listing lines, in order.
pub open spec fn listed_views(ls: Seq<ListedTarget>) -> Seq<ListedTargetView> {
    ls.map_values(|l: ListedTarget| l@)
}

/// What `list_targets` reports: every target whose type is strictly below
/// the static-archive discriminant, in input order, classified as an
/// executable exactly when its type is the executable discriminant.
pub open spec fn listing_of(ts: Seq<TargetView>) -> Seq<ListedTargetView>
    decreases ts.len(),
{
    if ts.len() == 0 {
        Seq::empty()
    } else {
        let rest = listing_of(ts.drop_last());
        if ts.last().target_type < STATIC {
            rest.push(
                ListedTargetView {
                    is_exec: ts.last().target_type == EXEC,
                    name: ts.last().name,
                    abs_path: ts.last().abs_path,
                },
            )
        } else {
            rest
        }
    }
}

/// Exactly the executable and shared targets appear in the listing, each
/// classified `EXEC` exactly when its type is the executable discriminant.
pub proof fn lemma_listing_exact(ts: Seq<TargetView>)
    ensures
        forall|j: int| 0 <= j < listing_of(ts).len()
            ==> exists|k: int| 0 <= k < ts.len() && ts[k].target_type < STATIC
                && #[trigger] listing_of(ts)[j] == (ListedTargetView {
                    is_exec: ts[k].target_type == EXEC,
                    name: ts[k].name,
                    abs_path: ts[k].abs_path,
                }),
        forall|k: int| 0 <= k < ts.len() && (#[trigger] ts[k]).target_type < STATIC
            ==> listing_of(ts).contains(
                ListedTargetView {
                    is_exec: ts[k].target_type == EXEC,
                    name: ts[k].name,
                    abs_path: ts[k].abs_path,
                },
            ),
    decreases ts.len(),
{
    if ts.len() > 0 {
        lemma_listing_exact(ts.drop_last());
        let rest = listing_of(ts.drop_last());
        assert(forall|k: int| 0 <= k < ts.len() - 1 ==> ts.drop_last()[k] == ts[k]);
        assert forall|j: int| 0 <= j < listing_of(ts).len()
            implies exists|k: int| 0 <= k < ts.len() && ts[k].target_type < STATIC
                && #[trigger] listing_of(ts)[j] == (ListedTargetView {
                    is_exec: ts[k].target_type == EXEC,
                    name: ts[k].name,
                    abs_path: ts[k].abs_path,
                }) by {
            if j < rest.len() {
                assert(listing_of(ts)[j] == rest[j]);
                let k = choose|k: int| 0 <= k < ts.drop_last().len()
                    && ts.drop_last()[k].target_type < STATIC && rest[j]
                    == (ListedTargetView {
                    is_exec: ts.drop_last()[k].target_type == EXEC,
                    name: ts.drop_last()[k].name,
                    abs_path: ts.drop_last()[k].abs_path,
                });
                assert(ts[k] == ts.drop_last()[k]);
            } else {
                assert(ts.last().target_type < STATIC);
                let k = ts.len() - 1;
                assert(listing_of(ts)[j] == (ListedTargetView {
                    is_exec: ts[k].target_type == EXEC,
                    name: ts[k].name,
                    abs_path: ts[k].abs_path,
                }));
            }
        }
        if ts.last().target_type < STATIC {
            assert(forall|j: int| 0 <= j < rest.len() ==> listing_of(ts)[j] == rest[j]);
            assert forall|k: int| 0 <= k < ts.len()
                && (#[trigger] ts[k]).target_type < STATIC
                implies listing_of(ts).contains(
                ListedTargetView {
                    is_exec: ts[k].target_type == EXEC,
                    name: ts[k].name,
                    abs_path: ts[k].abs_path,
                },
            ) by {
                let l = ListedTargetView {
                    is_exec: ts[k].target_type == EXEC,
                    name: ts[k].name,
                    abs_path: ts[k].abs_path,
                };
                if k < ts.len() - 1 {
                    let j = choose|j: int| 0 <= j < rest.len() && rest[j] == l;
                    assert(listing_of(ts)[j] == l);
                } else {
                    assert(listing_of(ts)[rest.len() as int] == l);
                }
            }
        } else {
            assert(listing_of(ts) == rest);
        }
    }
}

/// Filters the build's targets down to executables and shared libraries and
/// classifies each, as the listing operation reports them.
pub fn list_targets(scripts: &Vec<LinkScript>) -> (r: Vec<ListedTarget>)
    ensures
        listed_views(r@) == listing_of(script_targets(scripts@)),
{
    let ghost ts = script_targets(scripts@);
    let mut r: Vec<ListedTarget> = Vec::new();
    let mut i: usize = 0;
    while i < scripts.len()
        invariant
            i <= ts.len(),
            ts == script_targets(scripts@),
            listed_views(r@) == listing_of(ts.subrange(0, i as int)),
        decreases ts.len() - i,
    {
        let ghost before = listed_views(r@);
        let t: &Target = &scripts[i].target;
        proof {
            assert(t@ == ts[i as int]);
            assert(ts.subrange(0, i + 1).drop_last() =~= ts.subrange(0, i as int));
            assert(ts.subrange(0, i + 1).last() == ts[i as int]);
        }
        if t.target_type < STATIC {
            let entry = ListedTarget {
                is_exec: t.target_type == EXEC,
                name: t.name.clone(),
                abs_path: t.abs_path.clone(),
            };
            r.push(entry);
            proof {
                assert(listed_views(r@) =~= before.push(
                    ListedTargetView {
                        is_exec: ts[i as int].target_type == EXEC,
                        name: ts[i as int].name,
                        abs_path: ts[i as int].abs_path,
                    },
                ));
            }
        }
        i += 1;
    }
    proof {
        assert(ts.subrange(0, ts.len() as int) =~= ts);
    }
    r
}

/// The output paths of a sequence of targets, in order.
pub open spec fn paths_of(ts: Seq<TargetView>) -> Seq<Seq<char>> {
    ts.map_values(|t: TargetView| t.abs_path)
}

/// Reports the named target's immediate resolvable dependencies: the output
/// paths of its one-hop result, in order. An absent name is the
/// `UnknownTarget` condition, exactly when the index lacks it.
pub fn check_target(name: &str, idx: &TargetIndex) -> (r: Result<Vec<String>, TraceError>)
    ensures
        match r {
            Ok(paths) => lookup_target(idx@, name@) is Some && string_views(paths@)
                == paths_of(
                one_hop_views(lookup_target(idx@, name@)->Some_0.dependencies, idx@),
            ),
            Err(e) => e is UnknownTarget && e->UnknownTarget_0@ == name@ && lookup_target(
                idx@,
                name@,
            ) is None,
        },
{
    match idx.get(name) {
        None => Err(TraceError::UnknownTarget(String::from_str(name))),
        Some(t) => {
            let deps = one_hop(t, idx);
            let ghost dv = target_views(deps@);
            let mut paths: Vec<String> = Vec::new();
            let mut i: usize = 0;
            while i < deps.len()
                invariant
                    i <= dv.len(),
                    dv == target_views(deps@),
                    string_views(paths@) == paths_of(dv).subrange(0, i as int),
                decreases dv.len() - i,
            {
                let ghost before = string_views(paths@);
                paths.push(deps[i].abs_path.clone());
                proof {
                    assert(string_views(paths@) =~= before.push(dv[i as int].abs_path));
                    assert(string_views(paths@) =~= paths_of(dv).subrange(0, i + 1));
                }
                i += 1;
            }
            proof {
                assert(paths_of(dv).subrange(0, dv.len() as int) =~= paths_of(dv));
            }
            Ok(paths)
        },
    }
}

/// Computes the transitive closure of the named target, the target itself
/// included, collects every member's linked symbols, and renders the chosen
/// dialect's document. The name is unknown exactly when the index lacks it,
/// an unresolvable object dependency of a closure member is reported as
/// `MissingObjectReference`, and the document is owed exactly when the name
/// resolves and every reachable target's object dependencies resolve.
#[verifier::rlimit(100)]
#[verifier::spinoff_prover]
pub fn generate(name: &str, trace_type: TraceType, collection: &Collection) -> (r: Result<
    String,
    TraceError,
>)
    ensures
        (r matches Err(e) && e is UnknownTarget) <==> lookup_target(
            script_targets(collection.scripts@),
            name@,
        ) is None,
        r is Ok <==> ({
            &&& lookup_target(script_targets(collection.scripts@), name@) is Some
            &&& forall|t: TargetView|
                #[trigger] reaches(
                    script_targets(collection.scripts@),
                    lookup_target(script_targets(collection.scripts@), name@)->Some_0,
                    t,
                ) ==> first_missing_dep(
                    t.dependencies,
                    object_views(collection.objects@),
                ) is None
        }),
        r matches Err(e) ==> (e is UnknownTarget ==> e->UnknownTarget_0@ == name@),
        r matches Ok(doc) ==> exists|deps: Seq<TargetView>|
            {
                &&& #[trigger] closure_post(
                    seq![lookup_target(script_targets(collection.scripts@), name@)->Some_0],
                    script_targets(collection.scripts@),
                    deps,
                )
                &&& first_missing(deps, object_views(collection.objects@)) is None
                &&& doc@ == rendered(
                    trace_type,
                    collected_views(deps, object_views(collection.objects@)),
                )
            },
        r matches Err(e) ==> (e is MissingObjectReference ==> exists|deps: Seq<TargetView>|
            {
                &&& #[trigger] closure_post(
                    seq![lookup_target(script_targets(collection.scripts@), name@)->Some_0],
                    script_targets(collection.scripts@),
                    deps,
                )
                &&& first_missing(deps, object_views(collection.objects@))
                    == Some(e->MissingObjectReference_0@)
            }),
{
    let idx = TargetIndex::from_scripts(&collection.scripts);
    let objs = ObjectIndex::from_objects(&collection.objects);
    match idx.get(name) {
        None => Err(TraceError::UnknownTarget(String::from_str(name))),
        Some(t) => {
            let root = t.clone();
            let mut seed: Vec<Target> = Vec::new();
            seed.push(root);
            proof {
                lemma_lookup_target_found(idx@, name@, t@);
                assert(target_views(seed@) =~= seq![t@]);
                assert(resolved_targets(target_views(seed@), idx@));
            }
            let deps = closure(&seed, &idx);
            let ghost seedv = target_views(seed@);
            let ghost dv = target_views(deps@);
            match collect_symbols(&deps, &objs) {
                Err(e) => {
                    proof {
                        assert(closure_post(
                            seq![lookup_target(script_targets(collection.scripts@), name@)
                                ->Some_0],
                            script_targets(collection.scripts@),
                            dv,
                        ));
                        lemma_first_missing_none(dv, objs@);
                        let j = choose|j: int|
                            0 <= j < dv.len() && !(first_missing_dep(
                                (#[trigger] dv[j]).dependencies,
                                objs@,
                            ) is None);
                        assert(reachable_from(seedv, idx@, dv[j]));
                        let j0 = choose|j0: int|
                            0 <= j0 < seedv.len() && reaches(idx@, seedv[j0], dv[j]);
                        assert(seedv[j0] == t@);
                        assert(reaches(idx@, t@, dv[j]));
                    }
                    Err(e)
                },
                Ok(tt) => {
                    let doc = match trace_type {
                        TraceType::EBpf => generate_ebpf(&tt),
                        TraceType::STap => generate_stap(&tt),
                    };
                    proof {
                        assert(closure_post(
                            seq![lookup_target(script_targets(collection.scripts@), name@)
                                ->Some_0],
                            script_targets(collection.scripts@),
                            dv,
                        ));
                        lemma_first_missing_none(dv, objs@);
                        assert forall|t2: TargetView| #[trigger] reaches(idx@, t@, t2)
                            implies first_missing_dep(t2.dependencies, objs@) is None by {
                            assert(seedv[0] == t@);
                            assert(reaches(idx@, seedv[0], t2));
                            assert(reachable_from(seedv, idx@, t2));
                            assert(contains_name(dv, t2.name));
                            let ke = choose|ke: int|
                                0 <= ke < dv.len() && dv[ke].name == t2.name;
                            assert(lookup_target(idx@, dv[ke].name) == Some(dv[ke]));
                            let n = choose|n: nat| #[trigger] path_reaches(idx@, t@, t2, n);
                            lemma_reached_resolved(idx@, t@, t2, n);
                            assert(dv[ke] == t2);
                        }
                    }
                    Ok(doc)
                },
            }
        },
    }
}

} // verus!
