//! The symbol collector: maps each target's object-file dependencies to the
//! symbols those objects define, through the path-keyed object index.

use vstd::prelude::*;

use crate::index::{ObjectIndex, lookup_object};
use crate::model::{Object, ObjectView, Target, TargetView, TraceError, string_views,
    symbol_names, target_views};
use crate::text::{ends_with, str_ends_with};

verus! {

/// One entry of the emitter's input: a target's name, its output path, and
/// the symbols statically linked into it, in order.
pub struct TraceTarget {
    pub name: String,
    pub abs_path: String,
    pub symbols: Vec<String>,
}

pub ghost struct TraceTargetView {
    pub name: Seq<char>,
    pub abs_path: Seq<char>,
    pub symbols: Seq<Seq<char>>,
}

impl View for TraceTarget {
    type V = TraceTargetView;

    open spec fn view(&self) -> TraceTargetView {
        TraceTargetView {
            name: self.name@,
            abs_path: self.abs_path@,
            symbols: string_views(self.symbols@),
        }
    }
}

/// The views of a sequence of trace targets, in order.
pub open spec fn trace_views(ts: Seq<TraceTarget>) -> Seq<TraceTargetView> {
    ts.map_values(|t: TraceTarget| t@)
}

/// The symbols a target links in: for each dependency ending in `.o`, in
/// dependency order, the defined-symbol names of the object the index
/// resolves it to, in object order. An unresolvable object dependency
/// contributes nothing here; it is reported through `first_missing_dep`.
pub open spec fn target_symbols(deps: Seq<Seq<char>>, objs: Seq<ObjectView>) -> Seq<Seq<char>>
    decreases deps.len(),
{
    if deps.len() == 0 {
        Seq::empty()
    } else {
        let rest = target_symbols(deps.drop_last(), objs);
        if ends_with(deps.last(), ".o"@) {
            match lookup_object(objs, deps.last()) {
                Some(o) => rest + o.defined_symbols,
                None => rest,
            }
        } else {
            rest
        }
    }
}

/// The first dependency of `deps` that ends in `.o` yet has no entry in the
/// object index, if any.
pub open spec fn first_missing_dep(
    deps: Seq<Seq<char>>,
    objs: Seq<ObjectView>,
) -> Option<Seq<char>>
    decreases deps.len(),
{
    if deps.len() == 0 {
        None
    } else if ends_with(deps.first(), ".o"@) && lookup_object(objs, deps.first()) is None {
        Some(deps.first())
    } else {
        first_missing_dep(deps.drop_first(), objs)
    }
}

/// The first unresolvable object dependency over a target sequence, in
/// target order then dependency order, if any.
pub open spec fn first_missing(ts: Seq<TargetView>, objs: Seq<ObjectView>) -> Option<Seq<char>>
    decreases ts.len(),
{
    if ts.len() == 0 {
        None
    } else {
        match first_missing_dep(ts.first().dependencies, objs) {
            Some(d) => Some(d),
            None => first_missing(ts.drop_first(), objs),
        }
    }
}

/// What `collect_symbols` returns on success: the triple for each target.
pub open spec fn collected_views(
    ts: Seq<TargetView>,
    objs: Seq<ObjectView>,
) -> Seq<TraceTargetView> {
    ts.map_values(
        |t: TargetView| TraceTargetView {
            name: t.name,
            abs_path: t.abs_path,
            symbols: target_symbols(t.dependencies, objs),
        },
    )
}

/// When every object dependency before position `p` resolves, the first
/// missing one of the whole list is the first missing one from `p` on.
proof fn lemma_first_missing_dep_from(deps: Seq<Seq<char>>, objs: Seq<ObjectView>, p: int)
    requires
        0 <= p <= deps.len(),
        forall|j: int| 0 <= j < p
            ==> !(ends_with(#[trigger] deps[j], ".o"@)
                && lookup_object(objs, deps[j]) is None),
    ensures
        first_missing_dep(deps, objs) == first_missing_dep(
            deps.subrange(p, deps.len() as int),
            objs,
        ),
    decreases p,
{
    if p == 0 {
        assert(deps.subrange(0, deps.len() as int) =~= deps);
    } else {
        assert(!(ends_with(deps.first(), ".o"@) && lookup_object(objs, deps.first()) is None));
        lemma_first_missing_dep_from(deps.drop_first(), objs, p - 1);
        assert(deps.drop_first().subrange(p - 1, deps.drop_first().len() as int)
            =~= deps.subrange(p, deps.len() as int));
    }
}

/// The same, over the target sequence.
proof fn lemma_first_missing_from(ts: Seq<TargetView>, objs: Seq<ObjectView>, p: int)
    requires
        0 <= p <= ts.len(),
        forall|j: int| 0 <= j < p
            ==> first_missing_dep((#[trigger] ts[j]).dependencies, objs) is None,
    ensures
        first_missing(ts, objs) == first_missing(ts.subrange(p, ts.len() as int), objs),
    decreases p,
{
    if p == 0 {
        assert(ts.subrange(0, ts.len() as int) =~= ts);
    } else {
        lemma_first_missing_from(ts.drop_first(), objs, p - 1);
        assert(ts.drop_first().subrange(p - 1, ts.drop_first().len() as int)
            =~= ts.subrange(p, ts.len() as int));
    }
}

/// Appends the defined-symbol names of `o`, in order.
fn append_defined(syms: &mut Vec<String>, o: &Object)
    ensures
        string_views(final(syms)@) == string_views(old(syms)@) + o@.defined_symbols,
{
    let ghost before = string_views(syms@);
    let mut j: usize = 0;
    while j < o.defined_symbols.len()
        invariant
            j <= o.defined_symbols@.len(),
            string_views(syms@) == before + symbol_names(o.defined_symbols@).subrange(
                0,
                j as int,
            ),
        decreases o.defined_symbols@.len() - j,
    {
        let ghost mid = string_views(syms@);
        syms.push(o.defined_symbols[j].name.clone());
        proof {
            assert(string_views(syms@) =~= mid.push(o.defined_symbols@[j as int]@));
            assert(string_views(syms@) =~= before + symbol_names(
                o.defined_symbols@,
            ).subrange(0, j + 1));
        }
        j += 1;
    }
    proof {
        assert(symbol_names(o.defined_symbols@).subrange(
            0,
            o.defined_symbols@.len() as int,
        ) =~= o@.defined_symbols);
    }
}

/// The symbols of one target, or its first unresolvable object dependency.
#[verifier::loop_isolation(false)]
fn collect_target_symbols(t: &Target, objs: &ObjectIndex) -> (r: Result<
    Vec<String>,
    TraceError,
>)
    ensures
        match r {
            Ok(syms) => first_missing_dep(t@.dependencies, objs@) is None
                && string_views(syms@) == target_symbols(t@.dependencies, objs@),
            Err(e) => e is MissingObjectReference && first_missing_dep(t@.dependencies, objs@)
                == Some(e->MissingObjectReference_0@),
        },
{
    let ghost deps = t@.dependencies;
    let mut syms: Vec<String> = Vec::new();
    let mut i: usize = 0;
    while i < t.dependencies.len()
        invariant
            i <= deps.len(),
            string_views(syms@) == target_symbols(deps.subrange(0, i as int), objs@),
            forall|j: int| 0 <= j < i
                ==> !(ends_with(#[trigger] deps[j], ".o"@)
                    && lookup_object(objs@, deps[j]) is None),
        decreases deps.len() - i,
    {
        let dep: &String = &t.dependencies[i];
        proof {
            assert(dep@ == deps[i as int]);
            assert(deps.subrange(0, i + 1).drop_last() =~= deps.subrange(0, i as int));
            assert(deps.subrange(0, i + 1).last() == deps[i as int]);
        }
        if str_ends_with(dep.as_str(), ".o") {
            match objs.get(dep.as_str()) {
                Some(o) => {
                    append_defined(&mut syms, o);
                    proof {
                        assert(string_views(syms@) =~= target_symbols(
                            deps.subrange(0, i + 1),
                            objs@,
                        ));
                    }
                },
                None => {
                    proof {
                        lemma_first_missing_dep_from(deps, objs@, i as int);
                        assert(deps.subrange(i as int, deps.len() as int).first()
                            == deps[i as int]);
                        assert(first_missing_dep(deps, objs@) == Some(deps[i as int]));
                    }
                    return Err(TraceError::MissingObjectReference(dep.clone()));
                },
            }
        }
        i += 1;
    }
    proof {
        assert(deps.subrange(0, deps.len() as int) =~= deps);
        lemma_first_missing_dep_from(deps, objs@, deps.len() as int);
        assert(first_missing_dep(deps, objs@) is None);
    }
    Ok(syms)
}

/// For each target, in order, the triple of its name, output path and linked
/// symbols; the first object-file dependency the object index cannot resolve
/// is reported as a `MissingObjectReference` instead, and nothing is
/// returned.
#[verifier::loop_isolation(false)]
pub fn collect_symbols(targets: &Vec<Target>, objs: &ObjectIndex) -> (r: Result<
    Vec<TraceTarget>,
    TraceError,
>)
    ensures
        match r {
            Ok(tt) => first_missing(target_views(targets@), objs@) is None && trace_views(tt@)
                == collected_views(target_views(targets@), objs@),
            Err(e) => e is MissingObjectReference && first_missing(
                target_views(targets@),
                objs@,
            ) == Some(e->MissingObjectReference_0@),
        },
{
    let ghost tv = target_views(targets@);
    let mut out: Vec<TraceTarget> = Vec::new();
    let mut i: usize = 0;
    while i < targets.len()
        invariant
            i <= tv.len(),
            trace_views(out@) == collected_views(tv.subrange(0, i as int), objs@),
            forall|j: int| 0 <= j < i
                ==> first_missing_dep((#[trigger] tv[j]).dependencies, objs@) is None,
        decreases tv.len() - i,
    {
        let ghost before = trace_views(out@);
        match collect_target_symbols(&targets[i], objs) {
            Ok(syms) => {
                let entry = TraceTarget {
                    name: targets[i].name.clone(),
                    abs_path: targets[i].abs_path.clone(),
                    symbols: syms,
                };
                out.push(entry);
                proof {
                    assert(targets@[i as int]@ == tv[i as int]);
                    assert(trace_views(out@) =~= before.push(
                        TraceTargetView {
                            name: tv[i as int].name,
                            abs_path: tv[i as int].abs_path,
                            symbols: target_symbols(tv[i as int].dependencies, objs@),
                        },
                    ));
                    assert(trace_views(out@) =~= collected_views(
                        tv.subrange(0, i + 1),
                        objs@,
                    ));
                }
            },
            Err(e) => {
                proof {
                    lemma_first_missing_from(tv, objs@, i as int);
                    assert(tv.subrange(i as int, tv.len() as int).first() == tv[i as int]);
                }
                return Err(e);
            },
        }
        i += 1;
    }
    proof {
        assert(tv.subrange(0, tv.len() as int) =~= tv);
        lemma_first_missing_from(tv, objs@, tv.len() as int);
    }
    Ok(out)
}

/// No first missing dependency exists over a target sequence exactly when
/// every member's object dependencies all resolve.
pub proof fn lemma_first_missing_none(ts: Seq<TargetView>, objs: Seq<ObjectView>)
    ensures
        first_missing(ts, objs) is None <==> (forall|j: int| 0 <= j < ts.len()
            ==> first_missing_dep((#[trigger] ts[j]).dependencies, objs) is None),
    decreases ts.len(),
{
    if ts.len() > 0 {
        lemma_first_missing_none(ts.drop_first(), objs);
        assert(forall|j: int| 0 <= j < ts.drop_first().len()
            ==> ts.drop_first()[j] == ts[j + 1]);
        assert(ts.first() == ts[0]);
        if first_missing(ts, objs) is None {
            assert forall|j: int| 0 <= j < ts.len()
                implies first_missing_dep((#[trigger] ts[j]).dependencies, objs) is None by {
                if j > 0 {
                    assert(ts.drop_first()[j - 1] == ts[j]);
                }
            }
        }
    }
}

/// A target none of whose dependencies carries the object suffix links no
/// symbols at all, whatever the object index holds.
pub proof fn lemma_no_object_deps_no_symbols(deps: Seq<Seq<char>>, objs: Seq<ObjectView>)
    requires
        forall|j: int| 0 <= j < deps.len() ==> !ends_with(#[trigger] deps[j], ".o"@),
    ensures
        target_symbols(deps, objs) == Seq::<Seq<char>>::empty(),
    decreases deps.len(),
{
    if deps.len() > 0 {
        lemma_no_object_deps_no_symbols(deps.drop_last(), objs);
    }
}

} // verus!
