//! Name-keyed and path-keyed lookup tables over the build model.
//!
//! Entries are kept in insertion order and a lookup returns the most recently
//! inserted entry for a key, so a duplicate key silently overwrites an
//! earlier one, exactly as a map built by successive insertion would.

use vstd::prelude::*;

use crate::model::{LinkScript, Object, ObjectView, Target, TargetView, script_targets,
    target_views};
use crate::text::str_eq;

verus! {

/// The target that `name` resolves to: the last entry of `ts` carrying it.
pub open spec fn lookup_target(ts: Seq<TargetView>, name: Seq<char>) -> Option<TargetView>
    decreases ts.len(),
{
    if ts.len() == 0 {
        None
    } else if ts.last().name == name {
        Some(ts.last())
    } else {
        lookup_target(ts.drop_last(), name)
    }
}

/// The object that `path` resolves to: the last entry of `os` carrying it.
pub open spec fn lookup_object(os: Seq<ObjectView>, path: Seq<char>) -> Option<ObjectView>
    decreases os.len(),
{
    if os.len() == 0 {
        None
    } else if os.last().abs_path == path {
        Some(os.last())
    } else {
        lookup_object(os.drop_last(), path)
    }
}

/// A successful target lookup hands back an entry with the requested name,
/// drawn from the table.
pub proof fn lemma_lookup_target_found(ts: Seq<TargetView>, name: Seq<char>, t: TargetView)
    requires
        lookup_target(ts, name) == Some(t),
    ensures
        t.name == name,
        exists|i: int| 0 <= i < ts.len() && ts[i] == t,
    decreases ts.len(),
{
    if ts.len() > 0 {
        if ts.last().name == name {
            assert(ts[ts.len() - 1] == t);
        } else {
            lemma_lookup_target_found(ts.drop_last(), name, t);
            let i = choose|i: int| 0 <= i < ts.drop_last().len() && ts.drop_last()[i] == t;
            assert(ts[i] == t);
        }
    }
}

/// A name-keyed table over all link targets of a build.
pub struct TargetIndex {
    pub targets: Vec<Target>,
}

impl View for TargetIndex {
    type V = Seq<TargetView>;

    open spec fn view(&self) -> Seq<TargetView> {
        target_views(self.targets@)
    }
}

impl TargetIndex {
    /// Builds the index from the collection's link scripts, discarding the
    /// script wrapper. Building cannot fail; an absent name is only noticed
    /// at lookup time.
    pub fn from_scripts(scripts: &Vec<LinkScript>) -> (r: TargetIndex)
        ensures
            r@ == script_targets(scripts@),
    {
        let mut targets: Vec<Target> = Vec::new();
        let mut i: usize = 0;
        while i < scripts.len()
            invariant
                i <= scripts.len(),
                targets@.len() == i,
                forall|j: int| 0 <= j < i ==> targets@[j]@ == scripts@[j]@.target,
            decreases scripts.len() - i,
        {
            targets.push(scripts[i].target.clone());
            i += 1;
        }
        proof {
            assert(target_views(targets@) =~= script_targets(scripts@));
        }
        TargetIndex { targets }
    }

    /// Whether any entry carries `name`.
    pub open spec fn spec_contains(&self, name: Seq<char>) -> bool {
        lookup_target(self@, name) is Some
    }

    /// Looks `name` up; the result is exactly what `lookup_target` says.
    pub fn get<'a>(&'a self, name: &str) -> (r: Option<&'a Target>)
        ensures
            match r {
                Some(t) => lookup_target(self@, name@) == Some(t@),
                None => lookup_target(self@, name@) is None,
            },
    {
        let n = self.targets.len();
        proof {
            assert(target_views(self.targets@).subrange(0, n as int)
                =~= target_views(self.targets@));
        }
        let mut i: usize = n;
        while i > 0
            invariant
                i <= n,
                n == self.targets@.len(),
                lookup_target(self@, name@) == lookup_target(
                    target_views(self.targets@).subrange(0, i as int),
                    name@,
                ),
            decreases i,
        {
            proof {
                assert(target_views(self.targets@).subrange(0, i as int).last()
                    == self.targets@[i - 1]@);
                assert(target_views(self.targets@).subrange(0, i as int).drop_last()
                    =~= target_views(self.targets@).subrange(0, i - 1));
            }
            i -= 1;
            if str_eq(self.targets[i].name.as_str(), name) {
                return Some(&self.targets[i]);
            }
        }
        None
    }
}

/// A path-keyed table over all object files of a build.
pub struct ObjectIndex {
    pub objects: Vec<Object>,
}

/// The views of a sequence of objects, in order.
pub open spec fn object_views(os: Seq<Object>) -> Seq<ObjectView> {
    os.map_values(|o: Object| o@)
}

impl View for ObjectIndex {
    type V = Seq<ObjectView>;

    open spec fn view(&self) -> Seq<ObjectView> {
        object_views(self.objects@)
    }
}

impl ObjectIndex {
    /// Builds the index from the collection's objects.
    pub fn from_objects(objects: &Vec<Object>) -> (r: ObjectIndex)
        ensures
            r@ == object_views(objects@),
    {
        let mut own: Vec<Object> = Vec::new();
        let mut i: usize = 0;
        while i < objects.len()
            invariant
                i <= objects.len(),
                own@.len() == i,
                forall|j: int| 0 <= j < i ==> own@[j]@ == objects@[j]@,
            decreases objects.len() - i,
        {
            own.push(objects[i].clone());
            i += 1;
        }
        proof {
            assert(object_views(own@) =~= object_views(objects@));
        }
        ObjectIndex { objects: own }
    }

    /// Looks an object path up; the result is exactly what `lookup_object`
    /// says.
    pub fn get<'a>(&'a self, path: &str) -> (r: Option<&'a Object>)
        ensures
            match r {
                Some(o) => lookup_object(self@, path@) == Some(o@),
                None => lookup_object(self@, path@) is None,
            },
    {
        let n = self.objects.len();
        proof {
            assert(object_views(self.objects@).subrange(0, n as int)
                =~= object_views(self.objects@));
        }
        let mut i: usize = n;
        while i > 0
            invariant
                i <= n,
                n == self.objects@.len(),
                lookup_object(self@, path@) == lookup_object(
                    object_views(self.objects@).subrange(0, i as int),
                    path@,
                ),
            decreases i,
        {
            proof {
                assert(object_views(self.objects@).subrange(0, i as int).last()
                    == self.objects@[i - 1]@);
                assert(object_views(self.objects@).subrange(0, i as int).drop_last()
                    =~= object_views(self.objects@).subrange(0, i - 1));
            }
            i -= 1;
            if str_eq(self.objects[i].abs_path.as_str(), path) {
                return Some(&self.objects[i]);
            }
        }
        None
    }
}

} // verus!
