//! The build model: passive data describing objects, link targets and link
//! scripts, together with the mathematical views the contracts speak of.

use vstd::prelude::*;
use vstd::string::StringExecFns;

verus! {

/// Target type discriminant: an executable.
pub const EXEC: u8 = 0;

/// Target type discriminant: a shared library.
pub const SHARED: u8 = 1;

/// Target type discriminant: a static archive.
pub const STATIC: u8 = 2;

/// A named entity an object file provides. Equality is by name.
pub struct Symbol {
    pub name: String,
}

impl View for Symbol {
    type V = Seq<char>;

    open spec fn view(&self) -> Seq<char> {
        self.name@
    }
}

impl Clone for Symbol {
    fn clone(&self) -> (r: Self)
        ensures
            r@ == self@,
    {
        Symbol { name: self.name.clone() }
    }
}

/// The names of a sequence of symbols, in order.
pub open spec fn symbol_names(syms: Seq<Symbol>) -> Seq<Seq<char>> {
    syms.map_values(|s: Symbol| s@)
}

/// The views of a sequence of strings, in order.
pub open spec fn string_views(ss: Seq<String>) -> Seq<Seq<char>> {
    ss.map_values(|s: String| s@)
}

/// A compiled object file: its path (the unique key), short name, and the
/// symbols it defines and references.
pub struct Object {
    pub abs_path: String,
    pub name: String,
    pub defined_symbols: Vec<Symbol>,
    pub undefined_symbols: Vec<Symbol>,
}

pub ghost struct ObjectView {
    pub abs_path: Seq<char>,
    pub name: Seq<char>,
    pub defined_symbols: Seq<Seq<char>>,
    pub undefined_symbols: Seq<Seq<char>>,
}

impl View for Object {
    type V = ObjectView;

    open spec fn view(&self) -> ObjectView {
        ObjectView {
            abs_path: self.abs_path@,
            name: self.name@,
            defined_symbols: symbol_names(self.defined_symbols@),
            undefined_symbols: symbol_names(self.undefined_symbols@),
        }
    }
}

/// A link target: a build output with a name (the unique key), output path,
/// raw dependency strings, a type discriminant on the ordered scale
/// executable < shared < static, and the recorded tool arguments.
pub struct Target {
    pub name: String,
    pub abs_path: String,
    pub dependencies: Vec<String>,
    pub target_type: u8,
    pub linking_args: Vec<String>,
    pub ranlib_args: Vec<String>,
}

pub ghost struct TargetView {
    pub name: Seq<char>,
    pub abs_path: Seq<char>,
    pub dependencies: Seq<Seq<char>>,
    pub target_type: u8,
    pub linking_args: Seq<Seq<char>>,
    pub ranlib_args: Seq<Seq<char>>,
}

impl View for Target {
    type V = TargetView;

    open spec fn view(&self) -> TargetView {
        TargetView {
            name: self.name@,
            abs_path: self.abs_path@,
            dependencies: string_views(self.dependencies@),
            target_type: self.target_type,
            linking_args: string_views(self.linking_args@),
            ranlib_args: string_views(self.ranlib_args@),
        }
    }
}

/// The views of a sequence of targets, in order.
pub open spec fn target_views(ts: Seq<Target>) -> Seq<TargetView> {
    ts.map_values(|t: Target| t@)
}

/// A deep copy of a string vector, element for element.
pub fn clone_strings(v: &Vec<String>) -> (r: Vec<String>)
    ensures
        string_views(r@) == string_views(v@),
{
    let mut r: Vec<String> = Vec::new();
    let mut i: usize = 0;
    while i < v.len()
        invariant
            i <= v.len(),
            r@.len() == i,
            forall|j: int| 0 <= j < i ==> r@[j]@ == v@[j]@,
        decreases v.len() - i,
    {
        r.push(v[i].clone());
        i += 1;
    }
    proof {
        assert(string_views(r@) =~= string_views(v@));
    }
    r
}

/// A deep copy of a symbol vector, element for element.
pub fn clone_symbols(v: &Vec<Symbol>) -> (r: Vec<Symbol>)
    ensures
        symbol_names(r@) == symbol_names(v@),
{
    let mut r: Vec<Symbol> = Vec::new();
    let mut i: usize = 0;
    while i < v.len()
        invariant
            i <= v.len(),
            r@.len() == i,
            forall|j: int| 0 <= j < i ==> r@[j]@ == v@[j]@,
        decreases v.len() - i,
    {
        r.push(v[i].clone());
        i += 1;
    }
    proof {
        assert(symbol_names(r@) =~= symbol_names(v@));
    }
    r
}

impl Clone for Target {
    fn clone(&self) -> (r: Self)
        ensures
            r@ == self@,
    {
        Target {
            name: self.name.clone(),
            abs_path: self.abs_path.clone(),
            dependencies: clone_strings(&self.dependencies),
            target_type: self.target_type,
            linking_args: clone_strings(&self.linking_args),
            ranlib_args: clone_strings(&self.ranlib_args),
        }
    }
}

impl Clone for Object {
    fn clone(&self) -> (r: Self)
        ensures
            r@ == self@,
    {
        Object {
            abs_path: self.abs_path.clone(),
            name: self.name.clone(),
            defined_symbols: clone_symbols(&self.defined_symbols),
            undefined_symbols: clone_symbols(&self.undefined_symbols),
        }
    }
}

/// A link script: the script's path paired with the target it produces.
/// A collection's `scripts` sequence enumerates all targets of the build.
pub struct LinkScript {
    pub abs_path: String,
    pub target: Target,
}

pub ghost struct LinkScriptView {
    pub abs_path: Seq<char>,
    pub target: TargetView,
}

impl View for LinkScript {
    type V = LinkScriptView;

    open spec fn view(&self) -> LinkScriptView {
        LinkScriptView { abs_path: self.abs_path@, target: self.target@ }
    }
}

/// The targets produced by a sequence of link scripts, in order.
pub open spec fn script_targets(ss: Seq<LinkScript>) -> Seq<TargetView> {
    ss.map_values(|s: LinkScript| s@.target)
}

/// The whole build description handed across the data-loading boundary.
pub struct Collection {
    pub objects: Vec<Object>,
    pub scripts: Vec<LinkScript>,
    pub compile: Vec<String>,
}

/// A fatal condition of the resolver or the symbol collector.
#[derive(Debug)]
pub enum TraceError {
    /// The requested target name is absent from the target index.
    UnknownTarget(String),
    /// A target's object-file dependency has no entry in the object index.
    MissingObjectReference(String),
}

impl TraceError {
    /// A human-readable description of the condition.
    pub fn message(&self) -> (r: String)
        ensures
            self is UnknownTarget ==> r@ == "target does not exists: "@ + self->UnknownTarget_0@,
            self is MissingObjectReference ==> r@ == "missing object reference: "@
                + self->MissingObjectReference_0@,
    {
        match self {
            TraceError::UnknownTarget(name) => {
                let mut m = String::new();
                m.append("target does not exists: ");
                m.append(name.as_str());
                proof {
                    assert(m@ =~= "target does not exists: "@ + name@);
                }
                m
            },
            TraceError::MissingObjectReference(path) => {
                let mut m = String::new();
                m.append("missing object reference: ");
                m.append(path.as_str());
                proof {
                    assert(m@ =~= "missing object reference: "@ + path@);
                }
                m
            },
        }
    }
}

} // verus!
