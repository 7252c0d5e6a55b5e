use vstd::prelude::*;

verus! {

/// What a definition is; decides whether the walker descends into it.
#[derive(Clone, Copy, Debug, PartialEq, Eq, Structural)]
pub enum DefKind {
    Module,
    Function,
    Type,
    Trait,
    Constant,
    Implementation,
    Other,
}

/// Access scope of a definition. `Restricted` carries the identity of the
/// scope it is limited to.
#[derive(Clone, Copy, Debug, PartialEq, Eq, Structural)]
pub enum Visibility {
    Public,
    Restricted(usize),
    Private,
}

/// One node of the namespace graph. `children` lists the identities bound
/// inside a container, in declaration order.
#[derive(Clone, Debug)]
pub struct Definition {
    pub kind: DefKind,
    pub vis: Visibility,
    pub name: String,
    pub children: Vec<usize>,
}

/// The resolved namespace graph: the identity of a definition is its index.
#[derive(Clone, Debug)]
pub struct DefStore {
    pub defs: Vec<Definition>,
}

/// Why a traversal was abandoned.
#[derive(Clone, Copy, Debug, PartialEq, Eq, Structural)]
pub enum Violation {
    /// An identity handed to the walker does not resolve in the store.
    Unresolved(usize),
    /// A selected root is not a module.
    NotContainer(usize),
}

/// Only unconditionally public definitions belong to the external surface.
pub open spec fn spec_is_public(v: Visibility) -> bool {
    v is Public
}

/// Visibility filter: true exactly for `Public`.
pub fn is_public(v: Visibility) -> (r: bool)
    ensures
        r == spec_is_public(v),
{
    match v {
        Visibility::Public => true,
        _ => false,
    }
}

impl Definition {
    pub fn new(kind: DefKind, vis: Visibility, name: String, children: Vec<usize>) -> (r: Definition)
        ensures
            r.kind == kind,
            r.vis == vis,
            r.name@ == name@,
            r.children@ == children@,
    {
        Definition { kind, vis, name, children }
    }
}

impl DefStore {
    pub fn new() -> (r: DefStore)
        ensures
            r.defs@.len() == 0,
    {
        DefStore { defs: Vec::new() }
    }

    /// Adds a definition and returns the identity it received.
    pub fn add(&mut self, d: Definition) -> (id: usize)
        requires
            old(self).defs@.len() < usize::MAX,
        ensures
            id == old(self).defs@.len(),
            final(self).defs@ == old(self).defs@.push(d),
    {
        let id = self.defs.len();
        self.defs.push(d);
        id
    }

    pub fn len(&self) -> (r: usize)
        ensures
            r == self.defs@.len(),
    {
        self.defs.len()
    }
}

} // verus!
