use vstd::prelude::*;

use crate::model::{DefStore, Violation};
use crate::surface_map::SurfaceMap;
use crate::walk::{extract_surface, surface};

verus! {

/// How a dependency's root came into the compilation session.
#[derive(Clone, Copy, Debug, PartialEq, Eq, Structural)]
pub enum Introduction {
    /// Named by a crate declaration in the glue crate.
    Declared,
    /// Reached only through a path.
    ByPath,
}

/// A namespace root known to the session, with what decides whether it is
/// the one under analysis.
#[derive(Clone, Debug)]
pub struct CrateCandidate {
    pub root: usize,
    pub introduced: Option<Introduction>,
    pub name: String,
}

/// Entry point that the compiler driver hands the resolved program to.
/// It analyses the dependency that the glue crate declares under `target`.
pub struct CompilerInterface {
    pub target: String,
}

/// Name under which the glue crate declares the crate being analysed.
pub open spec fn default_target() -> Seq<char> {
    seq!['c', 'u', 'r', 'r', 'e', 'n', 't']
}

/// A candidate is analysed when it was declared (not merely reached by a
/// path) and carries the target name.
pub open spec fn spec_selected(target: Seq<char>, c: CrateCandidate) -> bool {
    c.introduced == Some(Introduction::Declared) && c.name@ == target
}

/// Roots of the selected candidates, in order.
pub open spec fn selected_roots(target: Seq<char>, cs: Seq<CrateCandidate>) -> Seq<usize>
    decreases cs.len(),
{
    if cs.len() == 0 {
        Seq::empty()
    } else {
        let pre = selected_roots(target, cs.drop_last());
        if spec_selected(target, cs.last()) {
            pre.push(cs.last().root)
        } else {
            pre
        }
    }
}

impl CompilerInterface {
    pub fn new() -> (r: CompilerInterface)
        ensures
            r.target@ == default_target(),
    {
        let target = String::from_str("current");
        proof {
            reveal_strlit("current");
        }
        CompilerInterface { target }
    }

    /// Whether `c` is the crate under analysis.
    pub fn is_selected(&self, c: &CrateCandidate) -> (r: bool)
        ensures
            r == spec_selected(self.target@, *c),
    {
        match c.introduced {
            Some(Introduction::Declared) => c.name == self.target,
            _ => false,
        }
    }

    /// Roots of the candidates that are under analysis, in order.
    pub fn select_roots(&self, cs: &Vec<CrateCandidate>) -> (r: Vec<usize>)
        ensures
            r@ == selected_roots(self.target@, cs@),
    {
        let mut out: Vec<usize> = Vec::new();
        let mut i: usize = 0;
        while i < cs.len()
            invariant
                0 <= i <= cs@.len(),
                out@ == selected_roots(self.target@, cs@.take(i as int)),
            decreases cs@.len() - i,
        {
            proof {
                assert(cs@.take(i as int + 1).drop_last() =~= cs@.take(i as int));
            }
            if self.is_selected(&cs[i]) {
                out.push(cs[i].root);
            }
            i = i + 1;
        }
        proof {
            assert(cs@.take(cs@.len() as int) =~= cs@);
        }
        out
    }

    /// The surface of the crates under analysis among `cs`.
    pub fn analyze(&self, store: &DefStore, cs: &Vec<CrateCandidate>) -> (r: Result<SurfaceMap, Violation>)
        ensures
            match r {
                Ok(m) => m.wf() && surface(store.defs@, selected_roots(self.target@, cs@)) == Ok::<Map<Seq<char>, usize>, Violation>(m@),
                Err(v) => surface(store.defs@, selected_roots(self.target@, cs@)) == Err::<Map<Seq<char>, usize>, Violation>(v),
            },
    {
        let roots = self.select_roots(cs);
        extract_surface(store, &roots)
    }
}

} // verus!
