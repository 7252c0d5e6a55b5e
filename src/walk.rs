use vstd::prelude::*;
use vstd::string::StringExecFns;

use crate::model::{is_public, spec_is_public, DefKind, DefStore, Definition, Violation};
use crate::surface_map::SurfaceMap;

verus! {

/// What the walker does at one point of the traversal: register a path, or
/// stop on a violation of the store's contract.
pub enum Step {
    Register(Seq<char>, usize),
    Fault(Violation),
}

/// Separator between the names of a path.
pub open spec fn sep() -> Seq<char> {
    seq![':', ':']
}

/// Path of a definition named `name` inside the container at `prefix`.
pub open spec fn join(prefix: Seq<char>, name: Seq<char>) -> Seq<char> {
    prefix + sep() + name
}

/// Number of containers not currently being expanded.
pub open spec fn count_unmarked(m: Seq<bool>) -> nat
    decreases m.len(),
{
    if m.len() == 0 {
        0
    } else {
        count_unmarked(m.drop_last()) + if m.last() {
            0nat
        } else {
            1nat
        }
    }
}

pub proof fn lemma_mark_decreases(m: Seq<bool>, i: int)
    requires
        0 <= i < m.len(),
        !m[i],
    ensures
        count_unmarked(m.update(i, true)) + 1 == count_unmarked(m),
    decreases m.len(),
{
    let m2 = m.update(i, true);
    if i == m.len() - 1 {
        assert(m2.drop_last() =~= m.drop_last());
    } else {
        assert(m2.drop_last() =~= m.drop_last().update(i, true));
        lemma_mark_decreases(m.drop_last(), i);
    }
}

/// The steps of expanding module `id`, reached under `path`, while the
/// containers marked in `marks` are being expanded above it: the module
/// itself is registered, then each of its children in order.
pub open spec fn visit_steps(s: Seq<Definition>, id: usize, path: Seq<char>, marks: Seq<bool>) -> Seq<Step>
    decreases count_unmarked(marks), 0nat,
    via visit_steps_decreases
{
    if id < s.len() && marks.len() == s.len() && !marks[id as int] {
        seq![Step::Register(path, id)] + child_steps(s, id, path, marks.update(id as int, true), 0)
    } else {
        Seq::empty()
    }
}

#[via_fn]
proof fn visit_steps_decreases(s: Seq<Definition>, id: usize, path: Seq<char>, marks: Seq<bool>) {
    if id < s.len() && marks.len() == s.len() && !marks[id as int] {
        lemma_mark_decreases(marks, id as int);
    }
}

/// The steps for the children of `parent` from position `i` on. A child
/// that does not resolve is a fault; one that is not public contributes
/// nothing; a public module that is not being expanded is expanded; any
/// other public child (a leaf, or a module already being expanded above)
/// is registered without descending.
pub open spec fn child_steps(s: Seq<Definition>, parent: usize, path: Seq<char>, marks: Seq<bool>, i: nat) -> Seq<Step>
    decreases count_unmarked(marks), s[parent as int].children@.len() - i + 1,
{
    if parent < s.len() && i < s[parent as int].children@.len() {
        let c = s[parent as int].children@[i as int];
        child_piece(s, c, path, marks) + child_steps(s, parent, path, marks, i + 1)
    } else {
        Seq::empty()
    }
}

/// The steps that one child contributes.
pub open spec fn child_piece(s: Seq<Definition>, c: usize, path: Seq<char>, marks: Seq<bool>) -> Seq<Step>
    decreases count_unmarked(marks), 1nat,
{
    if c >= s.len() {
        seq![Step::Fault(Violation::Unresolved(c))]
    } else if !spec_is_public(s[c as int].vis) {
        Seq::empty()
    } else if s[c as int].kind == DefKind::Module && !marks[c as int] {
        visit_steps(s, c, join(path, s[c as int].name@), marks)
    } else {
        seq![Step::Register(join(path, s[c as int].name@), c)]
    }
}

/// No container is being expanded.
pub open spec fn no_marks(n: nat) -> Seq<bool> {
    Seq::new(n, |j: int| false)
}

/// The steps for one selected root: it must resolve and be a module, and is
/// then expanded under its own name.
pub open spec fn root_steps(s: Seq<Definition>, r: usize) -> Seq<Step> {
    if r >= s.len() {
        seq![Step::Fault(Violation::Unresolved(r))]
    } else if s[r as int].kind != DefKind::Module {
        seq![Step::Fault(Violation::NotContainer(r))]
    } else {
        visit_steps(s, r, s[r as int].name@, no_marks(s.len()))
    }
}

/// The steps for all selected roots, in order.
pub open spec fn roots_steps(s: Seq<Definition>, roots: Seq<usize>) -> Seq<Step>
    decreases roots.len(),
{
    if roots.len() == 0 {
        Seq::empty()
    } else {
        roots_steps(s, roots.drop_last()) + root_steps(s, roots.last())
    }
}

/// The first fault among the steps, if any.
pub open spec fn first_fault(steps: Seq<Step>) -> Option<Violation>
    decreases steps.len(),
{
    if steps.len() == 0 {
        None
    } else {
        match steps[0] {
            Step::Fault(v) => Some(v),
            Step::Register(_, _) => first_fault(steps.drop_first()),
        }
    }
}

/// The map that the registrations among the steps build from `m`; a later
/// registration of a path replaces an earlier one.
pub open spec fn apply_steps(m: Map<Seq<char>, usize>, steps: Seq<Step>) -> Map<Seq<char>, usize>
    decreases steps.len(),
{
    if steps.len() == 0 {
        m
    } else {
        match steps[0] {
            Step::Register(p, id) => apply_steps(m.insert(p, id), steps.drop_first()),
            Step::Fault(_) => apply_steps(m, steps.drop_first()),
        }
    }
}

/// The surface of `s` from `roots`: the first contract violation met, or
/// else the map of every registered path.
pub open spec fn surface(s: Seq<Definition>, roots: Seq<usize>) -> Result<Map<Seq<char>, usize>, Violation> {
    let st = roots_steps(s, roots);
    match first_fault(st) {
        Some(v) => Err(v),
        None => Ok(apply_steps(Map::empty(), st)),
    }
}

pub proof fn lemma_steps_concat(m: Map<Seq<char>, usize>, a: Seq<Step>, b: Seq<Step>)
    ensures
        first_fault(a + b) == (if first_fault(a) is Some {
            first_fault(a)
        } else {
            first_fault(b)
        }),
        first_fault(a) is None ==> apply_steps(m, a + b) == apply_steps(apply_steps(m, a), b),
    decreases a.len(),
{
    if a.len() == 0 {
        assert(a + b =~= b);
    } else {
        assert((a + b).drop_first() =~= a.drop_first() + b);
        match a[0] {
            Step::Register(p, id) => {
                lemma_steps_concat(m.insert(p, id), a.drop_first(), b);
            },
            Step::Fault(_) => {},
        }
    }
}

/// Expands module `id` under `path`, registering into `out`. On a fault the
/// content of `out` is unspecified.
fn visit(
    defs: &Vec<Definition>,
    id: usize,
    path: String,
    marks: &mut Vec<bool>,
    out: &mut SurfaceMap,
) -> (r: Result<(), Violation>)
    requires
        id < defs@.len(),
        old(marks)@.len() == defs@.len(),
        !old(marks)@[id as int],
        old(out).wf(),
    ensures
        final(marks)@ == old(marks)@,
        final(out).wf(),
        match r {
            Ok(()) => first_fault(visit_steps(defs@, id, path@, old(marks)@)) is None
                && final(out)@ == apply_steps(old(out)@, visit_steps(defs@, id, path@, old(marks)@)),
            Err(v) => first_fault(visit_steps(defs@, id, path@, old(marks)@)) == Some(v),
        },
    decreases count_unmarked(old(marks)@),
{
    let ghost s = defs@;
    let ghost m0 = marks@;
    let ghost out0 = out@;
    out.insert(path.clone(), id);
    marks.set(id, true);
    let ghost m1 = marks@;
    proof {
        lemma_mark_decreases(m0, id as int);
        reveal_strlit("::");
        let all = visit_steps(s, id, path@, m0);
        assert(all.drop_first() =~= child_steps(s, id, path@, m1, 0));
        assert(m1 =~= m0.update(id as int, true));
        assert(all[0] == Step::Register(path@, id));
    }
    let ghost out1 = out@;
    let n = defs[id].children.len();
    let mut i: usize = 0;
    while i < n
        invariant
            s == defs@,
            id < s.len(),
            n == s[id as int].children@.len(),
            0 <= i <= n,
            marks@ == m1,
            m1 == m0.update(id as int, true),
            !m0[id as int],
            m1.len() == s.len(),
            m0.len() == s.len(),
            m0 == old(marks)@,
            out0 == old(out)@,
            first_fault(visit_steps(s, id, path@, m0)) == first_fault(child_steps(s, id, path@, m1, 0)),
            apply_steps(out0, visit_steps(s, id, path@, m0)) == apply_steps(out1, child_steps(s, id, path@, m1, 0)),
            count_unmarked(m1) < count_unmarked(m0),
            count_unmarked(m0) == count_unmarked(old(marks)@),
            out.wf(),
            first_fault(child_steps(s, id, path@, m1, 0)) == first_fault(child_steps(s, id, path@, m1, i as nat)),
            first_fault(child_steps(s, id, path@, m1, i as nat)) is None ==> apply_steps(out1, child_steps(s, id, path@, m1, 0))
                == apply_steps(out@, child_steps(s, id, path@, m1, i as nat)),
        decreases n - i,
    {
        let c = defs[id].children[i];
        let ghost piece = child_piece(s, c, path@, m1);
        let ghost rest = child_steps(s, id, path@, m1, (i + 1) as nat);
        let ghost out_before = out@;
        proof {
            lemma_steps_concat(out@, piece, rest);
            assert(child_steps(s, id, path@, m1, i as nat) == piece + rest);
        }
        if c >= defs.len() {
            marks.set(id, false);
            proof {
                assert(marks@ =~= m0);
            }
            return Err(Violation::Unresolved(c));
        }
        let d = &defs[c];
        if is_public(d.vis) {
            let mut p = path.clone();
            p.append("::");
            p.append(d.name.as_str());
            proof {
                reveal_strlit("::");
                assert(p@ =~= join(path@, s[c as int].name@));
            }
            if d.kind == DefKind::Module && !marks[c] {
                let r = visit(defs, c, p, marks, out);
                match r {
                    Ok(()) => {},
                    Err(v) => {
                        marks.set(id, false);
                        proof {
                            assert(marks@ =~= m0);
                        }
                        return Err(v);
                    },
                }
            } else {
                let ghost before = out@;
                out.insert(p, c);
                proof {
                    assert(piece =~= seq![Step::Register(join(path@, s[c as int].name@), c)]);
                    assert(piece.drop_first().len() == 0);
                    assert(first_fault(piece.drop_first()) is None);
                    assert(apply_steps(before, piece) == apply_steps(before.insert(join(path@, s[c as int].name@), c), piece.drop_first()));
                }
            }
        } else {
            proof {
                assert(piece.len() == 0);
            }
        }
        proof {
            assert(first_fault(piece) is None);
            assert(apply_steps(out_before, piece) == out@);
        }
        i = i + 1;
    }
    marks.set(id, false);
    proof {
        assert(marks@ =~= m0);
    }
    Ok(())
}

/// Walks `store` from each of `roots` in order and returns the surface:
/// every path registered on the way with its identity, or the first
/// violation of the store's contract that the walk meets.
pub fn extract_surface(store: &DefStore, roots: &Vec<usize>) -> (r: Result<SurfaceMap, Violation>)
    ensures
        match r {
            Ok(m) => m.wf() && surface(store.defs@, roots@) == Ok::<Map<Seq<char>, usize>, Violation>(m@),
            Err(v) => surface(store.defs@, roots@) == Err::<Map<Seq<char>, usize>, Violation>(v),
        },
{
    let defs = &store.defs;
    let ghost s = defs@;
    let n = defs.len();
    let mut marks: Vec<bool> = Vec::new();
    let mut j: usize = 0;
    while j < n
        invariant
            0 <= j <= n,
            marks@ =~= no_marks(j as nat),
        decreases n - j,
    {
        marks.push(false);
        j = j + 1;
    }
    let mut out = SurfaceMap::new();
    let mut i: usize = 0;
    while i < roots.len()
        invariant
            s == defs@,
            s == store.defs@,
            n == s.len(),
            0 <= i <= roots@.len(),
            marks@ == no_marks(n as nat),
            out.wf(),
            first_fault(roots_steps(s, roots@.take(i as int))) is None,
            out@ == apply_steps(Map::empty(), roots_steps(s, roots@.take(i as int))),
        decreases roots@.len() - i,
    {
        let r = roots[i];
        let ghost done = roots_steps(s, roots@.take(i as int));
        let ghost piece = root_steps(s, r);
        proof {
            assert(roots@.take(i as int + 1).drop_last() =~= roots@.take(i as int));
            lemma_steps_concat(Map::empty(), done, piece);
            assert(roots@.take(i as int + 1).last() == r);
            assert(roots_steps(s, roots@.take(i as int + 1)) == done + piece);
        }
        if r >= n {
            proof {
                assert(first_fault(piece) == Some(Violation::Unresolved(r)));
                lemma_fault_stays(s, roots@, i as int + 1);
                assert(first_fault(roots_steps(s, roots@)) == Some(Violation::Unresolved(r)));
                assert(surface(s, roots@) == Err::<Map<Seq<char>, usize>, Violation>(Violation::Unresolved(r)));
            }
            return Err(Violation::Unresolved(r));
        }
        if defs[r].kind != DefKind::Module {
            proof {
                assert(first_fault(piece) == Some(Violation::NotContainer(r)));
                lemma_fault_stays(s, roots@, i as int + 1);
            }
            return Err(Violation::NotContainer(r));
        }
        let res = visit(defs, r, defs[r].name.clone(), &mut marks, &mut out);
        proof {
            assert(roots@.take(i as int + 1).last() == r);
        }
        match res {
            Ok(()) => {},
            Err(v) => {
                proof {
                    lemma_fault_stays(s, roots@, i as int + 1);
                }
                return Err(v);
            },
        }
        i = i + 1;
    }
    proof {
        assert(roots@.take(roots@.len() as int) =~= roots@);
    }
    Ok(out)
}

/// Once the walk of a prefix of the roots has met a fault, the first fault
/// of the whole walk is that one.
proof fn lemma_fault_stays(s: Seq<Definition>, roots: Seq<usize>, k: int)
    requires
        0 <= k <= roots.len(),
        first_fault(roots_steps(s, roots.take(k))) is Some,
    ensures
        first_fault(roots_steps(s, roots)) == first_fault(roots_steps(s, roots.take(k))),
    decreases roots.len() - k,
{
    if k == roots.len() {
        assert(roots.take(k) =~= roots);
    } else {
        assert(roots.take(k + 1).drop_last() =~= roots.take(k));
        lemma_steps_concat(Map::empty(), roots_steps(s, roots.take(k)), root_steps(s, roots[k]));
        assert(roots.take(k + 1).last() == roots[k]);
        lemma_fault_stays(s, roots, k + 1);
    }
}

} // verus!
