use vstd::prelude::*;

use crate::model::{spec_is_public, DefKind, Definition};
use crate::walk::{
    apply_steps, first_fault, lemma_steps_concat, child_piece, child_steps, count_unmarked, join, lemma_mark_decreases, no_marks,
    root_steps, roots_steps, surface, visit_steps, Step,
};

verus! {

/// `chain` runs from its first element to its last, each step from a module
/// to one of its children, and every element resolves and is public.
pub open spec fn is_public_chain(s: Seq<Definition>, chain: Seq<usize>) -> bool {
    &&& chain.len() >= 1
    &&& forall|k: int| 0 <= k < chain.len() ==> #[trigger] chain[k] < s.len() && spec_is_public(s[chain[k] as int].vis)
    &&& forall|k: int|
        0 <= k < chain.len() - 1 ==> s[#[trigger] chain[k] as int].kind == DefKind::Module
            && s[chain[k] as int].children@.contains(chain[k + 1])
}

/// The path reached from `prefix` by descending through `rest` by name.
pub open spec fn chain_path(s: Seq<Definition>, prefix: Seq<char>, rest: Seq<usize>) -> Seq<char>
    decreases rest.len(),
{
    if rest.len() == 0 {
        prefix
    } else {
        chain_path(s, join(prefix, s[rest[0] as int].name@), rest.drop_first())
    }
}

/// The path of a chain that starts at a root: the root's name, then the
/// names of the rest joined in order.
pub open spec fn path_of(s: Seq<Definition>, chain: Seq<usize>) -> Seq<char> {
    chain_path(s, s[chain[0] as int].name@, chain.drop_first())
}

/// Some step registers `p` as `d`.
pub open spec fn registered(steps: Seq<Step>, p: Seq<char>, d: usize) -> bool {
    exists|j: int| 0 <= j < steps.len() && steps[j] == Step::Register(p, d)
}

/// `chain` starts at `start`, ends at `d`, is public throughout, and its
/// names lead from `prefix` to `p`.
pub open spec fn witnesses(s: Seq<Definition>, chain: Seq<usize>, start: usize, prefix: Seq<char>, p: Seq<char>, d: usize) -> bool {
    &&& is_public_chain(s, chain)
    &&& chain[0] == start
    &&& chain.last() == d
    &&& chain_path(s, prefix, chain.drop_first()) == p
}

proof fn lemma_registered_concat(a: Seq<Step>, b: Seq<Step>, p: Seq<char>, d: usize)
    ensures
        registered(a + b, p, d) <==> registered(a, p, d) || registered(b, p, d),
{
    if registered(a + b, p, d) {
        let j = choose|j: int| 0 <= j < (a + b).len() && (a + b)[j] == Step::Register(p, d);
        if j >= a.len() {
            assert(b[j - a.len()] == Step::Register(p, d));
        }
    }
    if registered(a, p, d) {
        let j = choose|j: int| 0 <= j < a.len() && a[j] == Step::Register(p, d);
        assert((a + b)[j] == Step::Register(p, d));
    }
    if registered(b, p, d) {
        let j = choose|j: int| 0 <= j < b.len() && b[j] == Step::Register(p, d);
        assert((a + b)[a.len() + j] == Step::Register(p, d));
    }
}

/// Prepends a public module to a chain that starts at one of its children.
proof fn lemma_extend_witness(
    s: Seq<Definition>,
    parent: usize,
    c: usize,
    prefix: Seq<char>,
    chain: Seq<usize>,
    p: Seq<char>,
    d: usize,
)
    requires
        parent < s.len(),
        s[parent as int].kind == DefKind::Module,
        spec_is_public(s[parent as int].vis),
        s[parent as int].children@.contains(c),
        witnesses(s, chain, c, join(prefix, s[c as int].name@), p, d),
    ensures
        witnesses(s, seq![parent] + chain, parent, prefix, p, d),
{
    let ch = seq![parent] + chain;
    assert(ch.drop_first() =~= chain);
    assert forall|k: int| 0 <= k < ch.len() implies #[trigger] ch[k] < s.len() && spec_is_public(s[ch[k] as int].vis) by {
        if k > 0 {
            assert(ch[k] == chain[k - 1]);
        }
    }
    assert forall|k: int| 0 <= k < ch.len() - 1 implies s[#[trigger] ch[k] as int].kind == DefKind::Module
        && s[ch[k] as int].children@.contains(ch[k + 1]) by {
        if k > 0 {
            assert(ch[k] == chain[k - 1]);
            assert(ch[k + 1] == chain[k]);
        }
    }
}

proof fn lemma_visit_sound(s: Seq<Definition>, id: usize, path: Seq<char>, marks: Seq<bool>)
    requires
        id < s.len(),
        s[id as int].kind == DefKind::Module,
        spec_is_public(s[id as int].vis),
    ensures
        forall|p: Seq<char>, d: usize|
            #[trigger] registered(visit_steps(s, id, path, marks), p, d) ==> exists|chain: Seq<usize>|
                witnesses(s, chain, id, path, p, d),
    decreases count_unmarked(marks), 0nat,
{
    if id < s.len() && marks.len() == s.len() && !marks[id as int] {
        let m1 = marks.update(id as int, true);
        lemma_mark_decreases(marks, id as int);
        lemma_child_sound(s, id, path, m1, 0);
        let head = seq![Step::Register(path, id)];
        let rest = child_steps(s, id, path, m1, 0);
        assert forall|p: Seq<char>, d: usize|
            #[trigger] registered(visit_steps(s, id, path, marks), p, d) implies exists|chain: Seq<usize>|
                witnesses(s, chain, id, path, p, d) by {
            lemma_registered_concat(head, rest, p, d);
            if registered(head, p, d) {
                let chain = seq![id];
                assert(chain.drop_first().len() == 0);
                assert(witnesses(s, chain, id, path, p, d));
            }
        }
    }
}

proof fn lemma_child_sound(s: Seq<Definition>, parent: usize, path: Seq<char>, marks: Seq<bool>, i: nat)
    requires
        parent < s.len(),
        s[parent as int].kind == DefKind::Module,
        spec_is_public(s[parent as int].vis),
    ensures
        forall|p: Seq<char>, d: usize|
            #[trigger] registered(child_steps(s, parent, path, marks, i), p, d) ==> exists|chain: Seq<usize>|
                witnesses(s, chain, parent, path, p, d),
    decreases count_unmarked(marks), s[parent as int].children@.len() - i + 1,
{
    if i < s[parent as int].children@.len() {
        let c = s[parent as int].children@[i as int];
        let piece = child_piece(s, c, path, marks);
        let rest = child_steps(s, parent, path, marks, i + 1);
        lemma_child_sound(s, parent, path, marks, i + 1);
        let cpath = join(path, s[c as int].name@);
        if c < s.len() && spec_is_public(s[c as int].vis) && s[c as int].kind == DefKind::Module && !marks[c as int] {
            lemma_visit_sound(s, c, cpath, marks);
        }
        assert forall|p: Seq<char>, d: usize|
            #[trigger] registered(child_steps(s, parent, path, marks, i), p, d) implies exists|chain: Seq<usize>|
                witnesses(s, chain, parent, path, p, d) by {
            lemma_registered_concat(piece, rest, p, d);
            if registered(piece, p, d) {
                let j = choose|j: int| 0 <= j < piece.len() && piece[j] == Step::Register(p, d);
                assert(s[parent as int].children@.contains(c));
                if c < s.len() && spec_is_public(s[c as int].vis) && s[c as int].kind == DefKind::Module && !marks[c as int] {
                    assert(piece == visit_steps(s, c, cpath, marks));
                    assert(registered(visit_steps(s, c, cpath, marks), p, d));
                    let chain = choose|chain: Seq<usize>| witnesses(s, chain, c, cpath, p, d);
                    lemma_extend_witness(s, parent, c, path, chain, p, d);
                } else if c >= s.len() {
                    assert(piece[j] == Step::Fault(crate::model::Violation::Unresolved(c)));
                } else if !spec_is_public(s[c as int].vis) {
                    assert(piece.len() == 0);
                } else {
                    assert(piece =~= seq![Step::Register(cpath, c)]);
                    assert(piece[j] == Step::Register(cpath, c));
                    let chain = seq![c];
                    assert(chain.drop_first().len() == 0);
                    assert(witnesses(s, chain, c, cpath, p, d));
                    lemma_extend_witness(s, parent, c, path, chain, p, d);
                }
            }
        }
    }
}


/// A path in the map that the steps build from `m` was registered by one of
/// them, as the identity it maps to, or was already in `m`.
proof fn lemma_apply_origin(m: Map<Seq<char>, usize>, steps: Seq<Step>, p: Seq<char>)
    requires
        apply_steps(m, steps).contains_key(p),
    ensures
        registered(steps, p, apply_steps(m, steps)[p]) || (m.contains_key(p) && apply_steps(m, steps)[p] == m[p]),
    decreases steps.len(),
{
    if steps.len() > 0 {
        let tail = steps.drop_first();
        assert(steps =~= seq![steps[0]] + tail);
        let r = apply_steps(m, steps)[p];
        match steps[0] {
            Step::Register(q, id) => {
                lemma_apply_origin(m.insert(q, id), tail, p);
                lemma_registered_concat(seq![steps[0]], tail, p, r);
                if q == p && !registered(tail, p, r) {
                    assert(seq![steps[0]][0] == Step::Register(p, r));
                }
            },
            Step::Fault(_) => {
                lemma_apply_origin(m, tail, p);
                lemma_registered_concat(seq![steps[0]], tail, p, r);
            },
        }
    }
}

/// A root is public wherever it resolves.
pub open spec fn roots_public(s: Seq<Definition>, roots: Seq<usize>) -> bool {
    forall|k: int| 0 <= k < roots.len() && #[trigger] roots[k] < s.len() ==> spec_is_public(s[roots[k] as int].vis)
}

/// `chain` is a public chain from one of `roots` to `d`, named `p`.
pub open spec fn reaches(s: Seq<Definition>, roots: Seq<usize>, chain: Seq<usize>, p: Seq<char>, d: usize) -> bool {
    &&& is_public_chain(s, chain)
    &&& roots.contains(chain[0])
    &&& chain.last() == d
    &&& path_of(s, chain) == p
}

proof fn lemma_roots_sound(s: Seq<Definition>, roots: Seq<usize>)
    requires
        roots_public(s, roots),
    ensures
        forall|p: Seq<char>, d: usize|
            #[trigger] registered(roots_steps(s, roots), p, d) ==> exists|chain: Seq<usize>| reaches(s, roots, chain, p, d),
    decreases roots.len(),
{
    if roots.len() > 0 {
        let pre = roots.drop_last();
        let r = roots.last();
        assert(roots_public(s, pre)) by {
            assert forall|k: int| 0 <= k < pre.len() && #[trigger] pre[k] < s.len() implies spec_is_public(s[pre[k] as int].vis) by {
                assert(pre[k] == roots[k]);
            }
        }
        lemma_roots_sound(s, pre);
        if r < s.len() && s[r as int].kind == DefKind::Module {
            assert(roots[roots.len() - 1] == r);
            lemma_visit_sound(s, r, s[r as int].name@, no_marks(s.len()));
        }
        assert forall|p: Seq<char>, d: usize|
            #[trigger] registered(roots_steps(s, roots), p, d) implies exists|chain: Seq<usize>| reaches(s, roots, chain, p, d) by {
            lemma_registered_concat(roots_steps(s, pre), root_steps(s, r), p, d);
            if registered(roots_steps(s, pre), p, d) {
                let chain = choose|chain: Seq<usize>| reaches(s, pre, chain, p, d);
                let k = choose|k: int| 0 <= k < pre.len() && pre[k] == chain[0];
                assert(roots[k] == chain[0]);
                assert(reaches(s, roots, chain, p, d));
            } else {
                let piece = root_steps(s, r);
                let j = choose|j: int| 0 <= j < piece.len() && piece[j] == Step::Register(p, d);
                if r >= s.len() {
                    assert(piece[j] == Step::Fault(crate::model::Violation::Unresolved(r)));
                } else if s[r as int].kind != DefKind::Module {
                    assert(piece[j] == Step::Fault(crate::model::Violation::NotContainer(r)));
                } else {
                    assert(registered(visit_steps(s, r, s[r as int].name@, no_marks(s.len())), p, d));
                    let chain = choose|chain: Seq<usize>| witnesses(s, chain, r, s[r as int].name@, p, d);
                    assert(roots[roots.len() - 1] == chain[0]);
                    assert(reaches(s, roots, chain, p, d));
                }
            }
        }
    }
}

/// Soundness: every path in the surface is the name of a chain of public
/// definitions that starts at a selected root, descends from each module to
/// one of its children, and ends at the identity the path maps to.
pub proof fn surface_is_sound(s: Seq<Definition>, roots: Seq<usize>, p: Seq<char>)
    requires
        roots_public(s, roots),
        surface(s, roots) is Ok,
        surface(s, roots)->Ok_0.contains_key(p),
    ensures
        exists|chain: Seq<usize>| reaches(s, roots, chain, p, surface(s, roots)->Ok_0[p]),
{
    let st = roots_steps(s, roots);
    lemma_apply_origin(Map::empty(), st, p);
    lemma_roots_sound(s, roots);
    assert(registered(st, p, surface(s, roots)->Ok_0[p]));
}


/// A child that is not public contributes no step to the walk of its
/// container: neither itself nor anything beneath it is registered there.
pub proof fn hidden_child_contributes_nothing(s: Seq<Definition>, c: usize, path: Seq<char>, marks: Seq<bool>)
    requires
        c < s.len(),
        !spec_is_public(s[c as int].vis),
    ensures
        child_piece(s, c, path, marks) == Seq::<Step>::empty(),
{
}

/// No path of the surface maps to a definition that is not public.
pub proof fn hidden_never_in_surface(s: Seq<Definition>, roots: Seq<usize>, p: Seq<char>)
    requires
        roots_public(s, roots),
        surface(s, roots) is Ok,
        surface(s, roots)->Ok_0.contains_key(p),
    ensures
        surface(s, roots)->Ok_0[p] < s.len(),
        spec_is_public(s[surface(s, roots)->Ok_0[p] as int].vis),
{
    surface_is_sound(s, roots, p);
    let chain = choose|chain: Seq<usize>| reaches(s, roots, chain, p, surface(s, roots)->Ok_0[p]);
    assert(chain[chain.len() - 1] < s.len());
}

/// A public child that is not a module is registered exactly once under its
/// container's path and is never descended into, whatever children the
/// store lists for it.
pub proof fn leaf_child_registers_once(s: Seq<Definition>, c: usize, path: Seq<char>, marks: Seq<bool>)
    requires
        c < s.len(),
        spec_is_public(s[c as int].vis),
        s[c as int].kind != DefKind::Module,
    ensures
        child_piece(s, c, path, marks) == seq![Step::Register(join(path, s[c as int].name@), c)],
{
}

/// Selecting no root gives the empty surface, not a violation.
pub proof fn no_roots_give_empty_surface(s: Seq<Definition>)
    ensures
        surface(s, Seq::empty()) == Ok::<Map<Seq<char>, usize>, crate::model::Violation>(Map::empty()),
{
}

pub open spec fn no_repeats(chain: Seq<usize>) -> bool {
    forall|i: int, j: int| 0 <= i < j < chain.len() ==> chain[i] != chain[j]
}

/// Any public chain can be cut down to one without repeats between the same
/// two ends.
proof fn lemma_shorten(s: Seq<Definition>, chain: Seq<usize>)
    requires
        is_public_chain(s, chain),
    ensures
        exists|c2: Seq<usize>|
            is_public_chain(s, c2) && c2[0] == chain[0] && c2.last() == chain.last() && no_repeats(c2),
    decreases chain.len(),
{
    if no_repeats(chain) {
        assert(is_public_chain(s, chain) && chain[0] == chain[0] && chain.last() == chain.last() && no_repeats(chain));
    } else {
        let (i, j) = choose|i: int, j: int| 0 <= i < j < chain.len() && chain[i] == chain[j];
        let c2 = chain.take(i + 1) + chain.skip(j + 1);
        assert(c2.len() == chain.len() - (j - i));
        assert forall|k: int| 0 <= k < c2.len() implies #[trigger] c2[k] < s.len() && spec_is_public(s[c2[k] as int].vis) by {
            if k <= i {
                assert(c2[k] == chain[k]);
            } else {
                assert(c2[k] == chain[k + j - i]);
            }
        }
        assert forall|k: int| 0 <= k < c2.len() - 1 implies s[#[trigger] c2[k] as int].kind == DefKind::Module
            && s[c2[k] as int].children@.contains(c2[k + 1]) by {
            if k < i {
                assert(c2[k] == chain[k]);
                assert(c2[k + 1] == chain[k + 1]);
            } else if k == i {
                assert(c2[k] == chain[j]);
                assert(c2[k + 1] == chain[j + 1]);
            } else {
                assert(c2[k] == chain[k + j - i]);
                assert(c2[k + 1] == chain[k + 1 + j - i]);
            }
        }
        assert(c2[0] == chain[0]);
        if j == chain.len() - 1 {
            assert(c2.last() == chain[i]);
        } else {
            assert(c2.last() == chain.last());
        }
        lemma_shorten(s, c2);
    }
}

/// What a child contributes is among the steps of every suffix of the
/// children that holds it.
proof fn lemma_piece_in_children(s: Seq<Definition>, parent: usize, path: Seq<char>, marks: Seq<bool>, i: nat, i0: nat, p: Seq<char>, d: usize)
    requires
        parent < s.len(),
        i <= i0 < s[parent as int].children@.len(),
        registered(child_piece(s, s[parent as int].children@[i0 as int], path, marks), p, d),
    ensures
        registered(child_steps(s, parent, path, marks, i), p, d),
    decreases i0 - i,
{
    let c = s[parent as int].children@[i as int];
    lemma_registered_concat(child_piece(s, c, path, marks), child_steps(s, parent, path, marks, i + 1), p, d);
    if i < i0 {
        lemma_piece_in_children(s, parent, path, marks, i + 1, i0, p, d);
    }
}

/// Expanding the start of a public chain without repeats, none of whose
/// elements is being expanded, registers the end of the chain.
proof fn lemma_visit_complete(s: Seq<Definition>, chain: Seq<usize>, path: Seq<char>, marks: Seq<bool>)
    requires
        is_public_chain(s, chain),
        no_repeats(chain),
        s[chain[0] as int].kind == DefKind::Module,
        marks.len() == s.len(),
        forall|k: int| 0 <= k < chain.len() ==> !marks[#[trigger] chain[k] as int],
    ensures
        exists|p: Seq<char>| registered(visit_steps(s, chain[0], path, marks), p, chain.last()),
    decreases chain.len(),
{
    let id = chain[0];
    assert(id < s.len() && !marks[id as int]);
    let m1 = marks.update(id as int, true);
    let head = seq![Step::Register(path, id)];
    let rest = child_steps(s, id, path, m1, 0);
    assert(visit_steps(s, id, path, marks) == head + rest);
    if chain.len() == 1 {
        assert(head[0] == Step::Register(path, chain.last()));
        lemma_registered_concat(head, rest, path, chain.last());
    } else {
        let c = chain[1];
        assert(s[chain[0] as int].children@.contains(chain[1]));
        let i0 = choose|i0: int| 0 <= i0 < s[id as int].children@.len() && s[id as int].children@[i0] == c;
        assert(c < s.len() && spec_is_public(s[c as int].vis));
        assert(chain[0] != chain[1]);
        assert(!marks[chain[1] as int]);
        assert(!m1[c as int]);
        let cpath = join(path, s[c as int].name@);
        if s[c as int].kind == DefKind::Module {
            let tail = chain.drop_first();
            assert forall|k: int| 0 <= k < tail.len() implies #[trigger] tail[k] < s.len() && spec_is_public(s[tail[k] as int].vis) by {
                assert(tail[k] == chain[k + 1]);
            }
            assert forall|k: int| 0 <= k < tail.len() - 1 implies s[#[trigger] tail[k] as int].kind == DefKind::Module
                && s[tail[k] as int].children@.contains(tail[k + 1]) by {
                assert(tail[k] == chain[k + 1]);
                assert(tail[k + 1] == chain[k + 2]);
            }
            assert forall|k: int| 0 <= k < tail.len() implies !m1[#[trigger] tail[k] as int] by {
                assert(tail[k] == chain[k + 1]);
                assert(chain[0] != chain[k + 1]);
            }
            lemma_mark_decreases(marks, id as int);
            lemma_visit_complete(s, tail, cpath, m1);
            let p = choose|p: Seq<char>| registered(visit_steps(s, c, cpath, m1), p, tail.last());
            assert(child_piece(s, c, path, m1) == visit_steps(s, c, cpath, m1));
            lemma_piece_in_children(s, id, path, m1, 0, i0 as nat, p, chain.last());
            lemma_registered_concat(head, rest, p, chain.last());
        } else {
            if chain.len() > 2 {
                assert(s[chain[1] as int].kind == DefKind::Module);
            }
            let piece = child_piece(s, c, path, m1);
            assert(piece =~= seq![Step::Register(cpath, c)]);
            assert(piece[0] == Step::Register(cpath, chain.last()));
            lemma_piece_in_children(s, id, path, m1, 0, i0 as nat, cpath, chain.last());
            lemma_registered_concat(head, rest, cpath, chain.last());
        }
    }
}


proof fn lemma_root_in_roots(s: Seq<Definition>, roots: Seq<usize>, k: int, p: Seq<char>, d: usize)
    requires
        0 <= k < roots.len(),
    ensures
        registered(root_steps(s, roots[k]), p, d) ==> registered(roots_steps(s, roots), p, d),
        first_fault(roots_steps(s, roots)) is None ==> first_fault(root_steps(s, roots[k])) is None,
    decreases roots.len(),
{
    let pre = roots.drop_last();
    lemma_registered_concat(roots_steps(s, pre), root_steps(s, roots.last()), p, d);
    lemma_steps_concat(Map::empty(), roots_steps(s, pre), root_steps(s, roots.last()));
    if k < roots.len() - 1 {
        assert(pre[k] == roots[k]);
        lemma_root_in_roots(s, pre, k, p, d);
    }
}

/// A path registered as `d` and as nothing else maps to `d`.
proof fn lemma_apply_registered(m: Map<Seq<char>, usize>, steps: Seq<Step>, p: Seq<char>, d: usize)
    requires
        registered(steps, p, d),
        forall|d2: usize| #[trigger] registered(steps, p, d2) ==> d2 == d,
    ensures
        apply_steps(m, steps).contains_key(p),
        apply_steps(m, steps)[p] == d,
    decreases steps.len(),
{
    let tail = steps.drop_first();
    assert(steps =~= seq![steps[0]] + tail);
    assert forall|d2: usize| #[trigger] registered(tail, p, d2) implies d2 == d by {
        lemma_registered_concat(seq![steps[0]], tail, p, d2);
    }
    lemma_registered_concat(seq![steps[0]], tail, p, d);
    let m1 = match steps[0] {
        Step::Register(q, id) => m.insert(q, id),
        Step::Fault(_) => m,
    };
    if registered(tail, p, d) {
        lemma_apply_registered(m1, tail, p, d);
    } else {
        let j = choose|j: int| 0 <= j < 1 && seq![steps[0]][j] == Step::Register(p, d);
        assert(steps[0] == Step::Register(p, d));
        assert forall|d2: usize| !#[trigger] registered(tail, p, d2) by {
            if registered(tail, p, d2) {
                assert(d2 == d);
            }
        }
        lemma_apply_untouched(m1, tail, p);
    }
}

/// A path that no step registers keeps the identity it had.
proof fn lemma_apply_untouched(m: Map<Seq<char>, usize>, steps: Seq<Step>, p: Seq<char>)
    requires
        m.contains_key(p),
        forall|d2: usize| !#[trigger] registered(steps, p, d2),
    ensures
        apply_steps(m, steps).contains_key(p),
        apply_steps(m, steps)[p] == m[p],
    decreases steps.len(),
{
    if steps.len() > 0 {
        let tail = steps.drop_first();
        assert(steps =~= seq![steps[0]] + tail);
        assert forall|d2: usize| !#[trigger] registered(tail, p, d2) by {
            lemma_registered_concat(seq![steps[0]], tail, p, d2);
        }
        match steps[0] {
            Step::Register(q, id) => {
                if q == p {
                    lemma_registered_concat(seq![steps[0]], tail, p, id);
                    assert(seq![steps[0]][0] == Step::Register(p, id));
                }
                lemma_apply_untouched(m.insert(q, id), tail, p);
            },
            Step::Fault(_) => {
                lemma_apply_untouched(m, tail, p);
            },
        }
    }
}

/// During the walk no path is registered as two different identities.
pub open spec fn paths_unambiguous(s: Seq<Definition>, roots: Seq<usize>) -> bool {
    forall|p: Seq<char>, d1: usize, d2: usize|
        #[trigger] registered(roots_steps(s, roots), p, d1) && #[trigger] registered(roots_steps(s, roots), p, d2)
            ==> d1 == d2
}

/// Completeness: every definition at the end of a public chain from a
/// selected root is the identity of some path of the surface, provided the
/// walk never gives one path two identities.
pub proof fn surface_is_complete(s: Seq<Definition>, roots: Seq<usize>, chain: Seq<usize>)
    requires
        surface(s, roots) is Ok,
        paths_unambiguous(s, roots),
        is_public_chain(s, chain),
        roots.contains(chain[0]),
    ensures
        exists|p: Seq<char>|
            surface(s, roots)->Ok_0.contains_key(p) && surface(s, roots)->Ok_0[p] == chain.last(),
{
    let st = roots_steps(s, roots);
    let r = chain[0];
    let k = choose|k: int| 0 <= k < roots.len() && roots[k] == r;
    assert(chain[0] < s.len());
    lemma_root_in_roots(s, roots, k, Seq::empty(), 0);
    if s[r as int].kind != DefKind::Module {
        assert(root_steps(s, r)[0] == Step::Fault(crate::model::Violation::NotContainer(r)));
        assert(false);
    }
    lemma_shorten(s, chain);
    let c2 = choose|c2: Seq<usize>|
        is_public_chain(s, c2) && c2[0] == chain[0] && c2.last() == chain.last() && no_repeats(c2);
    lemma_visit_complete(s, c2, s[r as int].name@, no_marks(s.len()));
    let p = choose|p: Seq<char>| registered(visit_steps(s, r, s[r as int].name@, no_marks(s.len())), p, chain.last());
    assert(root_steps(s, r) == visit_steps(s, r, s[r as int].name@, no_marks(s.len())));
    lemma_root_in_roots(s, roots, k, p, chain.last());
    assert(registered(st, p, chain.last()));
    assert forall|d2: usize| #[trigger] registered(st, p, d2) implies d2 == chain.last() by {
        assert(registered(st, p, chain.last()));
    }
    lemma_apply_registered(Map::empty(), st, p, chain.last());
    assert(surface(s, roots)->Ok_0 == apply_steps(Map::empty(), st));
    assert(surface(s, roots)->Ok_0.contains_key(p) && surface(s, roots)->Ok_0[p] == chain.last());
}


/// A public module that is already being expanded above is registered under
/// the new path, as an alias of the same identity, and not expanded again:
/// this is what ends the walk on a cycle of modules.
pub proof fn ancestor_module_not_reexpanded(s: Seq<Definition>, c: usize, path: Seq<char>, marks: Seq<bool>)
    requires
        c < s.len(),
        c < marks.len(),
        marks[c as int],
        spec_is_public(s[c as int].vis),
        s[c as int].kind == DefKind::Module,
    ensures
        child_piece(s, c, path, marks) == seq![Step::Register(join(path, s[c as int].name@), c)],
{
}

/// A public module that is not being expanded above is expanded under every
/// path that reaches it, so a module reached along two routes has each of
/// its children registered under both.
pub proof fn module_expanded_under_each_path(s: Seq<Definition>, c: usize, path: Seq<char>, marks: Seq<bool>)
    requires
        c < s.len(),
        marks.len() == s.len(),
        !marks[c as int],
        spec_is_public(s[c as int].vis),
        s[c as int].kind == DefKind::Module,
    ensures
        child_piece(s, c, path, marks) == seq![Step::Register(join(path, s[c as int].name@), c)]
            + child_steps(s, c, join(path, s[c as int].name@), marks.update(c as int, true), 0),
{
}

} // verus!
