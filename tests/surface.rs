use cargo_breaking::{
    extract_surface, is_public, CompilerInterface, CrateCandidate, DefKind, DefStore, Definition,
    Introduction, SurfaceMap, Violation, Visibility,
};
use cargo_breaking::DefKind::{Constant, Function, Implementation, Module, Other, Trait, Type};
use cargo_breaking::Visibility::{Private, Public, Restricted};

fn def(kind: DefKind, vis: Visibility, name: &str, children: Vec<usize>) -> Definition {
    Definition::new(kind, vis, name.to_string(), children)
}

fn store(defs: Vec<Definition>) -> DefStore {
    let mut s = DefStore::new();
    for d in defs {
        s.add(d);
    }
    s
}

fn keys(m: &SurfaceMap) -> Vec<(String, usize)> {
    let mut v = Vec::new();
    for i in 0..m.len() {
        v.push((m.path_at(i).clone(), m.id_at(i)));
    }
    v.sort();
    v
}

fn pairs(items: &[(&str, usize)]) -> Vec<(String, usize)> {
    let mut v: Vec<(String, usize)> = items.iter().map(|(p, i)| (p.to_string(), *i)).collect();
    v.sort();
    v
}

fn pkg_store() -> DefStore {
    store(vec![
        def(Module, Public, "pkg", vec![1, 4]),
        def(Module, Public, "util", vec![2, 3]),
        def(Function, Public, "helper", vec![]),
        def(Function, Private, "secret", vec![]),
        def(Module, Private, "internal", vec![5]),
        def(Function, Public, "leaked", vec![]),
    ])
}

#[test]
fn package_with_private_parts() {
    let m = extract_surface(&pkg_store(), &vec![0]).unwrap();
    assert_eq!(keys(&m), pairs(&[("pkg", 0), ("pkg::util", 1), ("pkg::util::helper", 2)]));
    assert_eq!(m.get(&"pkg::util::secret".to_string()), None);
    assert_eq!(m.get(&"pkg::internal".to_string()), None);
    assert_eq!(m.get(&"pkg::internal::leaked".to_string()), None);
}

#[test]
fn cycle_of_modules_terminates() {
    let s = store(vec![
        def(Module, Public, "a", vec![1]),
        def(Module, Public, "b", vec![0]),
    ]);
    let m = extract_surface(&s, &vec![0]).unwrap();
    // The second occurrence of `a` is registered as an alias, not expanded.
    assert_eq!(keys(&m), pairs(&[("a", 0), ("a::b", 1), ("a::b::a", 0)]));
}

#[test]
fn self_reexporting_module_terminates() {
    let s = store(vec![
        def(Module, Public, "r", vec![0, 1]),
        def(Constant, Public, "K", vec![]),
    ]);
    let m = extract_surface(&s, &vec![0]).unwrap();
    assert_eq!(keys(&m), pairs(&[("r", 0), ("r::r", 0), ("r::K", 1)]));
}

#[test]
fn diamond_reexport_registers_both_paths() {
    let s = store(vec![
        def(Module, Public, "r", vec![1, 2]),
        def(Module, Public, "left", vec![3]),
        def(Module, Public, "right", vec![3]),
        def(Module, Public, "m", vec![4]),
        def(Function, Public, "f", vec![]),
    ]);
    let m = extract_surface(&s, &vec![0]).unwrap();
    assert_eq!(
        keys(&m),
        pairs(&[
            ("r", 0),
            ("r::left", 1),
            ("r::left::m", 3),
            ("r::left::m::f", 4),
            ("r::right", 2),
            ("r::right::m", 3),
            ("r::right::m::f", 4),
        ])
    );
}

#[test]
fn restricted_container_hides_public_descendants() {
    let s = store(vec![
        def(Module, Public, "root", vec![1, 3]),
        def(Module, Restricted(0), "inner", vec![2]),
        def(Type, Public, "Hidden", vec![]),
        def(Trait, Public, "Shown", vec![]),
    ]);
    let m = extract_surface(&s, &vec![0]).unwrap();
    assert_eq!(keys(&m), pairs(&[("root", 0), ("root::Shown", 3)]));
}

#[test]
fn leaf_with_children_is_not_descended() {
    let s = store(vec![
        def(Module, Public, "root", vec![1, 3]),
        def(Implementation, Public, "imp", vec![2]),
        def(Function, Public, "inside", vec![]),
        def(Other, Public, "odd", vec![]),
    ]);
    let m = extract_surface(&s, &vec![0]).unwrap();
    assert_eq!(keys(&m), pairs(&[("root", 0), ("root::imp", 1), ("root::odd", 3)]));
}

#[test]
fn no_roots_give_empty_surface() {
    let m = extract_surface(&pkg_store(), &vec![]).unwrap();
    assert_eq!(m.len(), 0);
}

#[test]
fn root_without_public_children() {
    let s = store(vec![
        def(Module, Public, "solo", vec![1]),
        def(Function, Private, "f", vec![]),
    ]);
    let m = extract_surface(&s, &vec![0]).unwrap();
    assert_eq!(keys(&m), pairs(&[("solo", 0)]));
}

#[test]
fn two_roots_are_both_walked() {
    let s = store(vec![
        def(Module, Public, "x", vec![2]),
        def(Module, Public, "y", vec![2]),
        def(Function, Public, "f", vec![]),
    ]);
    let m = extract_surface(&s, &vec![0, 1]).unwrap();
    assert_eq!(keys(&m), pairs(&[("x", 0), ("x::f", 2), ("y", 1), ("y::f", 2)]));
}

#[test]
fn dangling_child_is_a_violation() {
    let s = store(vec![
        def(Module, Public, "root", vec![1, 7]),
        def(Function, Public, "f", vec![]),
    ]);
    assert_eq!(extract_surface(&s, &vec![0]).err(), Some(Violation::Unresolved(7)));
}

#[test]
fn dangling_child_of_private_module_is_not_reached() {
    let s = store(vec![
        def(Module, Public, "root", vec![1]),
        def(Module, Private, "hidden", vec![9]),
    ]);
    let m = extract_surface(&s, &vec![0]).unwrap();
    assert_eq!(keys(&m), pairs(&[("root", 0)]));
}

#[test]
fn unresolved_root_is_a_violation() {
    assert_eq!(extract_surface(&pkg_store(), &vec![0, 42]).err(), Some(Violation::Unresolved(42)));
}

#[test]
fn root_that_is_not_a_module_is_a_violation() {
    assert_eq!(extract_surface(&pkg_store(), &vec![2]).err(), Some(Violation::NotContainer(2)));
}

#[test]
fn first_violation_is_reported() {
    let s = store(vec![def(Module, Public, "root", vec![5, 6])]);
    assert_eq!(extract_surface(&s, &vec![0, 3]).err(), Some(Violation::Unresolved(5)));
}

#[test]
fn colliding_paths_keep_the_last() {
    let s = store(vec![
        def(Module, Public, "root", vec![1, 2]),
        def(Type, Public, "S", vec![]),
        def(Function, Public, "S", vec![]),
    ]);
    let m = extract_surface(&s, &vec![0]).unwrap();
    assert_eq!(m.len(), 2);
    assert_eq!(m.get(&"root::S".to_string()), Some(2));
}

#[test]
fn visibility_filter() {
    assert!(is_public(Visibility::Public));
    assert!(!is_public(Visibility::Private));
    assert!(!is_public(Visibility::Restricted(3)));
}

#[test]
fn surface_map_insert_replaces() {
    let mut m = SurfaceMap::new();
    m.insert("a".to_string(), 1);
    m.insert("b".to_string(), 2);
    m.insert("a".to_string(), 3);
    assert_eq!(m.len(), 2);
    assert_eq!(m.get(&"a".to_string()), Some(3));
    assert_eq!(m.get(&"b".to_string()), Some(2));
    assert_eq!(m.get(&"c".to_string()), None);
}

fn candidate(root: usize, introduced: Option<Introduction>, name: &str) -> CrateCandidate {
    CrateCandidate { root, introduced, name: name.to_string() }
}

#[test]
fn interface_targets_current() {
    let ci = CompilerInterface::new();
    assert_eq!(ci.target, "current");
}

#[test]
fn interface_selects_declared_target_only() {
    let ci = CompilerInterface::new();
    let cs = vec![
        candidate(0, Some(Introduction::ByPath), "current"),
        candidate(1, None, "current"),
        candidate(2, Some(Introduction::Declared), "other"),
        candidate(3, Some(Introduction::Declared), "current"),
    ];
    assert_eq!(ci.select_roots(&cs), vec![3]);
    assert!(ci.is_selected(&cs[3]));
    assert!(!ci.is_selected(&cs[0]));
}

#[test]
fn interface_analyzes_selected_crate() {
    let s = store(vec![
        def(Module, Public, "std", vec![]),
        def(Module, Public, "current", vec![2]),
        def(Function, Public, "run", vec![]),
    ]);
    let cs = vec![
        candidate(0, Some(Introduction::ByPath), "std"),
        candidate(1, Some(Introduction::Declared), "current"),
    ];
    let m = CompilerInterface::new().analyze(&s, &cs).unwrap();
    assert_eq!(keys(&m), pairs(&[("current", 1), ("current::run", 2)]));
}
