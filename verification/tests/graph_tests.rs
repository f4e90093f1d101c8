use zz::graph::{reachable, topo_order};
use zz::name::Name;

fn keys(names: &[&str]) -> Vec<Name> {
    names.iter().map(|n| Name::from(*n)).collect()
}


#[test]
fn reachable_follows_arcs_from_the_roots() {
    let succ = vec![vec![1], vec![2], vec![], vec![0], vec![4]];
    assert_eq!(reachable(&succ, &vec![0]), vec![true, true, true, false, false]);
    assert_eq!(reachable(&succ, &vec![3, 3]), vec![true, true, true, true, false]);
    assert_eq!(reachable(&succ, &vec![4]), vec![false, false, false, false, true]);
    assert_eq!(reachable(&succ, &vec![]), vec![false; 5]);
    assert_eq!(reachable(&vec![], &vec![]), Vec::<bool>::new());
}

#[test]
fn order_places_successors_first_and_first_name_first() {
    let succ = vec![vec![2], vec![], vec![3], vec![], vec![1]];
    let all = vec![true; 5];
    let same = keys(&["::m::x", "::m::x", "::m::x", "::m::x", "::m::x"]);
    assert_eq!(topo_order(&succ, &all, &same), Ok(vec![1, 3, 2, 0, 4]));
    let some = vec![true, false, true, false, true];
    assert_eq!(topo_order(&succ, &some, &same), Ok(vec![2, 0, 4]));
    assert_eq!(topo_order(&succ, &vec![false; 5], &same), Ok(vec![]));
    let named = keys(&["::m::e", "::m::d", "::m::c", "::m::b", "::m::a"]);
    assert_eq!(topo_order(&succ, &all, &named), Ok(vec![3, 2, 1, 4, 0]));
}

#[test]
fn order_without_arcs_sorts_by_name() {
    let succ = vec![vec![], vec![], vec![], vec![], vec![]];
    let named = keys(&["::b::x", "::a::y", "::a", "::a::x::z", "::a::x"]);
    assert_eq!(topo_order(&succ, &vec![true; 5], &named), Ok(vec![2, 4, 3, 1, 0]));
    let short = keys(&["ab", "a", "", "b", "aa"]);
    assert_eq!(topo_order(&succ, &vec![true; 5], &short), Ok(vec![2, 1, 4, 0, 3]));
}

#[test]
fn knot_has_no_order() {
    let succ = vec![vec![1], vec![2], vec![1], vec![]];
    let names = keys(&["a", "b", "c", "d"]);
    let r = topo_order(&succ, &vec![true; 4], &names);
    assert!(matches!(r, Err(x) if x == 0 || x == 1 || x == 2));
    assert_eq!(topo_order(&succ, &vec![true, true, false, true], &names), Ok(vec![1, 0, 3]));
    assert_eq!(topo_order(&vec![vec![0]], &vec![true], &keys(&["a"])), Err(0));
}
