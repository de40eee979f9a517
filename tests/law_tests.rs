use nametable::{
    name_hash, AnyNameTable, DynamicNameTable, NameTable, StaticHashedNameTable, StaticNameTable,
};

fn three_layer_chain() -> DynamicNameTable {
    let root = StaticNameTable::new("FIRSTSECONDTHIRD", &[0, 5, 11, 16]);
    let mid = StaticNameTable::new_upon("FOURTHFIFTHSIXTHSEVENTH", &[0, 6, 11, 16, 23], root);
    DynamicNameTable::new_upon(mid)
}

fn sum_of_local_sizes(t: &AnyNameTable) -> usize {
    let mut total = t.len_local();
    let mut cur = t.parent();
    while let Some(p) = cur {
        total += p.len_local();
        cur = p.parent();
    }
    total
}

#[test]
fn size_is_sum_of_local_sizes() {
    let mut tbl = three_layer_chain();
    tbl.intern("EIGHTH");
    tbl.intern("NINTH");
    let node = tbl.into_node();
    assert_eq!(node.len(), 9);
    assert_eq!(sum_of_local_sizes(&node), 9);
    assert_eq!(node.parent().unwrap().len(), 7);
    assert_eq!(sum_of_local_sizes(node.parent().unwrap()), 7);
}

#[test]
fn every_index_round_trips() {
    let mut tbl = three_layer_chain();
    tbl.intern("EIGHTH");
    for i in 0..tbl.len() {
        assert_eq!(tbl.find(tbl.at(i)), Some(i));
    }
}

#[test]
fn nearer_node_shadows_ancestor() {
    let root = StaticNameTable::new("FIRSTSECONDTHIRD", &[0, 5, 11, 16]);
    let child = StaticNameTable::new_upon("ZEROSECOND", &[0, 4, 10], root);
    assert_eq!(child.find("SECOND"), Some(4));
    assert_eq!(child.parent().unwrap().find("SECOND"), Some(1));
    assert_eq!(child.find("FIRST"), Some(0));
    assert_eq!(child.find("ZERO"), Some(3));
    assert_eq!(child.at(1), "SECOND");
    assert_eq!(child.at(4), "SECOND");
}

#[test]
fn duplicate_local_names_resolve_to_the_first() {
    let tbl = StaticNameTable::new("ABAB", &[0, 1, 2, 3, 4]);
    assert_eq!(tbl.find("A"), Some(0));
    assert_eq!(tbl.find("B"), Some(1));
    assert_eq!(tbl.find_local("B"), Some(1));
}

#[test]
fn interning_twice_gives_one_id_and_one_entry() {
    let mut tbl = three_layer_chain();
    let before = tbl.len();
    let a = tbl.intern("NEW");
    let b = tbl.intern("NEW");
    assert_eq!(a, b);
    assert_eq!(a, 7);
    assert_eq!(tbl.len(), before + 1);
    for name in ["X", "Y", "X", "FIRST", "Y", "Z", "SIXTH"] {
        tbl.intern(name);
    }
    assert_eq!(tbl.len(), before + 4);
    assert_eq!(tbl.len_local(), 4);
}

#[test]
fn growable_node_shadows_nothing_it_would_duplicate() {
    let mut tbl = three_layer_chain();
    assert_eq!(tbl.intern("THIRD"), 2);
    assert_eq!(tbl.len_local(), 0);
}

#[test]
fn hashed_node_in_a_chain() {
    let names = ["FOURTH", "FIFTH", "SIXTH", "SEVENTH"];
    let mut pairs: Vec<(u64, usize)> =
        names.iter().enumerate().map(|(i, n)| (name_hash(n), i)).collect();
    pairs.sort_by(|&(a, _), &(b, _)| a.cmp(&b));
    let pairs: &'static [(u64, usize)] = Box::leak(pairs.into_boxed_slice());
    let root = DynamicNameTable::new();
    let mut root = root;
    root.intern("FIRST");
    root.intern("FIFTH");
    let tbl = StaticHashedNameTable::new_upon("FOURTHFIFTHSIXTHSEVENTH", &[0, 6, 11, 16, 23], pairs, root);
    assert_eq!(tbl.initial_local(), 2);
    assert_eq!(tbl.len(), 6);
    assert_eq!(tbl.find("FIFTH"), Some(3));
    assert_eq!(tbl.find("FIRST"), Some(0));
    assert_eq!(tbl.at(5), "SEVENTH");
    assert_eq!(tbl.index(1usize), "FIFTH");
}
