use duplicate_finder::clusterer::Clusterer;

fn sorted_groups(c: Clusterer) -> Vec<Vec<u64>> {
    let mut gs: Vec<Vec<u64>> = c
        .into_sccs()
        .into_iter()
        .map(|mut g| {
            g.sort();
            g
        })
        .collect();
    gs.sort();
    gs
}

#[test]
fn clusterer_empty_has_no_groups() {
    let c = Clusterer::new();
    assert_eq!(c.into_sccs().len(), 0);
}

#[test]
fn clusterer_add_single_makes_singletons() {
    let mut c = Clusterer::new();
    c.add_single(&1);
    c.add_single(&2);
    c.add_single(&3);
    assert_eq!(sorted_groups(c), vec![vec![1], vec![2], vec![3]]);
}

#[test]
fn clusterer_add_single_is_idempotent() {
    let mut c = Clusterer::new();
    c.add_single(&7);
    c.add_single(&7);
    c.add_single(&7);
    assert_eq!(sorted_groups(c), vec![vec![7]]);
}

#[test]
fn clusterer_add_link_registers_both() {
    let mut c = Clusterer::new();
    c.add_link(&1, &2);
    assert_eq!(sorted_groups(c), vec![vec![1, 2]]);
}

#[test]
fn clusterer_add_link_merges_clusters() {
    let mut c = Clusterer::new();
    c.add_single(&1);
    c.add_single(&2);
    c.add_single(&3);
    c.add_single(&4);
    c.add_link(&1, &2);
    c.add_link(&3, &4);
    c.add_link(&2, &3);
    assert_eq!(sorted_groups(c), vec![vec![1, 2, 3, 4]]);
}

#[test]
fn clusterer_chain_is_transitively_absorbing() {
    // a-b and b-c links pull all three together though a and c were
    // never linked directly
    let mut c = Clusterer::new();
    c.add_link(&10, &20);
    c.add_link(&20, &30);
    assert_eq!(sorted_groups(c), vec![vec![10, 20, 30]]);
}

#[test]
fn clusterer_add_link_is_symmetric() {
    let mut c1 = Clusterer::new();
    c1.add_single(&1);
    c1.add_single(&2);
    c1.add_link(&1, &2);
    let mut c2 = Clusterer::new();
    c2.add_single(&1);
    c2.add_single(&2);
    c2.add_link(&2, &1);
    assert_eq!(sorted_groups(c1), sorted_groups(c2));
}

#[test]
fn clusterer_link_same_key_twice_is_noop() {
    let mut c = Clusterer::new();
    c.add_link(&5, &6);
    c.add_link(&5, &6);
    c.add_link(&6, &5);
    assert_eq!(sorted_groups(c), vec![vec![5, 6]]);
}

#[test]
fn clusterer_link_key_with_itself() {
    let mut c = Clusterer::new();
    c.add_link(&9, &9);
    assert_eq!(sorted_groups(c), vec![vec![9]]);
}

#[test]
fn clusterer_partition_is_disjoint_and_complete() {
    let mut c = Clusterer::new();
    for k in 0..10u64 {
        c.add_single(&k);
    }
    c.add_link(&0, &1);
    c.add_link(&2, &3);
    c.add_link(&1, &3);
    let gs = c.into_sccs();
    let mut all: Vec<u64> = gs.iter().flatten().copied().collect();
    all.sort();
    assert_eq!(all, (0..10).collect::<Vec<u64>>());
}
