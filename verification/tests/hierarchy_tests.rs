use daz_skinning::document::{NodeRecord, NodeType};
use daz_skinning::hierarchy::{
    find_record, link_parents, resolve, resolve_links, resolve_with, Link, Validation,
};

fn record(id: &str, parent: Option<&str>) -> NodeRecord {
    NodeRecord {
        id: id.to_string(),
        name: id.to_uppercase(),
        node_type: NodeType::Bone,
        parent: parent.map(|p| p.to_string()),
        inherits_scale: true,
    }
}

#[test]
fn chain_of_three_resolves_leaves_first() {
    let h = resolve_links(vec![Link::Root, Link::Child(0), Link::Child(1)]);
    assert_eq!(h.links, vec![Link::Root, Link::Child(0), Link::Child(1)]);
    assert_eq!(h.kept, vec![true, true, true]);
    assert_eq!(h.order, vec![2, 1, 0]);
    assert_eq!(h.roots, vec![0]);
    assert!(h.dropped.is_empty());
    assert_eq!(h.children, vec![vec![1], vec![2], vec![]]);
}

#[test]
fn empty_list_resolves_to_nothing() {
    let h = resolve(&Vec::new());
    assert!(h.links.is_empty());
    assert!(h.kept.is_empty());
    assert!(h.order.is_empty());
    assert!(h.roots.is_empty());
    assert!(h.dropped.is_empty());
}

#[test]
fn parents_first_list_keeps_every_record() {
    let records = vec![
        record("hip", None),
        record("spine", Some("hip")),
        record("head", Some("spine")),
        record("prop", None),
        record("l_leg", Some("hip")),
        record("r_leg", Some("hip")),
    ];
    let h = resolve(&records);
    assert_eq!(
        h.links,
        vec![
            Link::Root,
            Link::Child(0),
            Link::Child(1),
            Link::Root,
            Link::Child(0),
            Link::Child(0)
        ]
    );
    assert_eq!(h.kept, vec![true; 6]);
    assert!(h.dropped.is_empty());
    assert_eq!(h.roots, vec![0, 3]);
    assert_eq!(h.children[0], vec![1, 4, 5]);
    assert_eq!(h.children[1], vec![2]);
    assert_eq!(h.order.len(), 6);
    // leaves in file order first, then each parent once its last child is done
    assert_eq!(h.order, vec![2, 3, 4, 5, 1, 0]);
}

#[test]
fn every_record_stands_after_its_children() {
    let links = vec![
        Link::Child(3),
        Link::Child(0),
        Link::Child(0),
        Link::Root,
        Link::Child(2),
        Link::Child(3),
    ];
    let h = resolve_links(links.clone());
    assert_eq!(h.kept, vec![true; 6]);
    for (position, &node) in h.order.iter().enumerate() {
        for &child in &h.children[node] {
            let at = h.order.iter().position(|&x| x == child).unwrap();
            assert!(at < position);
        }
    }
    let mut sorted = h.order.clone();
    sorted.sort();
    assert_eq!(sorted, vec![0, 1, 2, 3, 4, 5]);
}

#[test]
fn cycle_members_are_dropped_and_the_rest_kept() {
    // a <-> b form a cycle; c hangs below a; d and e are a sound tree.
    let records = vec![
        record("a", Some("b")),
        record("b", Some("a")),
        record("c", Some("a")),
        record("d", None),
        record("e", Some("d")),
    ];
    let h = resolve(&records);
    assert_eq!(h.kept, vec![false, false, true, true, true]);
    assert_eq!(h.dropped, vec![0, 1]);
    assert_eq!(h.roots, vec![3]);
    assert_eq!(h.order, vec![2, 4, 3]);
    assert_eq!(h.children[0], vec![1, 2]);
}

#[test]
fn cycle_of_three_among_seven() {
    let links = vec![
        Link::Root,
        Link::Child(0),
        Link::Child(4),
        Link::Child(2),
        Link::Child(3),
        Link::Child(1),
        Link::Child(3),
    ];
    let h = resolve_links(links);
    assert_eq!(h.kept, vec![true, true, false, false, false, true, true]);
    assert_eq!(h.dropped, vec![2, 3, 4]);
    assert_eq!(h.roots, vec![0]);
    assert_eq!(h.order, vec![5, 6, 1, 0]);
}

#[test]
fn record_that_is_its_own_parent_is_dropped() {
    let h = resolve(&vec![record("loop", Some("loop")), record("leaf", Some("loop"))]);
    assert_eq!(h.links, vec![Link::Child(0), Link::Child(0)]);
    assert_eq!(h.kept, vec![false, true]);
    assert_eq!(h.dropped, vec![0]);
    assert!(h.roots.is_empty());
}

#[test]
fn dangling_parent_is_dropped_and_its_children_kept() {
    let records =
        vec![record("orphan", Some("nowhere")), record("leaf", Some("orphan")), record("r", None)];
    let h = resolve(&records);
    assert_eq!(h.links, vec![Link::Dangling, Link::Child(0), Link::Root]);
    assert_eq!(h.kept, vec![false, true, true]);
    assert_eq!(h.dropped, vec![0]);
    assert_eq!(h.roots, vec![2]);
    assert_eq!(h.order, vec![1, 2]);
}

#[test]
fn parent_may_stand_after_its_child() {
    let records = vec![record("child", Some("parent")), record("parent", None)];
    let h = resolve(&records);
    assert_eq!(h.links, vec![Link::Child(1), Link::Root]);
    assert_eq!(h.kept, vec![true, true]);
    assert_eq!(h.order, vec![0, 1]);
    assert_eq!(h.roots, vec![1]);
    assert_eq!(h.children, vec![vec![], vec![0]]);
}

#[test]
fn first_record_with_an_identifier_gets_the_children() {
    let records = vec![record("twin", None), record("twin", None), record("kid", Some("twin"))];
    let links = link_parents(&records);
    assert_eq!(links, vec![Link::Root, Link::Root, Link::Child(0)]);
    assert_eq!(find_record(&records, "twin"), Some(0));
    assert_eq!(find_record(&records, "kid"), Some(2));
    assert_eq!(find_record(&records, "Twin"), None);
    assert_eq!(find_record(&records, ""), None);
}

#[test]
fn long_chain_does_not_recurse() {
    let n = 50_000usize;
    let mut links = vec![Link::Root];
    for i in 1..n {
        links.push(Link::Child(i - 1));
    }
    let h = resolve_links(links);
    assert_eq!(h.order.len(), n);
    assert_eq!(h.order[0], n - 1);
    assert_eq!(h.order[n - 1], 0);
    assert!(h.dropped.is_empty());
}

#[test]
fn strict_validation_refuses_a_list_with_a_cycle() {
    let sound = vec![record("a", None), record("b", Some("a"))];
    let cyclic = vec![record("a", Some("b")), record("b", Some("a")), record("c", None)];

    let kept = resolve_with(&sound, Validation::Strict).unwrap();
    assert_eq!(kept.kept, vec![true, true]);
    let kept = resolve_with(&sound, Validation::Permissive).unwrap();
    assert_eq!(kept.roots, vec![0]);

    let refused = resolve_with(&cyclic, Validation::Strict).unwrap_err();
    assert_eq!(refused.dropped, vec![0, 1]);
    assert_eq!(refused.kept, vec![false, false, true]);
    let degraded = resolve_with(&cyclic, Validation::Permissive).unwrap();
    assert_eq!(degraded.dropped, vec![0, 1]);
    assert_eq!(degraded.roots, vec![2]);
}
