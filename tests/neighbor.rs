use neighbors::error::NeighborError;
use neighbors::images::Image;
use neighbors::neighbor::{exclude_host, Neighbor};
use neighbors::registry::Registry;

fn registry() -> Registry<[f64; 3]> {
    let mut r = Registry::new();
    r.update(vec![(10, [0.0; 3]), (20, [1.0; 3]), (30, [2.0; 3])]);
    r
}

#[test]
fn aperiodic_hits_get_keys_and_no_image() {
    let r = registry();
    let found = r.aperiodic_neighbors(&vec![(2, 0.5), (0, 0.0)]).unwrap();
    assert_eq!(found.len(), 2);
    assert_eq!(found[0].node, 30);
    assert_eq!(found[0].distance, 0.5);
    assert_eq!(found[0].image, None);
    assert_eq!(found[1].node, 10);
    assert_eq!(found[1].distance, 0.0);
}

#[test]
fn hit_past_the_registry_is_refused() {
    let r = registry();
    let res = r.aperiodic_neighbors(&vec![(0, 0.1), (3, 0.2)]);
    assert_eq!(res.err(), Some(NeighborError::IndexOutOfRange));
    let res = r.tag_hits(&vec![(5, 0.2)], None);
    assert_eq!(res.err(), Some(NeighborError::IndexOutOfRange));
}

#[test]
fn periodic_hits_get_the_opposite_translation() {
    let r = registry();
    let groups = vec![
        (Image { a: -1, b: 0, c: 1 }, vec![(1, 0.75)]),
        (Image { a: 0, b: 0, c: 0 }, vec![]),
        (Image { a: 0, b: 1, c: 0 }, vec![(1, 1.25), (0, 0.5)]),
    ];
    let found = r.periodic_neighbors(&groups).unwrap();
    let nodes: Vec<usize> = found.iter().map(|n| n.node).collect();
    assert_eq!(nodes, vec![20, 20, 10]);
    assert_eq!(found[0].image, Some(Image { a: 1, b: 0, c: -1 }));
    assert_eq!(found[1].image, Some(Image { a: 0, b: -1, c: 0 }));
    assert_eq!(found[2].image, Some(Image { a: 0, b: -1, c: 0 }));
    assert_eq!(found[1].distance, 1.25);
}

#[test]
fn periodic_hit_past_the_registry_is_refused() {
    let r = registry();
    let groups = vec![(Image { a: 0, b: 0, c: 0 }, vec![(0, 0.0), (7, 1.0)])];
    assert_eq!(r.periodic_neighbors(&groups).err(), Some(NeighborError::IndexOutOfRange));
}

#[test]
fn host_gate_drops_only_coincident_host_records() {
    let rec = |node: usize, distance: f64| Neighbor { node, distance, image: None };
    let found = vec![rec(1, 0.0), rec(2, 0.0), rec(1, 2.5), rec(3, 1.0)];
    let coincident = vec![true, true, false, false];
    let kept = exclude_host(&found, 1, &coincident);
    let nodes: Vec<usize> = kept.iter().map(|n| n.node).collect();
    assert_eq!(nodes, vec![2, 1, 3]);
    assert_eq!(kept[1].distance, 2.5);
}

#[test]
fn host_gate_on_empty_input() {
    let kept = exclude_host::<f64>(&vec![], 4, &vec![]);
    assert!(kept.is_empty());
}
