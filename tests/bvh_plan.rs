use raytracer::bvh::{sort_span_by_axis, BoxKey, BvhPlan};

fn leaves(plan: &BvhPlan, out: &mut Vec<usize>) {
    match plan {
        BvhPlan::Single(id) => out.push(*id),
        BvhPlan::Pair { first, second, .. } => {
            out.push(*first);
            out.push(*second);
        }
        BvhPlan::Split { left, right, .. } => {
            leaves(left, out);
            leaves(right, out);
        }
    }
}

fn check(plan: &BvhPlan, keys: &[BoxKey]) {
    match plan {
        BvhPlan::Single(id) => assert!(*id < keys.len()),
        BvhPlan::Pair { axis, first, second } => {
            assert!(*axis < 3);
            assert!(keys[*first].axis(*axis) <= keys[*second].axis(*axis));
        }
        BvhPlan::Split { axis, left, right } => {
            check(left, keys);
            check(right, keys);
            let (mut l, mut r) = (Vec::new(), Vec::new());
            leaves(left, &mut l);
            leaves(right, &mut r);
            assert!(l.len() + r.len() >= 3);
            assert_eq!(l.len(), (l.len() + r.len()) / 2);
            let lmax = l.iter().map(|&i| keys[i].axis(*axis)).max().unwrap();
            let rmin = r.iter().map(|&i| keys[i].axis(*axis)).min().unwrap();
            assert!(lmax <= rmin);
        }
    }
}

fn sample_keys(n: usize) -> Vec<BoxKey> {
    (0..n)
        .map(|i| {
            let i = i as i64;
            BoxKey::new((i * 37) % 11 - 5, (i * 13) % 7, 100 - i * 3)
        })
        .collect()
}

#[test]
fn one_object_gives_a_single_node() {
    let keys = vec![BoxKey::new(1, 2, 3)];
    let plan = BvhPlan::new(&keys);
    assert!(matches!(plan, BvhPlan::Single(0)));
}

#[test]
fn two_objects_are_ordered_on_the_drawn_axis() {
    let keys = vec![BoxKey::new(5, 5, 5), BoxKey::new(1, 1, 1)];
    for _ in 0..20 {
        match BvhPlan::new(&keys) {
            BvhPlan::Pair { axis, first, second } => {
                assert!(axis < 3);
                assert_eq!((first, second), (1, 0));
            }
            _ => panic!("two objects must make a pair node"),
        }
    }
}

#[test]
fn equal_keys_still_give_both_objects() {
    let keys = vec![BoxKey::new(0, 0, 0), BoxKey::new(0, 0, 0)];
    let plan = BvhPlan::new(&keys);
    let mut l = Vec::new();
    leaves(&plan, &mut l);
    l.sort();
    assert_eq!(l, vec![0, 1]);
}

#[test]
fn plan_holds_every_object_once_and_is_well_formed() {
    for n in 1..40usize {
        let keys = sample_keys(n);
        let plan = BvhPlan::new(&keys);
        check(&plan, &keys);
        let mut l = Vec::new();
        leaves(&plan, &mut l);
        l.sort();
        assert_eq!(l, (0..n).collect::<Vec<usize>>());
    }
}

#[test]
fn three_objects_split_one_and_two() {
    let keys = vec![BoxKey::new(9, 9, 9), BoxKey::new(0, 0, 0), BoxKey::new(4, 4, 4)];
    match BvhPlan::new(&keys) {
        BvhPlan::Split { left, right, .. } => {
            assert!(matches!(*left, BvhPlan::Single(1)));
            match *right {
                BvhPlan::Pair { first, second, .. } => assert_eq!((first, second), (2, 0)),
                _ => panic!("the right half of three objects is a pair"),
            }
        }
        _ => panic!("three objects must be split"),
    }
}

#[test]
fn sort_span_orders_only_its_span() {
    let keys = vec![
        BoxKey::new(5, 0, 0),
        BoxKey::new(3, 1, 0),
        BoxKey::new(9, 2, 0),
        BoxKey::new(1, 3, 0),
        BoxKey::new(7, 4, 0),
    ];
    let mut order = vec![0, 1, 2, 3, 4];
    sort_span_by_axis(&mut order, &keys, 1, 4, 0);
    assert_eq!(order, vec![0, 3, 1, 2, 4]);
    let mut order = vec![4, 3, 2, 1, 0];
    sort_span_by_axis(&mut order, &keys, 0, 5, 1);
    assert_eq!(order, vec![0, 1, 2, 3, 4]);
    let mut order = vec![2, 0];
    sort_span_by_axis(&mut order, &keys, 0, 2, 2);
    assert_eq!(order.len(), 2);
}

#[test]
fn box_key_axis_picks_the_coordinate() {
    let k = BoxKey::new(-4, 8, 15);
    assert_eq!(k.axis(0), -4);
    assert_eq!(k.axis(1), 8);
    assert_eq!(k.axis(2), 15);
}
