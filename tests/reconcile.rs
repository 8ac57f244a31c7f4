use leptos_animate::animated_for::{CyclePlan, DeferredStep, Reconciler};
use leptos_animate::position::{ElementSnapshot, Extent, Position};
use std::collections::HashMap;

fn items(keys: &[u64]) -> Vec<(u64, u64)> {
    keys.iter().map(|k| (*k, *k * 10)).collect()
}

fn snap(x: i64, y: i64) -> ElementSnapshot {
    ElementSnapshot { position: Position { x, y }, extent: Some(Extent { width: 10000, height: 5000 }) }
}

/// Mounts every alive key and returns the snapshots a measurement would give.
fn mount_all(r: &mut Reconciler, keys: &[u64]) -> HashMap<u64, ElementSnapshot> {
    let mut m = HashMap::new();
    for (i, k) in keys.iter().enumerate() {
        assert!(r.register(*k));
        m.insert(*k, snap(0, i as i64 * 10000));
    }
    m
}

fn leave_keys(p: &CyclePlan) -> Vec<u64> {
    p.leaves.iter().map(|l| l.key).collect()
}

fn enters(steps: &[DeferredStep]) -> Vec<u64> {
    steps
        .iter()
        .filter_map(|s| match s {
            DeferredStep::Enter { key, .. } => Some(*key),
            _ => None,
        })
        .collect()
}

fn measures(steps: &[DeferredStep]) -> Vec<u64> {
    steps
        .iter()
        .filter_map(|s| match s {
            DeferredStep::Measure { key, .. } => Some(*key),
            _ => None,
        })
        .collect()
}

#[test]
fn rendered_keys_are_alive_then_leaving_without_repeats() {
    let mut r = Reconciler::new(false, false);
    let p = r.update(&items(&[1, 2, 3]), &HashMap::new());
    assert!(p.leaves.is_empty());
    let before = mount_all(&mut r, &[1, 2, 3]);
    let p = r.update(&items(&[2, 4]), &before);
    assert_eq!(leave_keys(&p), vec![1, 3]);
    assert_eq!(r.render_keys(), vec![2, 4, 1, 3]);
    let p = r.update(&items(&[3, 2, 4]), &HashMap::new());
    assert!(p.leaves.is_empty());
    assert_eq!(r.render_keys(), vec![3, 2, 4, 1]);
    r.finish_leave(1);
    assert_eq!(r.render_keys(), vec![3, 2, 4]);
}

#[test]
fn same_collection_twice_is_quiet() {
    let mut r = Reconciler::new(false, false);
    r.update(&items(&[1, 2, 3]), &HashMap::new());
    let before = mount_all(&mut r, &[1, 2, 3]);
    let p = r.update(&items(&[1, 2, 3]), &before);
    assert!(p.leaves.is_empty());
    assert!(p.deferred);
    let steps = r.deferred_steps(&before);
    assert!(enters(&steps).is_empty());
    assert_eq!(measures(&steps), vec![1, 2, 3]);
    for s in steps {
        if let DeferredStep::Measure { key, before: b } = s {
            let after = before[&key];
            assert!(b.stayed_at(&after));
        }
    }
    assert_eq!(r.render_keys(), vec![1, 2, 3]);
}

#[test]
fn key_added_then_removed_before_mount_starts_nothing() {
    let mut r = Reconciler::new(false, false);
    r.update(&items(&[1, 2, 3]), &HashMap::new());
    let before = mount_all(&mut r, &[1, 2, 3]);
    let p = r.update(&items(&[1, 2, 3, 4]), &before);
    assert!(p.leaves.is_empty());
    assert!(p.unanimated.is_empty());
    let p = r.update(&items(&[1, 2, 3]), &before);
    assert!(p.leaves.is_empty());
    assert_eq!(p.unanimated, vec![4]);
    assert_eq!(r.render_keys(), vec![1, 2, 3, 4]);
    let steps = r.deferred_steps(&before);
    assert!(enters(&steps).is_empty());
    assert_eq!(measures(&steps), vec![1, 2, 3]);
    assert!(!r.register(4));
    r.finish_leave(4);
    assert_eq!(r.render_keys(), vec![1, 2, 3]);
}

#[test]
fn key_reappearing_while_leaving_enters_as_new() {
    let mut r = Reconciler::new(false, false);
    r.update(&items(&[1, 2, 3]), &HashMap::new());
    let before = mount_all(&mut r, &[1, 2, 3]);
    let p = r.update(&items(&[1, 2]), &before);
    assert_eq!(leave_keys(&p), vec![3]);
    assert_eq!(r.render_keys(), vec![1, 2, 3]);
    let mut before2 = before.clone();
    before2.remove(&3);
    let p = r.update(&items(&[1, 2, 3]), &before2);
    assert!(p.leaves.is_empty());
    assert_eq!(r.render_keys(), vec![1, 2, 3]);
    assert!(r.register(3));
    let steps = r.deferred_steps(&before2);
    assert_eq!(enters(&steps), vec![3]);
    assert_eq!(measures(&steps), vec![1, 2]);
    // The finish of the old leave animation no longer matters.
    r.finish_leave(3);
    assert_eq!(r.render_keys(), vec![1, 2, 3]);
}

#[test]
fn shifting_collection_leaves_enters_and_moves() {
    let a = 1;
    let b = 2;
    let c = 3;
    let d = 4;
    let mut r = Reconciler::new(false, true);
    r.update(&items(&[a, b, c]), &HashMap::new());
    let before = mount_all(&mut r, &[a, b, c]);
    let p = r.update(&items(&[b, c, d]), &before);
    assert_eq!(p.leaves.len(), 1);
    assert_eq!(p.leaves[0].key, a);
    assert_eq!(p.leaves[0].item, a * 10);
    assert_eq!(p.leaves[0].snapshot.position.y, 0);
    assert!(p.deferred);
    assert_eq!(r.render_keys(), vec![b, c, d, a]);
    assert!(r.register(d));
    let steps = r.deferred_steps(&before);
    assert_eq!(enters(&steps), vec![d]);
    assert_eq!(measures(&steps), vec![b, c]);
    // After reflow b and c moved up by one row; had they not, no move would run.
    let b_before = before[&b];
    let b_after = snap(0, 0);
    assert!(!b_before.stayed_at(&b_after));
    assert!(b_before.stayed_at(&b_before));
    r.finish_leave(a);
    assert_eq!(r.render_keys(), vec![b, c, d]);
}

#[test]
fn first_cycle_runs_deferred_pass_only_with_appear() {
    let mut r = Reconciler::new(false, false);
    assert!(!r.update(&items(&[1]), &HashMap::new()).deferred);
    assert!(r.update(&items(&[1]), &HashMap::new()).deferred);
    let mut r = Reconciler::new(true, false);
    assert!(r.update(&items(&[1]), &HashMap::new()).deferred);
}

#[test]
fn static_cycle_replaces_items_and_forgets_mounts() {
    let mut r = Reconciler::new(false, false);
    r.update_static(&items(&[1, 2]));
    assert!(r.register(1));
    r.update_static(&items(&[2, 3]));
    assert_eq!(r.render_keys(), vec![2, 3]);
    assert!(r.mounted_in_order().is_empty());
    assert!(r.update(&items(&[2, 3]), &HashMap::new()).deferred);
}

#[test]
fn repeated_key_keeps_first_place_and_last_item() {
    let mut r = Reconciler::new(false, false);
    r.update(&vec![(1, 10), (2, 20), (1, 11)], &HashMap::new());
    assert_eq!(r.render_keys(), vec![1, 2]);
    assert_eq!(r.item(1), Some(11));
    assert_eq!(r.item(9), None);
}

#[test]
fn unmeasured_removed_key_still_leaves() {
    let mut r = Reconciler::new(false, false);
    r.update(&items(&[1, 2, 3]), &HashMap::new());
    assert!(r.register(1));
    assert!(r.register(2));
    let mut before = HashMap::new();
    before.insert(1, snap(0, 0));
    let p = r.update(&items(&[]), &before);
    assert_eq!(leave_keys(&p), vec![1]);
    assert_eq!(p.unanimated, vec![2, 3]);
    assert_eq!(r.render_keys(), vec![1, 2, 3]);
    assert_eq!(r.item(2), Some(20));
    assert!(r.mounted_in_order().is_empty());
}

#[test]
fn mounted_keys_follow_alive_order() {
    let mut r = Reconciler::new(false, false);
    r.update(&items(&[5, 6, 7]), &HashMap::new());
    assert!(r.register(7));
    assert!(r.register(5));
    assert_eq!(r.mounted_in_order(), vec![5, 7]);
}

#[test]
fn leaving_query_follows_the_leaving_items() {
    let mut r = Reconciler::new(false, false);
    r.update(&items(&[1, 2]), &HashMap::new());
    assert!(!r.is_leaving(2));
    r.update(&items(&[1]), &HashMap::new());
    assert!(r.is_leaving(2));
    assert!(!r.is_leaving(1));
    r.update(&items(&[1, 2]), &HashMap::new());
    assert!(!r.is_leaving(2));
}
