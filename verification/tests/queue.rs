use stair_core::voice::{EventQueue, MAX_ARP_EVENTS};

#[test]
fn queue_is_first_in_first_out() {
    let mut q = EventQueue::new(0u32);
    assert_eq!(q.front(), None);
    assert!(q.push(1));
    assert!(q.push(2));
    assert!(q.push(3));
    assert_eq!(q.len(), 3);
    assert_eq!(q.front(), Some(1));
    q.pop_front();
    assert_eq!(q.front(), Some(2));
    q.pop_front();
    q.pop_front();
    assert_eq!(q.front(), None);
    q.pop_front();
    assert_eq!(q.len(), 0);
}

#[test]
fn full_queue_drops_new_events() {
    let mut q = EventQueue::new((0.0f64, 0.0f64));
    for i in 0..MAX_ARP_EVENTS {
        assert!(q.push((i as f64, 0.0)));
    }
    assert!(!q.push((99.0, 0.0)));
    assert_eq!(q.len(), 16);
    for i in 0..MAX_ARP_EVENTS {
        assert_eq!(q.front(), Some((i as f64, 0.0)));
        q.pop_front();
    }
    assert_eq!(q.front(), None);
}

#[test]
fn clear_forgets_everything() {
    let mut q = EventQueue::new(0i8);
    q.push(5);
    q.clear();
    assert_eq!(q.len(), 0);
    assert_eq!(q.front(), None);
}

use stair_core::voice::{Kind, Layers, MAX_LAYERS};

#[test]
fn layers_are_numbered_per_kind_in_creation_order() {
    let mut l = Layers::new();
    assert_eq!(l.add(Kind::Osc), Some(0));
    assert_eq!(l.add(Kind::Noise), Some(0));
    assert_eq!(l.add(Kind::Osc), Some(1));
    assert_eq!(l.add(Kind::Karplus), Some(0));
    assert_eq!(l.add(Kind::Grain), Some(0));
    assert_eq!(l.len(), 5);
    let all: Vec<(Kind, usize)> = (0..l.len()).map(|j| l.get(j)).collect();
    assert_eq!(all, vec![(Kind::Osc, 0), (Kind::Noise, 0), (Kind::Osc, 1), (Kind::Karplus, 0), (Kind::Grain, 0)]);
    assert_eq!(l.count_of(Kind::Osc), 2);
}

#[test]
fn each_kind_stops_at_its_cap() {
    let mut l = Layers::new();
    for i in 0..8 {
        assert_eq!(l.add(Kind::Osc), Some(i));
    }
    assert_eq!(l.add(Kind::Osc), None);
    assert_eq!(l.add(Kind::Noise), Some(0));
    assert_eq!(l.add(Kind::Noise), Some(1));
    assert_eq!(l.add(Kind::Noise), None);
    assert_eq!(l.add(Kind::Karplus), Some(0));
    assert_eq!(l.add(Kind::Karplus), Some(1));
    assert_eq!(l.add(Kind::Karplus), None);
    assert_eq!(l.add(Kind::Grain), Some(0));
    assert_eq!(l.add(Kind::Grain), None);
    assert_eq!(l.len(), MAX_LAYERS);
    l.clear();
    assert_eq!(l.len(), 0);
    assert_eq!(l.add(Kind::Grain), Some(0));
}
